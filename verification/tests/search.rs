use minigrep::lines::next_line;
use minigrep::substring::{contains, same_text};
use minigrep::{search, search_case_insensitive};

const POEM: &str = "Rust:\nsafe, fast, productive.\nPick three.\nDuct tape.";

#[test]
fn case_sensitive() {
    let query = "duct";
    let contents = "\
Rust:
safe, fast, productive.
Pick three.
Duct tape.";

    assert_eq!(vec!["safe, fast, productive."], search(query, contents));
}

#[test]
fn case_insensitive() {
    let query = "rUsT";
    let contents = "\
Rust:
safe, fast, productive.
Pick three.
Trust me.";

    assert_eq!(
        vec!["Rust:", "Trust me."],
        search_case_insensitive(query, contents)
    );
}

#[test]
fn search_keeps_exactly_the_lines_that_contain_the_query() {
    let contents = "alpha\nbeta\ngamma\nalphabet\n\ndelta";
    for query in ["a", "al", "alpha", "bet", "x", "ta", "gamma", "alphabets"] {
        let expected: Vec<&str> = contents.lines().filter(|line| line.contains(query)).collect();
        assert_eq!(expected, search(query, contents));
    }
    assert_eq!(vec!["alpha", "alphabet"], search("alpha", contents));
}

#[test]
fn search_case_insensitive_keeps_the_lines_whose_lowercase_contains_the_lowercase_query() {
    let contents = "Alpha\nBETA\ngamma\nalphaBet\n\nDelta";
    for query in ["A", "AL", "alpha", "Bet", "X", "TA", "GaMmA", "ALPHABETS"] {
        let wanted = query.to_lowercase();
        let expected: Vec<&str> =
            contents.lines().filter(|line| line.to_lowercase().contains(&wanted)).collect();
        assert_eq!(expected, search_case_insensitive(query, contents));
    }
    assert_eq!(vec!["BETA", "alphaBet"], search_case_insensitive("bEt", contents));
}

#[test]
fn results_keep_the_order_and_the_repeats_of_the_file() {
    let contents = "b1\na\nb2\nb1\nc\nb0";
    assert_eq!(vec!["b1", "b2", "b1", "b0"], search("b", contents));
    assert_eq!(vec!["b1", "b2", "b1", "b0"], search_case_insensitive("B", contents));
}

#[test]
fn searching_twice_gives_the_same_lines() {
    assert_eq!(search("t", POEM), search("t", POEM));
    assert_eq!(search_case_insensitive("T", POEM), search_case_insensitive("T", POEM));
    assert_eq!(
        vec!["Rust:", "safe, fast, productive.", "Pick three.", "Duct tape."],
        search("t", POEM)
    );
    assert_eq!(vec!["Rust:", "safe, fast, productive.", "Duct tape."], search("u", POEM));
}

#[test]
fn empty_query_returns_all_lines() {
    let all = vec!["Rust:", "safe, fast, productive.", "Pick three.", "Duct tape."];
    assert_eq!(all, search("", POEM));
    assert_eq!(all, search_case_insensitive("", POEM));
}

#[test]
fn no_matching_line_gives_an_empty_result() {
    assert_eq!(Vec::<&str>::new(), search("monomorphization", POEM));
    assert_eq!(Vec::<&str>::new(), search_case_insensitive("MONOMORPHIZATION", POEM));
}

#[test]
fn empty_contents_have_no_lines() {
    assert_eq!(Vec::<&str>::new(), search("", ""));
    assert_eq!(Vec::<&str>::new(), search("a", ""));
    assert_eq!(Vec::<&str>::new(), search_case_insensitive("", ""));
}

#[test]
fn final_line_ending_adds_no_empty_line() {
    assert_eq!(vec!["one", "two"], search("", "one\ntwo\n"));
    assert_eq!(vec!["one", "two"], search("", "one\ntwo"));
    assert_eq!(vec!["one", "two", ""], search("", "one\ntwo\n\n"));
    assert_eq!(vec![""], search("", "\n"));
}

#[test]
fn blank_lines_are_lines() {
    assert_eq!(vec!["", "a", "", "", "b"], search("", "\na\n\n\nb"));
    assert_eq!(vec!["a", "b"], search_case_insensitive("", "a\nb\n"));
}

#[test]
fn carriage_return_before_line_feed_belongs_to_the_terminator() {
    assert_eq!(vec!["one", "two", "three"], search("", "one\r\ntwo\r\nthree\r\n"));
    assert_eq!(vec!["", "x"], search("", "\r\nx"));
    assert_eq!(vec!["a\r"], search("", "a\r\r\n"));
}

#[test]
fn lone_carriage_return_is_an_ordinary_character() {
    assert_eq!(vec!["one\rtwo"], search("", "one\rtwo"));
    assert_eq!(vec!["one", "two\r"], search("", "one\ntwo\r"));
    assert_eq!(vec!["one\rtwo"], search("\r", "one\rtwo\nthree"));
}

#[test]
fn lines_agree_with_the_standard_library() {
    let texts = [
        "",
        "\n",
        "\r",
        "\r\n",
        "\n\r",
        "a",
        "a\n",
        "a\r\n",
        "a\r",
        "a\n\nb",
        "a\r\n\r\nb\r",
        "\r\r\n\n\r\n",
        "é\nü\r\n日本語\n",
        "tab\there\n  spaced  \n",
        "𝄞 clef\r\nend",
    ];
    for text in texts {
        let expected: Vec<&str> = text.lines().collect();
        assert_eq!(expected, search("", text), "{:?}", text);
        assert_eq!(expected, search_case_insensitive("", text), "{:?}", text);
    }
}

#[test]
fn characters_outside_ascii_are_matched_whole() {
    let contents = "naïve café\nnaive cafe\n日本語のテキスト\nÄpfel und Öl";
    assert_eq!(vec!["naïve café"], search("é", contents));
    assert_eq!(vec!["naïve café"], search("ïve", contents));
    assert_eq!(vec!["日本語のテキスト"], search("本語", contents));
    assert_eq!(vec!["Äpfel und Öl"], search_case_insensitive("äPFEL", contents));
    assert_eq!(vec!["Äpfel und Öl"], search_case_insensitive("öl", contents));
    assert_eq!(Vec::<&str>::new(), search("äpfel", contents));
}

#[test]
fn lowercasing_is_of_the_whole_string() {
    let contents = "ΟΔΥΣΣΕΥΣ\nİstanbul\nplain";
    let wanted = "οδυσσευς";
    let expected: Vec<&str> = contents
        .lines()
        .filter(|line| line.to_lowercase().contains(&wanted.to_lowercase()))
        .collect();
    assert_eq!(expected, search_case_insensitive(wanted, contents));
    assert_eq!(vec!["ΟΔΥΣΣΕΥΣ"], search_case_insensitive("ΟΔΥΣΣΕΥΣ", contents));
    assert_eq!(vec!["İstanbul"], search_case_insensitive("İ", contents));
}

#[test]
fn returned_lines_are_slices_of_the_contents() {
    let contents = String::from("first\nsecond\r\nthird");
    let found = search("i", &contents);
    assert_eq!(vec!["first", "third"], found);
    let start = contents.as_ptr() as usize;
    assert_eq!(start, found[0].as_ptr() as usize);
    assert_eq!(start + 14, found[1].as_ptr() as usize);
}

#[test]
fn next_line_splits_off_one_line() {
    assert_eq!(None, next_line(""));
    assert_eq!(Some(("a", "")), next_line("a"));
    assert_eq!(Some(("a", "")), next_line("a\n"));
    assert_eq!(Some(("a", "b\nc")), next_line("a\nb\nc"));
    assert_eq!(Some(("a", "b")), next_line("a\r\nb"));
    assert_eq!(Some(("", "\n")), next_line("\n\n"));
    assert_eq!(Some(("a\r", "")), next_line("a\r"));
    assert_eq!(Some(("é", "ü")), next_line("é\nü"));
}

#[test]
fn contains_finds_a_substring_anywhere() {
    assert!(contains("haystack", "hay"));
    assert!(contains("haystack", "stack"));
    assert!(contains("haystack", "yst"));
    assert!(contains("haystack", "haystack"));
    assert!(contains("haystack", ""));
    assert!(contains("", ""));
    assert!(!contains("", "a"));
    assert!(!contains("haystack", "haystacks"));
    assert!(!contains("haystack", "hat"));
    assert!(!contains("aab", "abb"));
    assert!(contains("aaab", "aab"));
    assert!(contains("日本語", "本"));
    assert!(!contains("日本語", "文"));
}

#[test]
fn contains_agrees_with_the_standard_library() {
    let texts = ["", "a", "ab", "aba", "abab", "bbab", "é", "aé", "éa", "日本"];
    for text in texts {
        for pattern in texts {
            assert_eq!(text.contains(pattern), contains(text, pattern), "{:?} {:?}", text, pattern);
        }
    }
}

#[test]
fn same_text_compares_character_for_character() {
    assert!(same_text("", ""));
    assert!(same_text("-i", "-i"));
    assert!(!same_text("-i", "-I"));
    assert!(!same_text("-i", "-ix"));
    assert!(!same_text("-i", "-"));
    assert!(same_text("é", "é"));
    assert!(!same_text("é", "e"));
}
