//! The two searches: which lines of a text hold a query.

use vstd::prelude::*;
use crate::config::{Config, ConfigView, Option};
use crate::lines::{after_first_line, first_line, lemma_rest_is_shorter, next_line, split_lines};
use crate::lowercase::lowercase;
use crate::substring::{contains, has_substring, lemma_empty_pattern_occurs};

verus! {

/// The test that a line holds `query`, character for character.
pub open spec fn holds_query(query: Seq<char>) -> spec_fn(Seq<char>) -> bool {
    |line: Seq<char>| has_substring(line, query)
}

/// The test that the lowercase form of a line holds the lowercase form of
/// `query`.
pub open spec fn holds_query_ignoring_case(query: Seq<char>) -> spec_fn(Seq<char>) -> bool {
    |line: Seq<char>| has_substring(lowercase(line), lowercase(query))
}

/// The lines of `contents` that hold `query`, in their order in `contents`.
pub open spec fn matching_lines(contents: Seq<char>, query: Seq<char>) -> Seq<Seq<char>> {
    split_lines(contents).filter(holds_query(query))
}

/// The lines of `contents` that hold `query` when case is ignored, in their
/// order in `contents`.
pub open spec fn matching_lines_ignoring_case(contents: Seq<char>, query: Seq<char>) -> Seq<
    Seq<char>,
> {
    split_lines(contents).filter(holds_query_ignoring_case(query))
}

/// Filtering the lines of a text is filtering its first line and then the lines
/// of the rest.
proof fn lemma_filter_first_line(text: Seq<char>, keep: spec_fn(Seq<char>) -> bool)
    ensures
        text.len() == 0 ==> split_lines(text).filter(keep) == Seq::<Seq<char>>::empty(),
        text.len() > 0 ==> split_lines(text).filter(keep) == (if keep(first_line(text)) {
            seq![first_line(text)]
        } else {
            Seq::empty()
        }) + split_lines(after_first_line(text)).filter(keep),
{
    if text.len() == 0 {
        reveal(Seq::filter);
    } else {
        lemma_rest_is_shorter(text);
        split_lines(after_first_line(text)).lemma_filter_prepend(first_line(text), keep);
    }
}

/// A filter that every element passes keeps the whole sequence.
proof fn lemma_filter_keeps_all(lines: Seq<Seq<char>>, keep: spec_fn(Seq<char>) -> bool)
    requires
        forall|i: int| 0 <= i < lines.len() ==> keep(#[trigger] lines[i]),
    ensures
        lines.filter(keep) == lines,
    decreases lines.len(),
{
    reveal(Seq::filter);
    if lines.len() > 0 {
        lemma_filter_keeps_all(lines.drop_last(), keep);
        assert(lines.drop_last().push(lines.last()) =~= lines);
    }
}

/// Searching for the empty query returns every line.
pub proof fn lemma_empty_query_matches_all(contents: Seq<char>, query: Seq<char>)
    requires
        query.len() == 0,
    ensures
        matching_lines(contents, query) == split_lines(contents),
{
    let lines = split_lines(contents);
    assert forall|i: int| 0 <= i < lines.len() implies holds_query(query)(#[trigger] lines[i]) by {
        lemma_empty_pattern_occurs(lines[i], query);
    }
    lemma_filter_keeps_all(lines, holds_query(query));
}

/// Searching without regard to case for a query whose lowercase form is empty
/// returns every line.
proof fn lemma_empty_query_matches_all_ignoring_case(contents: Seq<char>, query: Seq<char>)
    requires
        lowercase(query).len() == 0,
    ensures
        matching_lines_ignoring_case(contents, query) == split_lines(contents),
{
    let lines = split_lines(contents);
    assert forall|i: int| 0 <= i < lines.len() implies holds_query_ignoring_case(query)(
        #[trigger] lines[i],
    ) by {
        lemma_empty_pattern_occurs(lowercase(lines[i]), lowercase(query));
    }
    lemma_filter_keeps_all(lines, holds_query_ignoring_case(query));
}

/// The lines of `contents` that contain `query`, in their order in `contents`.
/// Each returned line is a slice of `contents`.
pub fn search<'a>(query: &str, contents: &'a str) -> (results: Vec<&'a str>)
    ensures
        results.deep_view() == matching_lines(contents@, query@),
        query@.len() == 0 ==> results.deep_view() == split_lines(contents@),
{
    let mut results: Vec<&'a str> = Vec::new();
    let mut rest: &'a str = contents;
    assert(results.deep_view() =~= Seq::<Seq<char>>::empty());
    loop
        invariant
            matching_lines(contents@, query@) == results.deep_view() + matching_lines(
                rest@,
                query@,
            ),
        ensures
            results.deep_view() == matching_lines(contents@, query@),
        decreases rest@.len(),
    {
        proof {
            lemma_filter_first_line(rest@, holds_query(query@));
        }
        match next_line(rest) {
            None => {
                break ;
            },
            Some((line, tail)) => {
                proof {
                    lemma_rest_is_shorter(rest@);
                }
                let ghost before = results.deep_view();
                if contains(line, query) {
                    results.push(line);
                    assert(results.deep_view() =~= before + seq![line@]);
                }
                rest = tail;
            },
        }
    }
    proof {
        if query@.len() == 0 {
            lemma_empty_query_matches_all(contents@, query@);
        }
    }
    results
}

/// The lines of `contents` whose lowercase form contains the lowercase form of
/// `query`, in their order in `contents`. Each returned line is a slice of
/// `contents`, with the case it has there.
pub fn search_case_insensitive<'a>(query: &str, contents: &'a str) -> (results: Vec<&'a str>)
    ensures
        results.deep_view() == matching_lines_ignoring_case(contents@, query@),
        query@.len() == 0 ==> results.deep_view() == split_lines(contents@),
{
    let wanted = query.to_lowercase();
    let mut results: Vec<&'a str> = Vec::new();
    let mut rest: &'a str = contents;
    assert(results.deep_view() =~= Seq::<Seq<char>>::empty());
    loop
        invariant
            wanted@ == lowercase(query@),
            matching_lines_ignoring_case(contents@, query@) == results.deep_view()
                + matching_lines_ignoring_case(rest@, query@),
        ensures
            results.deep_view() == matching_lines_ignoring_case(contents@, query@),
        decreases rest@.len(),
    {
        proof {
            lemma_filter_first_line(rest@, holds_query_ignoring_case(query@));
        }
        match next_line(rest) {
            None => {
                break ;
            },
            Some((line, tail)) => {
                proof {
                    lemma_rest_is_shorter(rest@);
                }
                let ghost before = results.deep_view();
                let lowered = line.to_lowercase();
                if contains(lowered.as_str(), wanted.as_str()) {
                    results.push(line);
                    assert(results.deep_view() =~= before + seq![line@]);
                }
                rest = tail;
            },
        }
    }
    proof {
        if query@.len() == 0 {
            lemma_empty_query_matches_all_ignoring_case(contents@, query@);
        }
    }
    results
}

/// The lines that a search configured by `config` selects from `contents`:
/// matched without regard to case where the options ask for it, exactly
/// otherwise.
pub open spec fn selected_lines(config: ConfigView, contents: Seq<char>) -> Seq<Seq<char>> {
    if config.options.contains(Option::IgnoreCase) {
        matching_lines_ignoring_case(contents, config.query)
    } else {
        matching_lines(contents, config.query)
    }
}

/// Runs the search that `config` describes on `contents`, the text of the file
/// that it names, and returns the matching lines in their order.
pub fn run<'a>(config: Config, contents: &'a str) -> (results: Vec<&'a str>)
    ensures
        results.deep_view() == selected_lines(config@, contents@),
{
    if config.has_option(Option::IgnoreCase) {
        search_case_insensitive(config.query.as_str(), contents)
    } else {
        search(config.query.as_str(), contents)
    }
}

/// Only which options are selected counts, not how often or in what order:
/// two configurations with the same query and the same set of options select
/// the same lines.
pub proof fn lemma_repeated_options_change_nothing(
    first: ConfigView,
    second: ConfigView,
    contents: Seq<char>,
)
    requires
        first.query == second.query,
        first.options.to_set() == second.options.to_set(),
    ensures
        selected_lines(first, contents) == selected_lines(second, contents),
{
    assert(first.options.contains(Option::IgnoreCase) == first.options.to_set().contains(
        Option::IgnoreCase,
    ));
    assert(second.options.contains(Option::IgnoreCase) == second.options.to_set().contains(
        Option::IgnoreCase,
    ));
}

/// Searching is repeatable: two runs of `search` on the same query and the
/// same contents return the same lines in the same order.
pub proof fn lemma_search_repeatable(
    query: &str,
    contents: &str,
    first: Vec<&str>,
    second: Vec<&str>,
)
    requires
        first.deep_view() == matching_lines(contents@, query@),
        second.deep_view() == matching_lines(contents@, query@),
    ensures
        first.deep_view() == second.deep_view(),
{
}

/// Searching without regard to case is repeatable: two runs of
/// `search_case_insensitive` on the same query and the same contents return
/// the same lines in the same order.
pub proof fn lemma_search_case_insensitive_repeatable(
    query: &str,
    contents: &str,
    first: Vec<&str>,
    second: Vec<&str>,
)
    requires
        first.deep_view() == matching_lines_ignoring_case(contents@, query@),
        second.deep_view() == matching_lines_ignoring_case(contents@, query@),
    ensures
        first.deep_view() == second.deep_view(),
{
}

} // verus!
