//! The configuration of one search, and how command-line tokens give it.
//!
//! The tokens are `<program> [-i ...] <query> <file>`: the last token is the
//! file's path, the one before it the query, and every token between the
//! program's name and the query must spell an option by itself.

use vstd::prelude::*;
use crate::substring::same_text;

verus! {

/// A named toggle that changes how lines are matched.
#[derive(Clone, Copy, Debug, PartialEq, Eq, Structural)]
pub enum Option {
    /// Compare the query and each line in their lowercase forms.
    IgnoreCase,
}

/// What one search needs: what to look for, where, and how.
pub struct Config {
    pub query: String,
    pub file_path: String,
    pub options: Vec<Option>,
}

/// A configuration as plain values.
pub struct ConfigView {
    pub query: Seq<char>,
    pub file_path: Seq<char>,
    pub options: Seq<Option>,
}

impl View for Config {
    type V = ConfigView;

    open spec fn view(&self) -> ConfigView {
        ConfigView { query: self.query@, file_path: self.file_path@, options: self.options@ }
    }
}

/// The error for fewer than three tokens.
pub const NOT_ENOUGH_ARGS: &'static str = "Not enough args";

/// The error for a token in an option's place that spells no option.
pub const INVALID_OPTION: &'static str = "Invalid option argument.";

/// The two errors can be told apart by their messages.
pub proof fn lemma_messages_differ()
    ensures
        NOT_ENOUGH_ARGS@ != INVALID_OPTION@,
{
    reveal_strlit("Not enough args");
    reveal_strlit("Invalid option argument.");
    assert(NOT_ENOUGH_ARGS@.len() == 15);
    assert(INVALID_OPTION@.len() == 24);
}

/// The option that `token` spells, if it spells one.
pub open spec fn option_of_token(token: Seq<char>) -> core::option::Option<Option> {
    if token == "-i"@ {
        Some(Option::IgnoreCase)
    } else {
        None
    }
}

/// The tokens in the options' place: those after the program's name and before
/// the query.
pub open spec fn option_tokens(args: Seq<Seq<char>>) -> Seq<Seq<char>> {
    args.subrange(1, args.len() - 2)
}

/// Every one of `tokens` spells an option.
pub open spec fn all_recognized(tokens: Seq<Seq<char>>) -> bool {
    forall|i: int| 0 <= i < tokens.len() ==> option_of_token(#[trigger] tokens[i]) is Some
}

/// The options that `tokens` spell, one for each token, in their order.
pub open spec fn options_of_tokens(tokens: Seq<Seq<char>>) -> Seq<Option> {
    Seq::new(tokens.len(), |i: int| option_of_token(tokens[i])->0)
}

/// The option set after the environment had its say: where case-insensitivity
/// was not asked for by a token and the environment asks for it, it is added.
pub open spec fn with_environment(options: Seq<Option>, ignore_case_env: bool) -> Seq<Option> {
    if !options.contains(Option::IgnoreCase) && ignore_case_env {
        options.push(Option::IgnoreCase)
    } else {
        options
    }
}

/// What building a configuration from `args` gives: the configuration, or the
/// message of the error.
pub open spec fn build_outcome(args: Seq<Seq<char>>, ignore_case_env: bool) -> Result<
    ConfigView,
    Seq<char>,
> {
    if args.len() < 3 {
        Err(NOT_ENOUGH_ARGS@)
    } else if !all_recognized(option_tokens(args)) {
        Err(INVALID_OPTION@)
    } else {
        Ok(
            ConfigView {
                query: args[args.len() - 2],
                file_path: args[args.len() - 1],
                options: with_environment(
                    options_of_tokens(option_tokens(args)),
                    ignore_case_env,
                ),
            },
        )
    }
}

/// What `build` returned, as plain values.
pub open spec fn outcome_view(built: Result<Config, &'static str>) -> Result<
    ConfigView,
    Seq<char>,
> {
    match built {
        Ok(config) => Ok(config@),
        Err(message) => Err(message@),
    }
}

/// Reads one token in an option's place.
pub fn parse_option(token: &str) -> (parsed: core::option::Option<Option>)
    ensures
        parsed == option_of_token(token@),
{
    if same_text(token, "-i") {
        Some(Option::IgnoreCase)
    } else {
        None
    }
}

impl Config {
    /// Builds the configuration from the tokens of the command line, the
    /// program's name first. `ignore_case_env` says whether the environment
    /// asks for a case-insensitive search; a token `-i` makes it irrelevant.
    pub fn build(args: Vec<String>, ignore_case_env: bool) -> (built: Result<Config, &'static str>)
        ensures
            outcome_view(built) == build_outcome(args.deep_view(), ignore_case_env),
    {
        let len: usize = args.len();
        if len < 3 {
            return Err(NOT_ENOUGH_ARGS);
        }
        let query = args[len - 2].clone();
        let file_path = args[len - 1].clone();
        let ghost tokens = option_tokens(args.deep_view());
        let mut options: Vec<Option> = Vec::new();
        if len > 3 {
            let mut i: usize = 1;
            while i < len - 2
                invariant
                    1 <= i <= len - 2,
                    len == args.len(),
                    tokens == option_tokens(args.deep_view()),
                    all_recognized(tokens.take(i - 1)),
                    options@ == options_of_tokens(tokens.take(i - 1)),
                decreases len - i,
            {
                assert(tokens[i - 1] == args[i as int]@);
                match parse_option(args[i].as_str()) {
                    Some(option) => {
                        options.push(option);
                    },
                    None => {
                        return Err(INVALID_OPTION);
                    },
                }
                i += 1;
                proof {
                    let now = tokens.take(i - 1);
                    assert forall|k: int| 0 <= k < now.len() implies option_of_token(
                        #[trigger] now[k],
                    ) is Some by {
                        if k < i - 2 {
                            assert(now[k] == tokens.take(i - 2)[k]);
                        }
                    }
                    assert(options@ =~= options_of_tokens(now));
                }
            }
        }
        assert(tokens.take(tokens.len() as int) =~= tokens);
        assert(options@ =~= options_of_tokens(tokens));
        let mut config = Config { query, file_path, options };
        if !config.has_option(Option::IgnoreCase) && ignore_case_env {
            config.options.push(Option::IgnoreCase);
        }
        Ok(config)
    }

    /// Whether `option` is selected for this search.
    pub fn has_option(&self, option: Option) -> (found: bool)
        ensures
            found == self.options@.contains(option),
    {
        let mut i: usize = 0;
        while i < self.options.len()
            invariant
                i <= self.options.len(),
                forall|j: int| 0 <= j < i ==> self.options@[j] != option,
            decreases self.options.len() - i,
        {
            if self.options[i] == option {
                return true;
            }
            i += 1;
        }
        false
    }
}

} // verus!
