//! Resolving a run's configuration from its arguments and from the value of
//! the `IGNORE_CASE` environment variable.
//!
//! The first argument is the program's name. Of the tokens after it, those
//! that begin with `--` are flags and the others are positional: the first
//! positional token is the query, the second the file path, and further ones
//! are ignored. The only flag is `--ignore_case`. Where the environment
//! variable is set, its value decides and the flag does not.
//!
//! Failures are reported in this order: a missing positional argument, then
//! an unrecognized flag, then an invalid value of the variable.

use vstd::prelude::*;
use vstd::string::*;
use vstd::slice::*;
use crate::encoding::is_prefix;
use crate::substring::{same_text, starts_with};

verus! {

/// What one run searches for, where, and how.
#[derive(Debug, Clone, PartialEq, Eq)]
pub struct Config {
    pub query: String,
    pub file_path: String,
    pub ignore_case: bool,
}

/// Why no configuration could be resolved.
#[derive(Debug, Clone, PartialEq, Eq)]
pub enum ConfigError {
    /// No positional argument follows the program's name.
    MissingQuery,
    /// Only one positional argument follows the program's name.
    MissingFilePath,
    /// A flag other than `--ignore_case`; the token is kept.
    UnrecognizedFlag(String),
    /// `IGNORE_CASE` is set to something other than `true` or `false`; the
    /// value is kept.
    InvalidOverride(String),
}

/// A configuration, as values.
pub struct ConfigModel {
    pub query: Seq<char>,
    pub file_path: Seq<char>,
    pub ignore_case: bool,
}

/// A failure, as values.
pub enum Failure {
    MissingQuery,
    MissingFilePath,
    UnrecognizedFlag(Seq<char>),
    InvalidOverride(Seq<char>),
}

impl View for Config {
    type V = ConfigModel;

    open spec fn view(&self) -> ConfigModel {
        ConfigModel { query: self.query@, file_path: self.file_path@, ignore_case: self.ignore_case }
    }
}

impl View for ConfigError {
    type V = Failure;

    open spec fn view(&self) -> Failure {
        match self {
            ConfigError::MissingQuery => Failure::MissingQuery,
            ConfigError::MissingFilePath => Failure::MissingFilePath,
            ConfigError::UnrecognizedFlag(token) => Failure::UnrecognizedFlag(token@),
            ConfigError::InvalidOverride(value) => Failure::InvalidOverride(value@),
        }
    }
}

/// The two characters that mark a flag.
pub open spec fn flag_marker() -> Seq<char> {
    seq!['-', '-']
}

/// The one flag that is recognized.
pub open spec fn recognized_flag() -> Seq<char> {
    "--ignore_case"@
}

/// A token is a flag when it begins with `--`.
pub open spec fn is_flag(token: Seq<char>) -> bool {
    is_prefix(flag_marker(), token)
}

/// The test for a flag, and the test for a positional token.
pub open spec fn flag_test(want_flag: bool) -> spec_fn(Seq<char>) -> bool {
    |token: Seq<char>| is_flag(token) == want_flag
}

/// The positional tokens among `tokens`, in order.
pub open spec fn positional_tokens(tokens: Seq<Seq<char>>) -> Seq<Seq<char>> {
    tokens.filter(flag_test(false))
}

/// The flag tokens among `tokens`, in order.
pub open spec fn flag_tokens(tokens: Seq<Seq<char>>) -> Seq<Seq<char>> {
    tokens.filter(flag_test(true))
}

/// What a run of flags asks for: `Ok(true)` where `--ignore_case` is among
/// them, `Ok(false)` where there are none, and the first other flag as the
/// error where there is one.
pub open spec fn flag_intent(flags: Seq<Seq<char>>) -> Result<bool, Seq<char>>
    decreases flags.len(),
{
    if flags.len() == 0 {
        Ok(false)
    } else if flags[0] != recognized_flag() {
        Err(flags[0])
    } else {
        match flag_intent(flags.drop_first()) {
            Ok(_) => Ok(true),
            Err(token) => Err(token),
        }
    }
}

/// The boolean that a text spells, if it is `true` or `false` to the letter.
pub open spec fn bool_literal(text: Seq<char>) -> Option<bool> {
    if text == "true"@ {
        Some(true)
    } else if text == "false"@ {
        Some(false)
    } else {
        None
    }
}

/// The tokens after the program's name.
pub open spec fn tokens_after_name(args: Seq<Seq<char>>) -> Seq<Seq<char>> {
    if args.len() == 0 {
        args
    } else {
        args.subrange(1, args.len() as int)
    }
}

/// The configuration that `args` and the value of `IGNORE_CASE` resolve to,
/// or the failure.
pub open spec fn resolve(args: Seq<Seq<char>>, env_value: Option<Seq<char>>) -> Result<
    ConfigModel,
    Failure,
> {
    let tokens = tokens_after_name(args);
    let positional = positional_tokens(tokens);
    if positional.len() == 0 {
        Err(Failure::MissingQuery)
    } else if positional.len() == 1 {
        Err(Failure::MissingFilePath)
    } else {
        match flag_intent(flag_tokens(tokens)) {
            Err(token) => Err(Failure::UnrecognizedFlag(token)),
            Ok(intent) => match env_value {
                None => Ok(
                    ConfigModel { query: positional[0], file_path: positional[1], ignore_case: intent },
                ),
                Some(value) => match bool_literal(value) {
                    Some(choice) => Ok(
                        ConfigModel {
                            query: positional[0],
                            file_path: positional[1],
                            ignore_case: choice,
                        },
                    ),
                    None => Err(Failure::InvalidOverride(value)),
                },
            },
        }
    }
}

/// The texts of a sequence of strings, in order.
pub open spec fn texts(strings: Seq<String>) -> Seq<Seq<char>> {
    Seq::new(strings.len(), |i: int| strings[i]@)
}

/// The texts of a sequence of borrowed strings, in order.
pub open spec fn texts_of(strings: Seq<&String>) -> Seq<Seq<char>> {
    Seq::new(strings.len(), |i: int| strings[i]@)
}

/// Flags that are all `--ignore_case` ask for it, unless there are none.
pub proof fn lemma_flags_recognized(flags: Seq<Seq<char>>)
    requires
        forall|j: int| 0 <= j < flags.len() ==> flags[j] == recognized_flag(),
    ensures
        flag_intent(flags) == Ok::<bool, Seq<char>>(flags.len() > 0),
    decreases flags.len(),
{
    if flags.len() > 0 {
        lemma_flags_recognized(flags.drop_first());
    }
}

/// The first flag that is not `--ignore_case` is the one reported.
pub proof fn lemma_flag_unrecognized(flags: Seq<Seq<char>>, at: int)
    requires
        0 <= at < flags.len(),
        flags[at] != recognized_flag(),
        forall|j: int| 0 <= j < at ==> flags[j] == recognized_flag(),
    ensures
        flag_intent(flags) == Err::<bool, Seq<char>>(flags[at]),
    decreases flags.len(),
{
    if at > 0 {
        lemma_flag_unrecognized(flags.drop_first(), at - 1);
    }
}

/// Reads a boolean that is spelled `true` or `false`, to the letter.
pub fn parse_bool(text: &str) -> (value: Option<bool>)
    ensures
        value == bool_literal(text@),
{
    if same_text(text, "true") {
        Some(true)
    } else if same_text(text, "false") {
        Some(false)
    } else {
        None
    }
}

/// The description of a failure, as it is shown to the user.
pub open spec fn description(failure: Failure) -> Seq<char> {
    match failure {
        Failure::MissingQuery => "missing required argument: query"@,
        Failure::MissingFilePath => "missing required argument: file path"@,
        Failure::UnrecognizedFlag(token) => "unrecognized flag: "@ + token,
        Failure::InvalidOverride(value) => "invalid value of IGNORE_CASE, expected true or false: "@
            + value,
    }
}

impl ConfigError {
    /// The description of this failure; it names the missing argument, or
    /// holds the offending flag or value.
    pub fn message(&self) -> (text: String)
        ensures
            text@ == description(self@),
    {
        match self {
            ConfigError::MissingQuery => String::from_str("missing required argument: query"),
            ConfigError::MissingFilePath => String::from_str("missing required argument: file path"),
            ConfigError::UnrecognizedFlag(token) => String::from_str("unrecognized flag: ").concat(
                token.as_str(),
            ),
            ConfigError::InvalidOverride(value) => String::from_str(
                "invalid value of IGNORE_CASE, expected true or false: ",
            ).concat(value.as_str()),
        }
    }
}

/// The text of an optional string slice.
pub open spec fn text_of(value: Option<&str>) -> Option<Seq<char>> {
    match value {
        Some(text) => Some(text@),
        None => None,
    }
}

impl Config {
    /// Resolves the configuration of a run from its arguments, the program's
    /// name first, and from the value of `IGNORE_CASE`: `None` where the
    /// variable is not set.
    pub fn build(args: &[String], env_value: Option<&str>) -> (outcome: Result<Config, ConfigError>)
        ensures
            match resolve(texts(args@), text_of(env_value)) {
                Ok(model) => outcome is Ok && outcome->Ok_0@ == model,
                Err(failure) => outcome is Err && outcome->Err_0@ == failure,
            },
    {
        let tokens: &[String] = if args.len() == 0 {
            args
        } else {
            slice_subrange(args, 1, args.len())
        };
        proof {
            assert(texts(tokens@) =~= tokens_after_name(texts(args@)));
        }
        let (positional, flags) = Self::find_flags(tokens);
        if positional.len() == 0 {
            return Err(ConfigError::MissingQuery);
        }
        if positional.len() == 1 {
            return Err(ConfigError::MissingFilePath);
        }
        let ignore_case_flag = match Self::parse_flags(flags) {
            Ok(asked) => asked,
            Err(error) => {
                return Err(error);
            },
        };
        let ignore_case = match env_value {
            None => ignore_case_flag,
            Some(value) => match parse_bool(value) {
                Some(choice) => choice,
                None => {
                    return Err(ConfigError::InvalidOverride(value.to_owned()));
                },
            },
        };
        let query = positional[0].clone();
        let file_path = positional[1].clone();
        Ok(Config { query, file_path, ignore_case })
    }

    /// Parts the tokens of `args` into the positional ones and the flags,
    /// each in the order in which they stand in `args`.
    pub fn find_flags(args: &[String]) -> (parts: (Vec<&String>, Vec<&String>))
        ensures
            texts_of(parts.0@) == positional_tokens(texts(args@)),
            texts_of(parts.1@) == flag_tokens(texts(args@)),
    {
        let mut flags: Vec<&String> = Vec::new();
        let mut remaining_args: Vec<&String> = Vec::new();
        let ghost all = texts(args@);
        let n: usize = args.len();
        let mut i: usize = 0;
        proof {
            reveal(Seq::filter);
            assert(all.subrange(0, 0) =~= Seq::<Seq<char>>::empty());
            assert(texts_of(flags@) =~= flag_tokens(all.subrange(0, 0)));
            assert(texts_of(remaining_args@) =~= positional_tokens(all.subrange(0, 0)));
        }
        while i < n
            invariant
                i <= n,
                n == args@.len(),
                all == texts(args@),
                texts_of(remaining_args@) == positional_tokens(all.subrange(0, i as int)),
                texts_of(flags@) == flag_tokens(all.subrange(0, i as int)),
            decreases n - i,
        {
            let a: &String = &args[i];
            let ghost seen = all.subrange(0, i as int);
            let ghost next = all.subrange(0, i + 1);
            let ghost kept_args = texts_of(remaining_args@);
            let ghost kept_flags = texts_of(flags@);
            proof {
                reveal(Seq::filter);
                reveal_strlit("--");
                assert("--"@ =~= flag_marker());
                assert(next.drop_last() =~= seen);
                assert(next.last() == a@);
            }
            if starts_with(a.as_str(), "--") {
                flags.push(a);
                proof {
                    assert(texts_of(flags@) =~= kept_flags.push(a@));
                }
            } else {
                remaining_args.push(a);
                proof {
                    assert(texts_of(remaining_args@) =~= kept_args.push(a@));
                }
            }
            i += 1;
        }
        proof {
            assert(all.subrange(0, n as int) =~= all);
        }
        (remaining_args, flags)
    }

    /// Reads the flags in order: whether `--ignore_case` is asked for, or the
    /// first flag that is not recognized.
    pub fn parse_flags(flags: Vec<&String>) -> (intent: Result<bool, ConfigError>)
        ensures
            match flag_intent(texts_of(flags@)) {
                Ok(asked) => intent == Ok::<bool, ConfigError>(asked),
                Err(token) => intent is Err && intent->Err_0@ == Failure::UnrecognizedFlag(token),
            },
    {
        let mut ignore_case_flag = false;
        let ghost all = texts_of(flags@);
        let n: usize = flags.len();
        let mut i: usize = 0;
        while i < n
            invariant
                i <= n,
                n == flags@.len(),
                all == texts_of(flags@),
                ignore_case_flag == (i > 0),
                forall|j: int| 0 <= j < i ==> all[j] == recognized_flag(),
            decreases n - i,
        {
            let flag: &String = flags[i];
            if same_text(flag.as_str(), "--ignore_case") {
                ignore_case_flag = true;
            } else {
                proof {
                    lemma_flag_unrecognized(all, i as int);
                }
                return Err(ConfigError::UnrecognizedFlag(flag.clone()));
            }
            i += 1;
        }
        proof {
            lemma_flags_recognized(all);
        }
        Ok(ignore_case_flag)
    }
}

} // verus!
