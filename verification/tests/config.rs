use minigrep::config::parse_bool;
use minigrep::{run, Config, ConfigError};

fn args(tokens: &[&str]) -> Vec<String> {
    tokens.iter().map(|token| token.to_string()).collect()
}

#[test]
fn without_flag_or_variable_case_is_respected() {
    let config = Config::build(&args(&["prog", "dolor", "poem.txt"]), None).unwrap();
    assert_eq!(config.query, "dolor");
    assert_eq!(config.file_path, "poem.txt");
    assert!(!config.ignore_case);
}

#[test]
fn the_flag_asks_to_ignore_case() {
    let config =
        Config::build(&args(&["prog", "dolor", "poem.txt", "--ignore_case"]), None).unwrap();
    assert_eq!(config.query, "dolor");
    assert_eq!(config.file_path, "poem.txt");
    assert!(config.ignore_case);
}

#[test]
fn the_variable_wins_over_the_flag() {
    let with_flag = args(&["prog", "dolor", "poem.txt", "--ignore_case"]);
    let config = Config::build(&with_flag, Some("false")).unwrap();
    assert!(!config.ignore_case);
    let config = Config::build(&with_flag, Some("true")).unwrap();
    assert!(config.ignore_case);
    let without_flag = args(&["prog", "dolor", "poem.txt"]);
    let config = Config::build(&without_flag, Some("true")).unwrap();
    assert!(config.ignore_case);
    let config = Config::build(&without_flag, Some("false")).unwrap();
    assert!(!config.ignore_case);
}

#[test]
fn a_variable_that_is_no_boolean_is_an_error() {
    let plain = args(&["prog", "dolor", "poem.txt"]);
    assert_eq!(
        Config::build(&plain, Some("notabool")),
        Err(ConfigError::InvalidOverride("notabool".to_string()))
    );
    let with_flag = args(&["prog", "dolor", "poem.txt", "--ignore_case"]);
    assert_eq!(
        Config::build(&with_flag, Some("notabool")),
        Err(ConfigError::InvalidOverride("notabool".to_string()))
    );
    for value in ["", "TRUE", "True", "1", "0", "yes", " true", "false "] {
        assert_eq!(
            Config::build(&plain, Some(value)),
            Err(ConfigError::InvalidOverride(value.to_string()))
        );
    }
}

#[test]
fn missing_arguments_are_named() {
    assert_eq!(Config::build(&args(&[]), None), Err(ConfigError::MissingQuery));
    assert_eq!(Config::build(&args(&["prog"]), None), Err(ConfigError::MissingQuery));
    assert_eq!(Config::build(&args(&["prog", "--ignore_case"]), None), Err(ConfigError::MissingQuery));
    assert_eq!(Config::build(&args(&["prog", "dolor"]), None), Err(ConfigError::MissingFilePath));
    assert_eq!(
        Config::build(&args(&["prog", "dolor", "--ignore_case"]), None),
        Err(ConfigError::MissingFilePath)
    );
}

#[test]
fn an_unknown_flag_is_an_error_that_holds_the_flag() {
    assert_eq!(
        Config::build(&args(&["prog", "dolor", "poem.txt", "--verbose"]), None),
        Err(ConfigError::UnrecognizedFlag("--verbose".to_string()))
    );
    assert_eq!(
        Config::build(&args(&["prog", "--ignore_case", "--a", "dolor", "--b", "poem.txt"]), None),
        Err(ConfigError::UnrecognizedFlag("--a".to_string()))
    );
    assert_eq!(
        Config::build(&args(&["prog", "dolor", "poem.txt", "--"]), None),
        Err(ConfigError::UnrecognizedFlag("--".to_string()))
    );
    assert_eq!(
        Config::build(&args(&["prog", "dolor", "poem.txt", "--IGNORE_CASE"]), None),
        Err(ConfigError::UnrecognizedFlag("--IGNORE_CASE".to_string()))
    );
}

#[test]
fn failures_come_in_a_fixed_order() {
    assert_eq!(
        Config::build(&args(&["prog", "dolor", "--verbose"]), Some("notabool")),
        Err(ConfigError::MissingFilePath)
    );
    assert_eq!(
        Config::build(&args(&["prog", "dolor", "poem.txt", "--verbose"]), Some("notabool")),
        Err(ConfigError::UnrecognizedFlag("--verbose".to_string()))
    );
}

#[test]
fn flags_may_stand_anywhere_after_the_program_name() {
    let config =
        Config::build(&args(&["prog", "--ignore_case", "dolor", "poem.txt"]), None).unwrap();
    assert_eq!(config.query, "dolor");
    assert_eq!(config.file_path, "poem.txt");
    assert!(config.ignore_case);
    let config = Config::build(
        &args(&["prog", "dolor", "--ignore_case", "poem.txt", "--ignore_case"]),
        None,
    )
    .unwrap();
    assert_eq!(config.query, "dolor");
    assert_eq!(config.file_path, "poem.txt");
    assert!(config.ignore_case);
}

#[test]
fn the_program_name_is_no_token() {
    let config = Config::build(&args(&["--prog", "dolor", "poem.txt"]), None).unwrap();
    assert_eq!(config.query, "dolor");
    assert_eq!(config.file_path, "poem.txt");
    assert!(!config.ignore_case);
}

#[test]
fn further_positional_arguments_are_ignored() {
    let config = Config::build(&args(&["prog", "dolor", "poem.txt", "more", "-x"]), None).unwrap();
    assert_eq!(
        config,
        Config { query: "dolor".to_string(), file_path: "poem.txt".to_string(), ignore_case: false }
    );
}

#[test]
fn a_single_dash_marks_no_flag() {
    let config = Config::build(&args(&["prog", "-q", "-"]), None).unwrap();
    assert_eq!(config.query, "-q");
    assert_eq!(config.file_path, "-");
}

#[test]
fn tokens_are_parted_in_order() {
    let tokens = args(&["a", "--x", "b", "--", "-c", "--ignore_case", ""]);
    let (positional, flags) = Config::find_flags(&tokens);
    assert_eq!(positional, vec!["a", "b", "-c", ""]);
    assert_eq!(flags, vec!["--x", "--", "--ignore_case"]);
    let (positional, flags) = Config::find_flags(&[]);
    assert!(positional.is_empty());
    assert!(flags.is_empty());
}

#[test]
fn flags_are_read_in_order() {
    let ignore = "--ignore_case".to_string();
    let other = "--other".to_string();
    let third = "--third".to_string();
    assert_eq!(Config::parse_flags(vec![]), Ok(false));
    assert_eq!(Config::parse_flags(vec![&ignore]), Ok(true));
    assert_eq!(Config::parse_flags(vec![&ignore, &ignore]), Ok(true));
    assert_eq!(
        Config::parse_flags(vec![&ignore, &other, &third]),
        Err(ConfigError::UnrecognizedFlag("--other".to_string()))
    );
    assert_eq!(
        Config::parse_flags(vec![&third, &ignore]),
        Err(ConfigError::UnrecognizedFlag("--third".to_string()))
    );
}

#[test]
fn booleans_are_read_to_the_letter() {
    assert_eq!(parse_bool("true"), Some(true));
    assert_eq!(parse_bool("false"), Some(false));
    assert_eq!(parse_bool("True"), None);
    assert_eq!(parse_bool(""), None);
    assert_eq!(parse_bool("truefalse"), None);
    assert_eq!(parse_bool("notabool"), None);
}

#[test]
fn failures_describe_themselves() {
    assert_eq!(ConfigError::MissingQuery.message(), "missing required argument: query");
    assert_eq!(ConfigError::MissingFilePath.message(), "missing required argument: file path");
    assert_eq!(
        ConfigError::UnrecognizedFlag("--verbose".to_string()).message(),
        "unrecognized flag: --verbose"
    );
    assert_eq!(
        ConfigError::InvalidOverride("notabool".to_string()).message(),
        "invalid value of IGNORE_CASE, expected true or false: notabool"
    );
}

#[test]
fn a_run_searches_as_configured() {
    let text = "Rust:\nsafe, fast, productive.\nPick three.\nTrust me.";
    let exact = Config::build(&args(&["prog", "rust", "poem.txt"]), None).unwrap();
    assert_eq!(run(&exact, text), vec!["Trust me."]);
    let folded =
        Config::build(&args(&["prog", "rUsT", "poem.txt", "--ignore_case"]), None).unwrap();
    assert_eq!(run(&folded, text), vec!["Rust:", "Trust me."]);
    let overridden =
        Config::build(&args(&["prog", "rUsT", "poem.txt", "--ignore_case"]), Some("false"))
            .unwrap();
    assert!(run(&overridden, text).is_empty());
}
