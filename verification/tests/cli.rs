//! The command line.

use netflector::cli::{help, parse, Invocation};
use netflector::error::UsageError;

fn args(list: &[&str]) -> Vec<String> {
    list.iter().map(|arg| (*arg).to_owned()).collect()
}

/// `path` is the position of the argument that names the file.
fn run(path: Option<usize>) -> Invocation {
    Invocation::Run {
        path,
        join_groups: true,
    }
}

#[test]
fn no_args_runs_from_the_environment() {
    assert_eq!(parse(&Vec::new()).unwrap(), run(None));
}

#[test]
fn no_join_clears_the_group_joins() {
    let a = args(&["--no-join", "netflector.toml"]);
    assert_eq!(
        parse(&a).unwrap(),
        Invocation::Run {
            path: Some(1),
            join_groups: false,
        }
    );
}

#[test]
fn a_lone_positional_is_the_config_path() {
    let a = args(&["netflector.toml"]);
    assert_eq!(parse(&a).unwrap(), run(Some(0)));
}

#[test]
fn check_config_takes_the_same_optional_path() {
    let a = args(&["--check-config"]);
    assert_eq!(parse(&a).unwrap(), Invocation::CheckConfig(None));
    let b = args(&["--check-config", "netflector.toml"]);
    assert_eq!(
        parse(&b).unwrap(),
        Invocation::CheckConfig(Some(1))
    );
    // The flag may follow the path as readily as precede it.
    let c = args(&["netflector.toml", "--check-config"]);
    assert_eq!(
        parse(&c).unwrap(),
        Invocation::CheckConfig(Some(0))
    );
}

#[test]
fn help_and_version_win_over_the_rest_of_the_line() {
    for flag in ["-h", "--help"] {
        let a = args(&[flag, "netflector.toml", "--nonsense"]);
        assert_eq!(parse(&a).unwrap(), Invocation::Help);
    }
    for flag in ["-V", "--version"] {
        let a = args(&[flag, "--nonsense"]);
        assert_eq!(parse(&a).unwrap(), Invocation::Version);
    }
}

#[test]
fn a_second_positional_is_rejected_not_ignored() {
    let a = args(&["netflector.toml", "extra"]);
    assert!(matches!(parse(&a), Err(UsageError::TooManyArgs(arg)) if arg == "extra"));
}

#[test]
fn an_unknown_option_is_rejected() {
    let a = args(&["--check-cfg"]);
    assert!(matches!(parse(&a), Err(UsageError::UnknownOption(opt)) if opt == "--check-cfg"));
}

#[test]
fn a_lone_dash_is_a_path_not_an_option() {
    let a = args(&["-"]);
    assert_eq!(parse(&a).unwrap(), run(Some(0)));
}

#[test]
fn dash_dash_reaches_a_config_whose_name_looks_like_an_option() {
    // Without the separator these paths are unreachable: every leading-dash argument would be
    // read as an option, a known one or an error.
    let a = args(&["--", "--check-config"]);
    assert_eq!(parse(&a).unwrap(), run(Some(1)));
    let b = args(&["--", "--nonsense"]);
    assert_eq!(parse(&b).unwrap(), run(Some(1)));
}

#[test]
fn dash_dash_ends_option_parsing_for_good() {
    // The flag before the separator still applies; the one after it is just a file name.
    let a = args(&["--check-config", "--", "--help"]);
    assert_eq!(
        parse(&a).unwrap(),
        Invocation::CheckConfig(Some(2))
    );
    // A second positional after the separator is still a second positional.
    let b = args(&["--", "one", "two"]);
    assert!(matches!(parse(&b), Err(UsageError::TooManyArgs(arg)) if arg == "two"));
}

#[test]
fn help_names_every_flag_it_accepts() {
    // The help is the only place the flags are documented, so a flag the parser takes but the
    // help omits is a bug the user pays for.
    for flag in [
        "--check-config",
        "--no-join",
        "--version",
        "-V",
        "--help",
        "-h",
    ] {
        assert!(help("1.2.3").contains(flag), "help does not mention {flag}");
    }
    // The separator needs its own check: a bare "--" is a substring of every long flag, so
    // asserting that it holds "--" would pass even if "--" went undocumented. Pin the usage
    // line instead, which is where it has to appear to be of any use.
    assert!(help("1.2.3").contains("[--]"), "help does not show the -- separator");
}

#[test]
fn the_help_starts_with_the_name_and_the_version() {
    assert!(help("1.2.3").starts_with("netflector 1.2.3"));
}

#[test]
fn usage_errors_name_the_argument() {
    let unknown = parse(&args(&["--bogus"])).unwrap_err();
    assert!(unknown.to_text().contains("--bogus"));
    let extra = parse(&args(&["one", "two"])).unwrap_err();
    assert!(extra.to_text().contains("two"));
}
