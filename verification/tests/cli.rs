use redline::cli::{parse_cli, CliArgs};

fn strs(v: &[&str]) -> Vec<String> {
    v.iter().map(|s| s.to_string()).collect()
}

#[test]
fn no_args_default_to_the_tui() {
    let cli = parse_cli(strs(&[])).unwrap();
    assert!(!cli.notes_plain);
    assert!(cli.index_profile.is_none());
    assert_eq!(cli.profile_top, CliArgs::DEFAULT_TOP);
    assert_eq!(cli.profile_repeat, 1);
    assert!(cli.profile_out.is_none());
    assert!(!cli.profile_real_paths);
}

#[test]
fn notes_plain_still_accepted() {
    let cli = parse_cli(strs(&["--notes=plain"])).unwrap();
    assert!(cli.notes_plain);
    assert!(cli.index_profile.is_none());
}

#[test]
fn index_profile_flag_and_path() {
    assert_eq!(
        parse_cli(strs(&["--index-profile"])).unwrap().index_profile,
        Some(".".to_string())
    );
    assert_eq!(
        parse_cli(strs(&["--index-profile=./big-project"]))
            .unwrap()
            .index_profile,
        Some("./big-project".to_string())
    );
    assert!(parse_cli(strs(&["--index-profile="])).is_err());
}

#[test]
fn profile_options_parse() {
    let cli = parse_cli(strs(&[
        "--index-profile",
        "--profile-top=10",
        "--profile-out=/tmp/index.csv",
        "--profile-repeat=3",
        "--profile-real-paths",
    ]))
    .unwrap();
    assert_eq!(cli.profile_top, 10);
    assert_eq!(cli.profile_repeat, 3);
    assert_eq!(cli.profile_out.as_deref(), Some("/tmp/index.csv"));
    assert!(cli.profile_real_paths);
}

#[test]
fn profile_options_validate_values() {
    assert!(parse_cli(strs(&["--profile-top=0"])).is_err());
    assert!(parse_cli(strs(&["--profile-top=abc"])).is_err());
    assert!(parse_cli(strs(&["--profile-repeat=0"])).is_err());
    assert!(parse_cli(strs(&["--profile-out="])).is_err());
    // Valid: top=1 is allowed (just one row).
    assert_eq!(parse_cli(strs(&["--profile-top=1"])).unwrap().profile_top, 1);
}

#[test]
fn genuinely_unknown_args_still_hard_error() {
    let err = parse_cli(strs(&["--bogus"])).unwrap_err();
    assert!(err.contains("--bogus"), "error names the arg: {err}");
    let err = parse_cli(strs(&["--notes=plain", "--nope"])).unwrap_err();
    assert!(err.contains("--nope"), "error names the arg: {err}");
}

#[test]
fn cli_error_messages_are_exact() {
    assert_eq!(parse_cli(strs(&["--bogus"])).unwrap_err(), "unknown argument: --bogus");
    assert_eq!(
        parse_cli(strs(&["--profile-top=abc"])).unwrap_err(),
        "--profile-top expects a positive integer, got `abc`"
    );
    assert_eq!(
        parse_cli(strs(&["--profile-repeat=0"])).unwrap_err(),
        "--profile-repeat expects a positive integer, got `0`"
    );
    assert_eq!(
        parse_cli(strs(&["--index-profile="])).unwrap_err(),
        "--index-profile= requires a path"
    );
    assert_eq!(
        parse_cli(strs(&["--profile-out="])).unwrap_err(),
        "--profile-out= requires a path"
    );
    // The first bad argument decides, and a `+` sign is accepted.
    assert_eq!(
        parse_cli(strs(&["--x", "--profile-top=0"])).unwrap_err(),
        "unknown argument: --x"
    );
    assert_eq!(parse_cli(strs(&["--profile-top=+7"])).unwrap().profile_top, 7);
    assert!(parse_cli(strs(&["--profile-top=99999999999999999999999"])).is_err());
}
