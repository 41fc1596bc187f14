use redline::git::commit::{
    config_files_consulted, git_message, identity_env_state, identity_vars, join_strings,
    no_author_detail, parse_ident, Ident,
};
use redline::git::error::GitError;

#[test]
fn parse_ident_reads_name_email_time_and_offset_minutes() {
    let id = parse_ident("Test User <test@example.com> 1700000000 -0400\n", "GIT_AUTHOR_IDENT").unwrap();
    assert_eq!(
        id,
        Ident {
            name: "Test User ".into(),
            email: "test@example.com".into(),
            time: 1_700_000_000,
            offset_minutes: -240,
        }
    );
    let id = parse_ident("A <a@b> 5 +0530", "X").unwrap();
    assert_eq!(id.offset_minutes, 330, "hh*60 + mm, not hhmm");
    assert_eq!(id.time, 5);
}

#[test]
fn parse_ident_errors_name_the_line() {
    assert_eq!(
        parse_ident("no brackets here\n", "GIT_AUTHOR_IDENT"),
        Err(GitError::IdentityUnparseable(
            "`git var GIT_AUTHOR_IDENT` output: no brackets here".into()
        ))
    );
    // A bad timestamp names the trimmed line only.
    assert_eq!(
        parse_ident("A <a@b> soon +0000", "V"),
        Err(GitError::IdentityUnparseable("A <a@b> soon +0000".into()))
    );
    for bad in ["A <a@b> 5 0000", "A <a@b> 5 +00", "A <a@b> 5 +0a00", "A <a@b> 5", "A <a@b 5 +0000"] {
        assert_eq!(
            parse_ident(bad, "V"),
            Err(GitError::IdentityUnparseable(format!("`git var V` output: {bad}"))),
            "{bad}"
        );
    }
}

#[test]
fn config_files_follow_git_precedence() {
    let s = |v: &str| Some(v.to_string());
    assert_eq!(
        config_files_consulted("/r/.git/config".into(), None, None, s("/home/u"), None, None),
        vec!["/r/.git/config", "/home/u/.config/git/config", "/home/u/.gitconfig", "/etc/gitconfig"]
    );
    assert_eq!(
        config_files_consulted("/r/.git/config".into(), s("/g"), s("/x"), s("/h"), s("1"), s("/s")),
        vec!["/r/.git/config", "/g"]
    );
    assert_eq!(
        config_files_consulted("/r/.git/config".into(), None, s("/x"), None, s(""), s("/s")),
        vec!["/r/.git/config", "/x/git/config", "/s"]
    );
    assert_eq!(
        config_files_consulted("/l".into(), None, None, None, s("false"), None),
        vec!["/l", "/etc/gitconfig"]
    );
}

#[test]
fn identity_env_report() {
    assert_eq!(identity_vars().len(), 5);
    assert_eq!(
        identity_env_state(&[]),
        "None of GIT_AUTHOR_NAME, GIT_AUTHOR_EMAIL, GIT_COMMITTER_NAME, GIT_COMMITTER_EMAIL, EMAIL is set in this process's environment."
    );
    assert_eq!(
        identity_env_state(&["GIT_AUTHOR_NAME".to_string(), "EMAIL".to_string()]),
        "Set identity env vars: GIT_AUTHOR_NAME, EMAIL."
    );
    assert_eq!(join_strings(&["a".to_string()], ", "), "a");
}

#[test]
fn git_message_is_the_first_fatal_line() {
    assert_eq!(git_message("warning: x\nfatal: no email  \r\nfatal: other\n"), "fatal: no email");
    assert_eq!(git_message("nothing useful\n"), "git var failed");
    assert_eq!(git_message(""), "git var failed");
}

#[test]
fn no_author_detail_names_the_refusal_or_the_miss() {
    let files = vec!["/r/.git/config".to_string(), "/h/.gitconfig".to_string()];
    let d = no_author_detail("author", "fatal: empty ident\n", true, &files, "ENV");
    assert_eq!(
        d,
        "user.useConfigOnly is set, so git refuses to fall back to an invented identity. Set user.name and user.email in one of: /r/.git/config, /h/.gitconfig (or unset user.useConfigOnly). git said: fatal: empty ident"
    );
    let d = no_author_detail("committer", "", false, &files, "ENV");
    assert_eq!(
        d,
        "git could not resolve the committer identity in this environment: no user.name/user.email in the config chain and no usable fallback. git said: git var failed. Config files consulted (local \u{2192} global \u{2192} system): /r/.git/config, /h/.gitconfig. ENV"
    );
}
