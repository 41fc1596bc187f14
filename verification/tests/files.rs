use redline::model::files::{
    chain_verdict, ignore_file_dirs, ignore_precheck, is_gitignored, rel_decision, under_graft, FileList, MatchKind,
};
use redline::model::path::{
    ancestors_up_to, file_name, join, path_components, same_path, strip_prefix,
};

#[test]
fn file_list_sorts_paths() {
    let list = FileList::from_paths(vec![
        "src/main.rs".to_string(),
        "Cargo.toml".to_string(),
        "src/lib.rs".to_string(),
        "README.md".to_string(),
    ]);
    assert_eq!(list.files, vec!["Cargo.toml", "README.md", "src/lib.rs", "src/main.rs"]);
    assert_eq!(list.len(), 4);
}

#[test]
fn graft_directories_are_pruned_files_named_graft_are_not() {
    assert!(under_graft("/p", "/p/graft", true));
    assert!(under_graft("/p", "/p/graft/card.md", false));
    assert!(under_graft("/p", "/p/a/graft/b", true));
    assert!(!under_graft("/p", "/p/graft", false), "a file named graft");
    assert!(!under_graft("/p", "/p/src/main.rs", false));
    assert!(!under_graft("/p", "/elsewhere/graft/x", false), "outside the root");
}

#[test]
fn precheck_root_outside_and_hidden() {
    assert_eq!(ignore_precheck("/p", "/p"), Some(false), "the root itself");
    assert_eq!(ignore_precheck("/p", "/q/a"), Some(false), "outside");
    assert_eq!(ignore_precheck("/p", "/p/.git/config"), Some(true));
    assert_eq!(ignore_precheck("/p", "/p/src/.hidden.rs"), Some(true));
    assert_eq!(ignore_precheck("/p", "/p/src/main.rs"), None);
}

#[test]
fn rel_decision_takes_the_first_answer() {
    assert_eq!(rel_decision(&[MatchKind::NoMatch, MatchKind::Ignore, MatchKind::Whitelist]), Some(true));
    assert_eq!(rel_decision(&[MatchKind::NoMatch, MatchKind::Whitelist, MatchKind::Ignore]), Some(false));
    assert_eq!(rel_decision(&[MatchKind::NoMatch, MatchKind::NoMatch]), None);
    assert_eq!(rel_decision(&[]), None);
}

#[test]
fn chain_precedence() {
    // A `.ignore` match outranks the `.gitignore` chain.
    assert!(!chain_verdict(&[MatchKind::Whitelist], &[MatchKind::Ignore], None));
    assert!(chain_verdict(&[MatchKind::Ignore, MatchKind::Whitelist], &[MatchKind::Whitelist], None));
    // An explicit chain match outranks the repo sources.
    assert!(!chain_verdict(&[MatchKind::NoMatch], &[MatchKind::Whitelist], Some((Some(true), Some(true)))));
    assert!(chain_verdict(&[MatchKind::NoMatch], &[MatchKind::Ignore], Some((Some(false), None))));
    // `.git/info/exclude` outranks the global excludes.
    assert!(!chain_verdict(&[], &[], Some((Some(false), Some(true)))));
    assert!(chain_verdict(&[], &[], Some((None, Some(true)))));
    assert!(!chain_verdict(&[], &[], Some((None, None))));
    assert!(!chain_verdict(&[], &[], None));
    assert!(is_gitignored("/p", "/p/a.log", &[], &[MatchKind::Ignore], None));
    assert!(!is_gitignored("/p", "/p", &[], &[MatchKind::Ignore], None));
    assert!(is_gitignored("/p", "/p/.env", &[], &[], None));
}

#[test]
fn path_components_and_names() {
    let comps = |s: &str| -> Vec<String> {
        path_components(s).into_iter().map(|c| c.into_iter().collect()).collect()
    };
    assert_eq!(comps("/a//b/./c/"), vec!["/", "a", "b", "c"]);
    assert_eq!(comps("./a/.."), vec![".", "a", ".."]);
    assert_eq!(comps(""), Vec::<String>::new());
    assert_eq!(file_name("/a/b.txt"), Some("b.txt".into()));
    assert_eq!(file_name("/a/b.txt/."), Some("b.txt".into()));
    assert_eq!(file_name("/a/.."), None);
    assert_eq!(file_name("/"), None);
    assert!(same_path("/a/b/", "/a//b"));
    assert!(!same_path("a/b", "/a/b"));
    let rest: Vec<String> = strip_prefix("/p/src/x.rs", "/p/")
        .unwrap()
        .into_iter()
        .map(|c| c.into_iter().collect())
        .collect();
    assert_eq!(rest, vec!["src", "x.rs"]);
    assert!(strip_prefix("/p2/x", "/p").is_none());
    assert_eq!(join("/base", "f.json"), "/base/f.json");
    assert_eq!(join("/base/", "f.json"), "/base/f.json");
    assert_eq!(join("", "f.json"), "f.json");
    assert_eq!(join("/base", "/abs"), "/abs");
}

#[test]
fn ancestors_walk_parents_up_to_the_stop() {
    assert_eq!(ancestors_up_to("a/b/c", None), vec!["a/b/c", "a/b", "a", ""]);
    assert_eq!(ancestors_up_to("/r/a", None), vec!["/r/a", "/r", "/"]);
    assert_eq!(ancestors_up_to("/r/a/b", Some("/r")), vec!["/r/a/b", "/r/a", "/r"]);
    // The stop is matched component-wise.
    assert_eq!(ancestors_up_to("/r/a", Some("/r/")), vec!["/r/a", "/r"]);
}

#[test]
fn ignore_file_dirs_run_from_the_entry_to_the_root() {
    assert_eq!(ignore_file_dirs("/r", "/r/a/b.txt", false), vec!["/r/a", "/r"]);
    assert_eq!(ignore_file_dirs("/r", "/r/a", true), vec!["/r/a", "/r"]);
    assert_eq!(ignore_file_dirs("/r", "/r/b.txt", false), vec!["/r"]);
    assert!(ignore_file_dirs("/r", "/x/b.txt", false).is_empty());
}
