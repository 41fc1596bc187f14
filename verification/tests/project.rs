use redline::model::project::{detect_root, markers, Project, ProjectStore, Recents, Registry};

#[test]
fn project_name_is_root_file_name() {
    let p = Project::new("/home/u/red".to_string());
    assert_eq!(p.name, "red");
    let p = Project::new("/".to_string());
    assert_eq!(p.name, "/");
}

#[test]
fn project_name_follows_path_components() {
    assert_eq!(Project::new("/a/proj/".to_string()).name, "proj");
    assert_eq!(Project::new("/a/proj/.".to_string()).name, "proj");
    assert_eq!(Project::new("/a/..".to_string()).name, "/a/..");
    assert_eq!(Project::new("rel".to_string()).name, "rel");
}

#[test]
fn registry_upsert_dedupes_and_moves_to_front() {
    let mut reg = Registry::default();
    reg.upsert("/a/proj1");
    reg.upsert("/a/proj2");
    let p = reg.upsert("/a/proj1"); // re-upsert: dedupe + move to front
    assert_eq!(p.name, "proj1");
    let names: Vec<_> = reg.list().iter().map(|p| p.name.as_str()).collect();
    assert_eq!(names, vec!["proj1", "proj2"]);
    assert_eq!(reg.len(), 2);
    // Component-wise equal roots are the same project.
    reg.upsert("/a/proj2/");
    let roots: Vec<_> = reg.list().iter().map(|p| p.root.as_str()).collect();
    assert_eq!(roots, vec!["/a/proj2/", "/a/proj1"]);
}

#[test]
fn recents_mru_cap_and_dedupe() {
    let mut r = Recents::default();
    r.add("/root", "b.rs");
    r.add("/root", "a.rs");
    r.add("/root", "b.rs"); // dedupe: moves to front
    assert_eq!(r.list("/root"), vec!["b.rs", "a.rs"]);
    assert!(r.list("/other").is_empty());

    for i in 0..150 {
        r.add("/root", &format!("f{i:03}.rs"));
    }
    assert_eq!(r.list("/root").len(), 100, "cap must hold");
    assert_eq!(r.list("/root")[0], "f149.rs", "most recent first");
}

#[test]
fn recents_keep_roots_sorted_and_separate() {
    let mut r = Recents::default();
    r.add("/z", "1");
    r.add("/a", "2");
    r.add("/m", "3");
    r.add("/a", "4");
    let roots: Vec<&str> = r.entries().iter().map(|(k, _)| k.as_str()).collect();
    assert_eq!(roots, vec!["/a", "/m", "/z"]);
    assert_eq!(r.list("/a"), vec!["4", "2"]);
    assert_eq!(r.list("/z"), vec!["1"]);
}

#[test]
fn project_store_paths() {
    let store = ProjectStore::open("/cache/redline".into(), Registry::default(), Recents::default());
    assert_eq!(store.registry_path(), "/cache/redline/projects.json");
    assert_eq!(store.recents_path(), "/cache/redline/recents.json");
    let store = ProjectStore::open("/cache/".into(), Registry::default(), Recents::default());
    assert_eq!(store.registry_path(), "/cache/projects.json");
}

#[test]
fn git_root_wins_then_nearest_marker() {
    // Ancestors innermost first: [deep, inner, outer].
    assert_eq!(detect_root(&[false, true, false], &[false, false, true]), Some(1));
    assert_eq!(detect_root(&[false, false, false], &[false, true, true]), Some(1));
    assert_eq!(detect_root(&[false, false], &[false, false]), None);
    assert_eq!(
        markers(),
        vec!["Cargo.toml", "package.json", "pyproject.toml", "go.mod", ".projectile"]
    );
}

#[test]
fn recents_from_entries_later_root_wins() {
    let r = Recents::from_entries(vec![
        ("/b".to_string(), vec!["x.rs".to_string()]),
        ("/a".to_string(), vec!["y.rs".to_string(), "z.rs".to_string()]),
        ("/b".to_string(), vec!["w.rs".to_string()]),
    ]);
    assert_eq!(r.list("/a"), vec!["y.rs".to_string(), "z.rs".to_string()]);
    assert_eq!(r.list("/b"), vec!["w.rs".to_string()]);
    assert!(r.list("/c").is_empty());
    let roots: Vec<&str> = r.entries().iter().map(|e| e.0.as_str()).collect();
    assert_eq!(roots, vec!["/a", "/b"]);
}

#[test]
fn recents_round_trip_through_entries() {
    let mut r = Recents::default();
    r.add("/p", "a.rs");
    r.add("/p", "b.rs");
    r.add("/q", "c.rs");
    let again = Recents::from_entries(r.entries().to_vec());
    assert_eq!(again, r);
    let mut more = again.clone();
    more.add("/p", "a.rs");
    assert_eq!(more.list("/p"), vec!["a.rs".to_string(), "b.rs".to_string()]);
}
