use redline::profile::{csv_field, csv_path, top_order, Anon};

fn ext(rel: &str) -> Option<String> {
    let name = rel.rsplit('/').next().unwrap_or(rel);
    match name.rfind('.') {
        Some(i) if i > 0 => Some(name[i + 1..].to_string()),
        _ => None,
    }
}

#[test]
fn anon_preserves_structure_and_is_stable() {
    let mut a = Anon::new();
    let l1 = a.label("src/main.rs", ext("src/main.rs"));
    let l2 = a.label("src/nav/index/builder.rs", ext("src/nav/index/builder.rs"));
    let l3 = a.label("src/main.rs", ext("src/main.rs"));
    assert_eq!(l1, "t01/d2/f0001.rs");
    assert_eq!(l2, "t01/d4/f0002.rs");
    assert_eq!(l3, l1, "re-asking must return the cached id");
    assert_eq!(
        a.label("crates/redline-syntax/src/queries.rs", ext("crates/redline-syntax/src/queries.rs")),
        "t02/d4/f0003.rs"
    );
    assert_eq!(a.label("Makefile", ext("Makefile")), "t03/d1/f0004");
}

#[test]
fn anon_never_echoes_the_input() {
    let mut a = Anon::new();
    let label = a.label("secret-project/src/top-secret.rs", ext("secret-project/src/top-secret.rs"));
    assert!(!label.contains("secret"), "leak: {label}");
}

#[test]
fn anon_ids_pad_and_grow() {
    let mut a = Anon::new();
    for i in 0..120 {
        let rel = format!("dir{}/f.rs", i % 3);
        a.label(&rel, None);
        let rel = format!("x/file{i}");
        let l = a.label(&rel, None);
        if i == 119 {
            assert_eq!(l, "t02/d2/f0123");
        }
    }
    assert_eq!(a.label("//a//b//", None), "t05/d2/f0124");
}

#[test]
fn csv_field_quoting() {
    assert_eq!(csv_field("a/b.rs"), "a/b.rs");
    assert_eq!(csv_field("a,b.rs"), "\"a,b.rs\"");
    assert_eq!(csv_field("a\"b.rs"), "\"a\"\"b.rs\"");
    assert_eq!(csv_field("a\nb"), "\"a\nb\"");
}

#[test]
fn csv_path_repeat_suffix() {
    assert_eq!(csv_path(&Some("/tmp/i.csv".to_string()), 1, 1), Some("/tmp/i.csv".to_string()));
    assert_eq!(csv_path(&Some("/tmp/i.csv".to_string()), 2, 3), Some("/tmp/i-run2.csv".to_string()));
    assert_eq!(csv_path(&Some("/tmp/out".to_string()), 2, 3), Some("/tmp/out-run2".to_string()));
    assert_eq!(csv_path(&None, 1, 1), None);
    assert_eq!(csv_path(&Some("/tmp/.hidden".to_string()), 3, 3), Some("/tmp/.hidden-run3".to_string()));
}

#[test]
fn top_order_largest_first_ties_by_position() {
    assert_eq!(top_order(&[5, 9, 5, 1, 9], 3), vec![1, 4, 0]);
    assert_eq!(top_order(&[5, 9, 5, 1, 9], 10), vec![1, 4, 0, 2, 3]);
    assert_eq!(top_order(&[], 3), Vec::<usize>::new());
    assert_eq!(top_order(&[7, 7], 0), Vec::<usize>::new());
}
