use redline::model::buffer::{is_word_char, BufferMode, UndoStack, UndoStep};

fn step(id: usize) -> UndoStep {
    UndoStep { id, range: id..id + 1, removed: format!("r{id}"), inserted: format!("i{id}") }
}

#[test]
fn word_chars_are_unicode_alphanumerics_and_underscore() {
    for c in ['a', 'Z', '0', '_', 'é', '漢', '٣'] {
        assert!(is_word_char(c), "{c}");
    }
    for c in [' ', '-', '?', '!', '\n', '('] {
        assert!(!is_word_char(c), "{c:?}");
    }
}

#[test]
fn buffer_mode_defaults_to_annotation() {
    assert_eq!(BufferMode::default(), BufferMode::Annotation);
}

#[test]
fn undo_push_pop_is_lifo_with_positions() {
    let mut u = UndoStack::new();
    assert!(u.is_empty());
    assert_eq!(u.position_id(), 0);
    u.push(step(1));
    u.push(step(2));
    assert_eq!(u.len(), 2);
    assert_eq!(u.position_id(), 2);
    assert_eq!(u.last(), Some(&step(2)));
    assert_eq!(u.pop(), Some(step(2)));
    assert_eq!(u.position_id(), 1);
    assert_eq!(u.pop(), Some(step(1)));
    assert_eq!(u.pop(), None);
    assert_eq!(u.last(), None);
}

#[test]
fn undo_cap_drops_the_oldest() {
    let mut u = UndoStack::default();
    for id in 1..=105 {
        u.push(step(id));
    }
    assert_eq!(u.len(), UndoStack::MAX_ENTRIES);
    assert_eq!(u.position_id(), 105);
    let mut last = 0;
    while let Some(s) = u.pop() {
        last = s.id;
    }
    assert_eq!(last, 6, "undo stops at the oldest kept step");
}

#[test]
fn undo_step_clone_is_equal() {
    assert_eq!(step(3).clone(), step(3));
}
