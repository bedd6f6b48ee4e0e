use type_rs::text_editor::{Range, TextEdit, TextEditor};

fn range(start: usize, end: usize) -> Range {
    Range::new(start, end).unwrap()
}

#[test]
fn range_rejects_end_before_start() {
    assert!(Range::new(3, 2).is_none());
    let r = Range::new(2, 3).unwrap();
    assert_eq!((r.start, r.end), (2, 3));
    assert!(Range::new(4, 4).is_some());
}

#[test]
fn apply_without_edits_returns_source() {
    let mut editor = TextEditor::load("let a = 1;");
    assert_eq!(editor.apply(), "let a = 1;");
}

#[test]
fn apply_on_empty_source() {
    let mut editor = TextEditor::load("");
    editor.insert_before(range(0, 0), "x");
    assert_eq!(editor.apply(), "x");
}

#[test]
fn insert_after_uses_range_end() {
    let mut editor = TextEditor::load("function foo(a) {}");
    editor.insert_after(range(13, 14), ": any");
    assert_eq!(editor.apply(), "function foo(a: any) {}");
}

#[test]
fn insert_before_uses_range_start() {
    let mut editor = TextEditor::load("abcdef");
    editor.insert_before(range(2, 5), "-");
    assert_eq!(editor.apply(), "ab-cdef");
}

#[test]
fn edits_are_ordered_by_offset() {
    let mut editor = TextEditor::load("abcdef");
    editor.insert_after(range(0, 5), "3");
    editor.insert_after(range(0, 1), "1");
    editor.insert_after(range(0, 3), "2");
    assert_eq!(editor.apply(), "a1bc2de3f");
}

#[test]
fn edits_at_one_offset_keep_recorded_order() {
    let mut editor = TextEditor::load("body");
    editor.insert_before(range(0, 4), "first ");
    editor.insert_after(range(0, 4), " end");
    editor.insert_before(range(0, 4), "second ");
    editor.insert_before(range(0, 2), "third ");
    assert_eq!(editor.apply(), "first second third body end");
}

#[test]
fn insert_at_end_of_source() {
    let mut editor = TextEditor::load("abc");
    editor.insert_after(range(0, 3), "!");
    editor.insert_after(range(0, 3), "?");
    assert_eq!(editor.apply(), "abc!?");
}

#[test]
fn offsets_count_bytes() {
    let mut editor = TextEditor::load("é = ü");
    editor.insert_after(range(0, 2), ": any");
    editor.insert_before(range(7, 7), ";");
    assert_eq!(editor.apply(), "é: any = ü;");
}

#[test]
fn apply_twice_gives_the_same_text() {
    let mut editor = TextEditor::load("abc");
    editor.insert_after(range(0, 2), "Y");
    editor.insert_after(range(0, 1), "X");
    let first = editor.apply();
    let second = editor.apply();
    assert_eq!(first, "aXbYc");
    assert_eq!(second, first);
}
