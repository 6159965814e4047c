//! The editor of a paragraph: keys, the mouse and the input method.
use pdfer::numerals::{decimal, fixed, hexadecimal};
use pdfer::rich_text::{RichText, RunStyle};
use pdfer::text_element::{
    byte_to_utf16, is_boundary, utf16_to_byte, EditorEvent, RichTextEditor,
};

fn editor(text: &str) -> RichTextEditor {
    RichTextEditor::new(RichText::new(text, RunStyle::default()))
}

#[test]
fn units_and_bytes_lead_to_each_other() {
    let text = "aж😀b";
    assert_eq!(byte_to_utf16(text, 3), 2);
    assert_eq!(byte_to_utf16(text, 7), 4);
    assert_eq!(utf16_to_byte(text, 2), 3);
    assert_eq!(utf16_to_byte(text, 4), 7);
    assert_eq!(utf16_to_byte(text, 100), 8);
    assert!(is_boundary(text, 3));
    assert!(!is_boundary(text, 2));
    for (byte, _) in text.char_indices() {
        assert_eq!(utf16_to_byte(text, byte_to_utf16(text, byte)), byte);
    }
}

#[test]
fn keys_edit_the_text() {
    let mut editor = editor("раз два");
    assert_eq!(editor.on_key("backspace", false, false), Some(EditorEvent::Changed));
    assert_eq!(editor.text.text(), "раз дв");
    assert_eq!(editor.on_key("escape", false, false), Some(EditorEvent::Cancel));
    editor.on_key("home", false, false);
    assert_eq!(editor.text.caret(), 0);
    assert_eq!(editor.on_key("f7", false, false), None);
    editor.on_key("a", false, true);
    assert_eq!(editor.selected_text_range(), 0..6);
}

#[test]
fn the_input_method_replaces_its_own_input() {
    let mut editor = editor("аб");
    editor.replace_and_mark_text_in_range(None, "в");
    assert_eq!(editor.text.text(), "абв");
    assert_eq!(editor.marked_text_range(), Some(2..3));
    editor.replace_text_in_range(None, "г");
    assert_eq!(editor.text.text(), "абг");
    assert_eq!(editor.marked_text_range(), None);
    assert_eq!(editor.text_for_range(0..2).0, "аб");
}

#[test]
fn the_mouse_selects_inside_the_text() {
    let mut editor = editor("абв");
    editor.press(2);
    editor.drag_to(6);
    assert_eq!(editor.text.selection(), 2..6);
    editor.release();
    editor.drag_to(0);
    assert_eq!(editor.text.selection(), 2..6);
}

#[test]
fn numbers_are_written_out() {
    assert_eq!(decimal(0), "0");
    assert_eq!(decimal(120), "120");
    assert_eq!(hexadecimal(255, 4), "00ff");
    let point = 16_777_216;
    assert_eq!(fixed(-point / 2, 1), "-0.5");
    assert_eq!(fixed(point * 5 / 2, 0), "2");
    assert_eq!(fixed(point * 7 / 2, 0), "4");
}
