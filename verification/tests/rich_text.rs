//! The text of a paragraph and its editing.
use pdfer::document::Script;
use pdfer::rich_text::{Movement, RichText, RunStyle, StyleChange};

fn bold() -> RunStyle {
    RunStyle { bold: true, ..Default::default() }
}

fn model(text: &str) -> RichText {
    RichText::new(text, RunStyle::default())
}

#[test]
fn typing_extends_the_run_it_continues() {
    let mut text = model("Прив");
    text.insert("ет");

    assert_eq!(text.text(), "Привет");
    assert_eq!(
        text.runs().len(),
        1
    );
    assert_eq!(text.caret(), text.len());
}

#[test]
fn caret_never_lands_inside_a_letter() {
    let mut text = model("ще");
    text.set_caret(1);
    assert_eq!(
        text.caret(),
        0
    );

    text.move_caret(Movement::Right, false);
    assert_eq!(text.caret(), 2);
}

#[test]
fn styling_a_selection_splits_into_three_runs() {
    let mut text = model("раз два три");
    let start = text.text().find("два").unwrap();
    let end = start + "два".len();
    text.set_caret(start);
    text.extend_to(end);

    text.restyle(|style| RunStyle { bold: true, ..style });

    let runs = text.runs();
    assert_eq!(
        runs.len(),
        3
    );
    assert_eq!(runs[1].text, "два");
    assert!(runs[1].style.bold);
    assert!(!runs[0].style.bold && !runs[2].style.bold);
    assert_eq!(text.text(), "раз два три");
}

#[test]
fn removing_the_difference_merges_neighbours_back() {
    let mut text = model("раз два три");
    let start = text.text().find("два").unwrap();
    let end = start + "два".len();
    text.set_caret(start);
    text.extend_to(end);
    text.restyle(|style| RunStyle { bold: true, ..style });
    assert_eq!(text.runs().len(), 3);

    text.set_caret(start);
    text.extend_to(end);
    text.restyle(|style| RunStyle { bold: false, ..style });

    assert_eq!(text.runs().len(), 1);
    assert_eq!(text.text(), "раз два три");
}

#[test]
fn typing_inherits_the_style_to_the_left() {
    let mut text = RichText::new("жирный", bold());
    text.insert(" хвост");

    assert_eq!(text.runs().len(), 1);
    assert!(
        text.runs()[0].style.bold
    );
}

#[test]
fn style_button_without_selection_styles_the_whole_block() {
    let mut text = model("обычный ");
    text.restyle(|style| RunStyle { bold: true, ..style });
    text.insert("и дальше");

    assert!(
        text.runs().iter().all(|run| run.style.bold)
    );
    assert_eq!(text.text(), "обычный и дальше");
}

#[test]
fn style_button_on_a_selection_styles_only_it() {
    let mut text = model("обычный жирный");
    let start = "обычный ".len();
    text.set_caret(start);
    let end = text.len();
    text.extend_to(end);
    text.restyle(|style| RunStyle { bold: true, ..style });

    let runs = text.runs();
    assert_eq!(runs.len(), 2);
    assert!(!runs[0].style.bold);
    assert!(runs[1].style.bold);
    assert_eq!(runs[1].text, "жирный");
}

#[test]
fn backspace_deletes_one_letter_not_one_byte() {
    let mut text = model("Привет");
    text.backspace();
    assert_eq!(text.text(), "Приве");
    assert_eq!(text.caret(), text.len());
}

#[test]
fn typing_over_a_selection_replaces_it() {
    let mut text = model("раз два три");
    let start = text.text().find("два").unwrap();
    text.set_caret(start);
    text.extend_to(start + "два".len());
    text.insert("ноль");

    assert_eq!(text.text(), "раз ноль три");
    assert!(!text.has_selection());
}

#[test]
fn delete_removes_forward_and_keeps_the_caret() {
    let mut text = model("абв");
    text.set_caret(0);
    text.delete();
    assert_eq!(text.text(), "бв");
    assert_eq!(text.caret(), 0);
}

#[test]
fn word_movement_jumps_over_whole_words() {
    let mut text = model("раз два три");
    text.set_caret(0);
    text.move_caret(Movement::WordRight, false);
    assert_eq!(&text.text()[..text.caret()], "раз");

    text.move_caret(Movement::End, false);
    text.move_caret(Movement::WordLeft, false);
    assert_eq!(&text.text()[text.caret()..], "три");
}

#[test]
fn plain_arrow_collapses_the_selection() {
    let mut text = model("раз два три");
    let start = text.text().find("два").unwrap();
    text.set_caret(start);
    text.extend_to(start + "два".len());
    text.move_caret(Movement::Left, false);

    assert!(!text.has_selection());
    assert_eq!(
        text.caret(),
        start
    );
}

#[test]
fn shift_arrow_grows_the_selection() {
    let mut text = model("абв");
    text.set_caret(0);
    text.move_caret(Movement::Right, true);
    text.move_caret(Movement::Right, true);

    assert!(text.has_selection());
    assert_eq!(text.selection(), 0..4);
}

#[test]
fn bold_without_an_explicit_family_keeps_the_base_one() {
    let mut text = model("обычный жирный");
    let start = "обычный ".len();
    text.set_caret(start);
    let end = text.len();
    text.extend_to(end);
    text.restyle(|style| RunStyle { bold: true, ..style });

    let spans = text.to_spans("Georgia");
    let bold = spans
        .iter()
        .find(|span| span.text == "жирный")
        .expect("жирный кусок");
    let font = bold
        .font
        .as_ref()
        .expect("начертание обязано дойти до записи");
    assert_eq!(font.family, "Georgia");
    assert!(font.bold);

    let plain = spans
        .iter()
        .find(|span| span.text == "обычный ")
        .expect("обычный кусок");
    assert!(plain.font.is_none());
}

#[test]
fn spans_survive_the_round_trip() {
    let mut text = model("формула H2O");
    let start = "формула H".len();
    text.set_caret(start);
    text.extend_to(start + 1);
    text.restyle(|style| RunStyle { script: Script::Subscript, ..style });
    let end = text.len();
    text.set_caret(end);

    let spans = text.to_spans("Arial");
    let restored = RichText::from_spans(&spans);

    assert_eq!(restored.text(), "формула H2O");
    assert_eq!(restored.runs().len(), 3);
    assert_eq!(restored.runs()[1].style.script, Script::Subscript);
}

#[test]
fn deleting_everything_leaves_a_usable_model() {
    let mut text = model("что-нибудь");
    text.select_all();
    text.delete_selection();

    assert_eq!(text.len(), 0);
    assert_eq!(text.caret(), 0);
    assert!(text.runs().is_empty());

    text.insert("заново");
    assert_eq!(text.text(), "заново");
}

#[test]
fn moving_away_forgets_the_style_chosen_for_typing() {
    let mut text = model("раз два");
    text.set_caret(3);
    text.restyle(|style| RunStyle { italic: true, ..style });
    assert!(text.style_at_caret().italic);
    let mut plain = model("абв");
    plain.change_style(&StyleChange { bold: Some(true), ..StyleChange::none() });
    plain.change_style(&StyleChange { bold: Some(false), ..StyleChange::none() });
    plain.set_caret(0);
    plain.insert("г");
    assert!(plain.runs().iter().all(|run| !run.style.bold));
    assert_eq!(plain.text(), "габв");
}

#[test]
fn typing_and_backspace_cancel_out() {
    let mut text = model("раз");
    text.insert("!");
    text.backspace();
    assert_eq!(text.text(), "раз");
    assert_eq!(text.caret(), 6);
    text.set_caret(4);
    text.move_caret(Movement::Right, true);
    text.change_style(&StyleChange { bold: Some(true), ..StyleChange::none() });
    text.set_caret(4);
    text.insert("ё");
    assert_eq!(text.text(), "раёз");
    text.backspace();
    let runs: Vec<(&str, bool)> =
        text.runs().iter().map(|run| (run.text.as_str(), run.style.bold)).collect();
    assert_eq!(runs, vec![("ра", false), ("з", true)]);
    assert_eq!(text.caret(), 4);
    assert!(!text.has_selection());
    text.set_caret(6);
    text.move_caret(Movement::Left, false);
    text.move_caret(Movement::Right, false);
    assert_eq!(text.caret(), 6);
}

#[test]
fn deleting_at_the_ends_does_nothing() {
    let mut text = model("аб");
    text.delete();
    assert_eq!(text.text(), "аб");
    text.set_caret(0);
    text.backspace();
    assert_eq!(text.text(), "аб");
    text.set_caret(1000);
    assert_eq!(text.caret(), 4);
}

#[test]
fn a_change_reaches_the_selection_only() {
    let mut text = model("раз два");
    text.set_caret(0);
    text.extend_to(6);
    text.change_style(&StyleChange {
        family: Some("Georgia".to_owned()),
        script: Some(Script::Superscript),
        ..StyleChange::none()
    });
    assert_eq!(text.runs().len(), 2);
    assert_eq!(text.runs()[0].style.family.as_deref(), Some("Georgia"));
    assert_eq!(text.runs()[0].style.script, Script::Superscript);
    assert_eq!(text.runs()[1].style.family, None);
}

#[test]
fn an_explicit_family_goes_into_the_request() {
    let style = RunStyle {
        family: Some("PT Serif".to_owned()),
        document_family: Some("Gotham".to_owned()),
        ..Default::default()
    };
    let spans = RichText::new("текст", style).to_spans("Arial");
    assert_eq!(spans.len(), 1);
    assert_eq!(spans[0].font.as_ref().map(|font| font.family.as_str()), Some("PT Serif"));
    assert_eq!(spans[0].page_family, None);
}
