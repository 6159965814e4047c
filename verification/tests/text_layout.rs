//! Words, lines and the caret.
use pdfer::document::Script;
use pdfer::rich_text::{RichText, RunStyle};
use pdfer::text_layout::{is_measurable, measure_pieces, tokenize, BaseStyle, TextLayout};

fn points(value: f64) -> i64 {
    (value * 16_777_216.0) as i64
}

fn base(scale: f64) -> BaseStyle {
    BaseStyle {
        size_points: points(10.0),
        line_height_points: points(12.0),
        points_to_px: points(scale),
    }
}

fn model(text: &str) -> RichText {
    RichText::new(text, RunStyle::default())
}

fn pieces(text: &str) -> Vec<&str> {
    tokenize(text).iter().map(|range| &text[range.clone()]).collect()
}

#[test]
fn tokenizer_alternates_words_and_gaps() {
    assert_eq!(pieces("раз два"), vec!["раз", " ", "два"]);
}

#[test]
fn tokenizer_keeps_leading_and_trailing_gaps() {
    assert_eq!(pieces("  край  "), vec!["  ", "край", "  "]);
}

#[test]
fn tokenizer_covers_the_whole_string_without_gaps() {
    for text in ["", "одно", " ", "а б в  г "] {
        let tokens = tokenize(text);
        let restored: String = tokens.iter().map(|range| &text[range.clone()]).collect();
        assert_eq!(restored, text, "{text:?}");
    }
}

#[test]
fn long_text_wraps_by_the_block_width() {
    let layout = TextLayout::build(&model("аааааааааа бббббббббб"), &base(1.0), points(60.0));
    assert_eq!(layout.line_count(), 2);
    assert_eq!(layout.height(), points(24.0));
}

#[test]
fn frame_hugs_the_text_and_not_the_block() {
    let layout = TextLayout::build(&model("аб"), &base(1.0), points(500.0));
    assert_eq!(layout.width(), points(10.0));
}

#[test]
fn caret_starts_at_the_left_edge() {
    let layout = TextLayout::build(&model("что-нибудь"), &base(1.0), points(500.0));
    assert_eq!(layout.caret(0).x, 0);
}

#[test]
fn caret_moves_right_as_the_offset_grows() {
    let text = model("абвгде");
    let layout = TextLayout::build(&text, &base(1.0), points(500.0));
    let mut previous = points(-1.0);
    for (offset, _) in text.text().char_indices() {
        let x = layout.caret(offset).x;
        assert!(
            x > previous
        );
        previous = x;
    }
}

#[test]
fn a_click_returns_the_offset_the_caret_was_drawn_at() {
    let text = model("раз два три");
    let layout = TextLayout::build(&text, &base(1.0), points(500.0));
    for (offset, _) in text.text().char_indices() {
        let position = layout.caret(offset);
        assert_eq!(
            layout.offset_at(position.x, position.y),
            offset
        );
    }
}

#[test]
fn a_click_finds_every_byte_on_every_line() {
    let text = model("раз два три четыре");
    for scale in [1.0, 2.0, 3.0] {
        let layout = TextLayout::build(&text, &base(scale), points(30.0 * scale));
        assert!(layout.line_count() > 1);
        for (offset, _) in text.text().char_indices() {
            let position = layout.caret(offset);
            assert_eq!(layout.offset_at(position.x, position.y), offset);
        }
        let end = layout.caret(text.len());
        assert_eq!(layout.offset_at(end.x, end.y), text.len());
    }
    let empty = TextLayout::build(&model(""), &base(1.0), points(30.0));
    let position = empty.caret(0);
    assert_eq!(empty.offset_at(position.x, position.y), 0);
}

#[test]
fn selection_of_one_line_gives_one_rectangle() {
    let text = model("раз два три");
    let layout = TextLayout::build(&text, &base(1.0), points(500.0));
    let rects = layout.selection_rects(0..text.len());
    assert_eq!(rects.len(), 1);
    assert!(
        rects[0].width > 0
    );
}

#[test]
fn selection_across_lines_gives_a_rectangle_per_line() {
    let text = model("аааааааааа бббббббббб");
    let layout = TextLayout::build(&text, &base(1.0), points(60.0));
    let rects = layout.selection_rects(0..text.len());
    assert_eq!(rects.len(), 2);
    for rect in &rects {
        assert_eq!(rect.x, 0);
    }
    assert_eq!(rects[1].y, points(12.0));
}

#[test]
fn empty_selection_paints_nothing() {
    let layout = TextLayout::build(&model("раз два"), &base(1.0), points(500.0));
    assert!(layout.selection_rects(3..3).is_empty());
}

#[test]
fn zoom_scales_everything_together() {
    let text = model("раз два");
    let one = TextLayout::build(&text, &base(1.0), points(500.0));
    let two = TextLayout::build(&text, &base(2.0), points(1000.0));

    let at_one = one.caret(4);
    let at_two = two.caret(4);
    assert!((at_two.x - at_one.x * 2).abs() < points(0.01));
    assert!((at_two.height - at_one.height * 2).abs() < points(0.01));
    assert!((two.width() - one.width() * 2).abs() < points(0.01));
}

#[test]
fn wrapping_is_measured_in_points_not_pixels() {
    let text = model("аааааааааа бббббббббб");
    let one = TextLayout::build(&text, &base(1.0), points(60.0));
    let three = TextLayout::build(&text, &base(3.0), points(180.0));
    assert_eq!(one.line_count(), three.line_count());
}

#[test]
fn superscript_is_measured_smaller() {
    let raised = RunStyle { script: Script::Superscript, ..Default::default() };
    let plain = TextLayout::build(&model("22"), &base(1.0), points(500.0));
    let small = TextLayout::build(
        &RichText::new("22", raised),
        &base(1.0),
        points(500.0),
    );
    assert!(
        small.width() < plain.width()
    );
}

#[test]
fn half_a_zoom_breaks_the_same_lines() {
    let text = model("аааааааааа бббббббббб");
    let one = TextLayout::build(&text, &base(1.0), points(60.0));
    let half = TextLayout::build(&text, &base(1.5), points(90.0));
    assert_eq!(half.line_count(), 2);
    assert_eq!(half.width() * 2, one.width() * 3);
    assert_eq!(half.height() * 2, one.height() * 3);
    assert_eq!(half.caret(24).x * 2, one.caret(24).x * 3);
    assert_eq!(half.caret(24).y * 2, one.caret(24).y * 3);
}

#[test]
fn the_largest_sizes_are_laid_out_too() {
    let poster = BaseStyle {
        size_points: points(10_000.0),
        line_height_points: points(20_000.0),
        points_to_px: points(1.0),
    };
    let text = model("аб");
    assert!(is_measurable(&text, poster.size_points));
    let layout = TextLayout::build(&text, &poster, points(500.0));
    assert_eq!(layout.width(), points(10_000.0));
    assert_eq!(layout.height(), points(20_000.0));
}

#[test]
fn what_cannot_be_told_in_pixels_is_not_laid_out() {
    let text = model("аб");
    let plain = TextLayout::try_lay_out(
        measure_pieces(&text, points(10.0)),
        &base(1.0),
        points(500.0),
    );
    assert_eq!(plain.unwrap().width(), points(10.0));

    let tall = BaseStyle { line_height_points: i64::MAX, ..base(1.0) };
    let pieces = measure_pieces(&text, points(10.0));
    assert!(TextLayout::try_lay_out(pieces, &tall, points(500.0)).is_none());

    let close = BaseStyle { points_to_px: i64::MAX, ..base(1.0) };
    let pieces = measure_pieces(&text, points(10.0));
    assert!(TextLayout::try_lay_out(pieces, &close, points(500.0)).is_none());

    assert!(!is_measurable(&text, -1));
    assert!(!is_measurable(&text, i64::MAX));
    let sized = RunStyle { size: Some(-1), ..Default::default() };
    assert!(!is_measurable(&RichText::new("аб", sized), points(10.0)));
}

#[test]
fn the_page_spreads_and_stretches_its_characters() {
    let text = model("абв");
    let font = vec![0, points(4.0), points(8.0), points(12.0)];
    let mut pieces = measure_pieces(&text, points(10.0));
    pieces[0].measure(&font, 0, points(100.0));
    assert_eq!(pieces[0].stops, font);
    pieces[0].measure(&font, points(1.0), points(50.0));
    assert_eq!(
        pieces[0].stops,
        vec![0, points(2.5), points(5.0), points(7.5)]
    );
    pieces[0].measure(&font, points(-9.0), points(100.0));
    assert_eq!(pieces[0].stops, vec![0, 0, 0, 0]);
    pieces[0].measure(&font, i64::MAX, i64::MAX);
    assert!(pieces[0].stops.iter().all(|stop| *stop <= pieces[0].stops[3]));
}
