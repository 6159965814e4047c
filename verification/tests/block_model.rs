//! The text of a block, its size and its colour; presses and bands.
use pdfer::block_model::{align_label, seeded_size, single_color};
use pdfer::document::Align;
use pdfer::geometry::Spot;
use pdfer::pointer::press_became_drag;
use pdfer::rich_text::{RichText, RunStyle};
use pdfer::units::{channel, channel_bits, Color};

fn points(value: f32) -> i64 {
    (value as f64 * 16_777_216.0) as i64
}

fn color(red: f32, green: f32, blue: f32) -> Color {
    Color::of_bits(red.to_bits(), green.to_bits(), blue.to_bits())
}

fn spot(x: f32, y: f32) -> Spot {
    Spot { x: points(x), y: points(y) }
}

#[test]
fn a_size_left_alone_reads_back_exactly_as_it_was_shown() {
    for size in [11.0f32, 20.56, 59.2016, 8.0, 49.33] {
        let shown: f32 = format!("{size:.1}").parse().unwrap();
        assert_eq!(seeded_size(points(size)), points(shown));
    }
}

#[test]
fn a_still_press_is_a_click_and_a_moved_one_is_a_band() {
    let start = spot(100.0, 100.0);
    assert!(!press_became_drag(start, spot(102.0, 103.0)));
    assert!(!press_became_drag(start, spot(106.0, 105.0)));
    assert!(!press_became_drag(start, spot(100.0, 100.0)));
    assert!(press_became_drag(start, spot(140.0, 100.0)));
    assert!(press_became_drag(start, spot(60.0, 100.0)));
    assert!(press_became_drag(start, spot(100.0, 40.0)));
}

#[test]
fn a_changed_size_is_still_seen_as_changed() {
    assert_ne!(seeded_size(points(11.0)), points(12.0));
    assert_ne!(seeded_size(points(20.56)), points(20.5));
}

#[test]
fn one_colour_for_the_whole_block_is_taken_up() {
    let style = RunStyle { color: Some(color(1.0, 0.0, 0.0)), ..Default::default() };
    let text = RichText::new("красный", style);
    assert_eq!(single_color(&text), Some(color(1.0, 0.0, 0.0)));
}

#[test]
fn a_block_without_a_chosen_colour_keeps_the_one_it_had() {
    let text = RichText::new("как было", RunStyle::default());
    assert_eq!(single_color(&text), None);
}

#[test]
fn a_multicoloured_block_is_not_recoloured_at_once() {
    let red = RunStyle { color: Some(color(1.0, 0.0, 0.0)), ..Default::default() };
    let mut text = RichText::new("красный синий", red);
    let start = "красный ".len();
    text.set_caret(start);
    let end = text.len();
    text.extend_to(end);
    text.restyle(|style| RunStyle { color: Some(color(0.0, 0.0, 1.0)), ..style });
    let end = text.len();
    text.set_caret(end);

    assert_eq!(single_color(&text), None);
}

#[test]
fn every_alignment_has_a_name() {
    assert_eq!(align_label(Align::Left), "по левому краю");
    assert_eq!(align_label(Align::Center), "по центру");
    assert_eq!(align_label(Align::Right), "по правому краю");
    assert_eq!(align_label(Align::Justify), "по формату");
}

#[test]
fn colours_are_equal_where_their_numbers_are() {
    assert_eq!(color(0.0, 1.0, 0.5), color(-0.0, 1.0, 0.5));
    assert_ne!(color(0.5, 0.0, 0.0), color(-0.5, 0.0, 0.0));
    for value in [0.0f32, 1.0, -1.0, 0.25, -3.5, f32::MAX, f32::MIN, f32::INFINITY] {
        assert_eq!(f32::from_bits(channel_bits(channel(value.to_bits()))), value);
    }
    assert_eq!(channel(f32::NAN.to_bits()), 0);
    assert_eq!(channel(1.0f32.to_bits()), 0x3f80_0000);
    assert_eq!(channel((-1.0f32).to_bits()), -0x3f80_0000);
}
