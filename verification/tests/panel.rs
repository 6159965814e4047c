//! The panel of properties, the overlay of a page and the clipboard.
use pdfer::clipboard::{copy_selection, Clipboard};
use pdfer::document::{Align, Block, BlockLine, BlockRun, Script, Style};
use pdfer::edits::{PageFont, Selection};
use pdfer::frame::Grip;
use pdfer::geometry::{Rect, Spot};
use pdfer::group::{make_target, PageBlocks};
use pdfer::menus::{apply_preset, preset_change, PresetKind};
use pdfer::overlay::{
    frame_place, group_drag_offset, marker_place, overlay_order, rubber_place, Place, Side,
};
use pdfer::paging::Paging;
use pdfer::panel::panel_size;
use pdfer::pointer::{GroupDrag, Rubber};
use pdfer::rich_text::{RichText, RunStyle, StyleChange};
use pdfer::styles::bound_status;
use pdfer::text_element::{text_frame, RichTextEditor};
use pdfer::text_layout::{BaseStyle, TextLayout};
use pdfer::units::Color;
use pdfer::viewer::{Opened, Viewer};

fn points(value: f64) -> i64 {
    (value * 16_777_216.0) as i64
}

fn spot(x: f64, y: f64) -> Spot {
    Spot { x: points(x), y: points(y) }
}

fn rect(left: f64, bottom: f64, right: f64, top: f64) -> Rect {
    Rect::new(points(left), points(bottom), points(right), points(top))
}

fn black() -> Color {
    Color { red: 0, green: 0, blue: 0 }
}

fn block(text: &str, bbox: Rect) -> Block {
    let style = || Style {
        family: "Georgia".to_owned(),
        size: points(10.0),
        color: black(),
        bold: false,
        italic: false,
    };
    Block {
        bbox,
        lines: vec![BlockLine {
            runs: vec![BlockRun { text: text.to_owned(), style: style(), baseline: bbox.bottom }],
            baseline: bbox.bottom,
            dominant_size: points(10.0),
        }],
        dominant: style(),
        leading: None,
        align: Align::Left,
        rotation: 0,
        mark: None,
        style: None,
    }
}

fn blocks() -> Vec<Block> {
    vec![
        block("верх", rect(100.0, 700.0, 300.0, 720.0)),
        block("середина", rect(100.0, 660.0, 300.0, 680.0)),
        block("низ", rect(100.0, 620.0, 300.0, 640.0)),
    ]
}

fn selected() -> (Selection, RichText) {
    let pages = vec![PageBlocks { page: 0, blocks: blocks() }];
    let mut viewer = Viewer::new();
    match viewer.select_block(0, 0, &pages) {
        Opened::Text(text) => (viewer.selected.unwrap(), text),
        other => panic!("{other:?}"),
    }
}

#[test]
fn the_frame_is_set_by_numbers() {
    let (mut selection, _) = selected();
    assert!(!selection.touched);
    selection.set_frame_x(points(50.0));
    assert_eq!(selection.frame, rect(50.0, 700.0, 250.0, 720.0));
    assert!(selection.touched);
    selection.set_frame_y_top(points(100.0), points(842.0));
    assert_eq!(selection.frame, rect(50.0, 722.0, 250.0, 742.0));
    assert!(selection.set_frame_w(points(80.0)));
    assert!(selection.set_frame_h(points(30.0)));
    assert_eq!(selection.frame, rect(50.0, 712.0, 130.0, 742.0));
    assert!(!selection.set_frame_w(points(4.0)));
    assert!(!selection.set_frame_h(points(4.0)));
    assert_eq!(selection.frame, rect(50.0, 712.0, 130.0, 742.0));
    assert_eq!(selection.bbox, rect(100.0, 700.0, 300.0, 720.0));
}

#[test]
fn the_panel_shows_the_numbers() {
    let (mut selection, _) = selected();
    selection.set_rotation(points(-90.0));
    selection.set_char_spacing(points(0.25));
    selection.set_para_spacing(points(-3.0));
    let texts = selection.property_texts(points(842.0));
    assert_eq!(texts.x, "100.0");
    assert_eq!(texts.y, "122.0");
    assert_eq!(texts.w, "200.0");
    assert_eq!(texts.h, "20.0");
    assert_eq!(texts.angle, "-90");
    assert_eq!(texts.char_spacing, "0.25");
    assert_eq!(texts.h_scale, "100");
    assert_eq!(texts.para_spacing, "0.0");
}

#[test]
fn lines_never_lie_on_one_another() {
    let (mut selection, _) = selected();
    assert_eq!(selection.leading(), points(12.0));
    assert_eq!(selection.leading_text(), "12.0 пт");
    selection.set_line_height(points(2.0));
    assert_eq!(selection.line_height, Some(points(6.0)));
    assert!(selection.needs_retypeset);
    selection.set_line_height(points(15.0));
    assert_eq!(selection.line_height, Some(points(15.0)));
    assert_eq!(selection.leading(), points(15.0));
}

#[test]
fn an_alignment_is_set_once() {
    let (mut selection, _) = selected();
    assert!(!selection.set_align(Align::Left));
    assert!(!selection.needs_retypeset);
    assert!(selection.set_align(Align::Justify));
    assert!(selection.needs_retypeset && selection.touched);
}

#[test]
fn letters_are_not_squeezed_away() {
    let (mut selection, _) = selected();
    assert!(!selection.set_h_scale(points(1.0)));
    assert_eq!(selection.h_scale_override, None);
    assert!(selection.set_h_scale(points(80.0)));
    assert_eq!(selection.h_scale_override, Some(points(80.0)));
}

#[test]
fn a_turn_that_cannot_be_seen_is_not_made() {
    let (mut selection, _) = selected();
    assert!(!selection.turn_to(points(0.04)));
    assert!(!selection.touched);
    assert!(selection.turn_to(points(0.06)));
    assert_eq!(selection.rotation, points(0.06));
}

#[test]
fn a_ready_leading_is_a_factor_of_the_size() {
    let (mut selection, _) = selected();
    apply_preset(&mut selection, PresetKind::LineHeight, points(1.5));
    assert_eq!(selection.line_height, Some(points(15.0)));
    selection.page_font = Some(PageFont {
        base_font: "ABCDEF+Georgia".to_owned(),
        size: points(20.0),
        color: None,
        embedded: true,
    });
    apply_preset(&mut selection, PresetKind::LineHeight, points(1.5));
    assert_eq!(selection.line_height, Some(points(30.0)));
    apply_preset(&mut selection, PresetKind::CharSpacing, points(-0.5));
    assert_eq!(selection.char_spacing_override, Some(points(-0.5)));
    apply_preset(&mut selection, PresetKind::HScale, points(120.0));
    assert_eq!(selection.h_scale_override, Some(points(120.0)));
    assert!(preset_change(PresetKind::HScale, points(120.0)).is_some());
}

#[test]
fn the_document_is_quoted() {
    let (mut selection, _) = selected();
    let (font, size, lines, page) = selection.document_texts();
    assert_eq!(font, "читается…");
    assert_eq!(size, "10.00 пт");
    assert_eq!((lines.as_str(), page.as_str()), ("1", "1"));
    let font = PageFont {
        base_font: "Lora-Bold".to_owned(),
        size: points(9.5),
        color: None,
        embedded: true,
    };
    selection.adopt_page_font(font, points(0.1), points(90.0));
    let (font, size, _, _) = selection.document_texts();
    assert_eq!(font, "Lora-Bold");
    assert_eq!(size, "9.50 пт");
    assert_eq!(selection.property_texts(points(842.0)).h_scale, "90");
}

#[test]
fn a_block_is_bound_to_a_style_and_freed() {
    let (mut selection, _) = selected();
    assert!(!selection.unbind_style());
    selection.bind_style(4);
    assert_eq!(selection.style_id, Some(4));
    assert!(selection.unbind_style());
    assert_eq!(selection.style_id, None);
    assert_eq!(bound_status("Заголовок"), "Блок привязан к стилю «Заголовок»");
}

#[test]
fn a_ground_is_laid_and_taken_away() {
    let (mut selection, _) = selected();
    selection.set_fill(Some(black()));
    assert_eq!(selection.fill, Some(black()));
    selection.set_fill(None);
    assert_eq!(selection.fill, None);
}

#[test]
fn the_panel_tells_the_format_of_the_text() {
    let (selection, mut text) = selected();
    text.select_all();
    text.change_style(&StyleChange::bold(true));
    text.change_style(&StyleChange::underline(true));
    let format = selection.current_format(&text, &None, Some(points(14.0)));
    assert_eq!(format.family, "Georgia");
    assert_eq!(format.size, points(14.0));
    assert!(format.bold && format.underline && !format.italic);
    let format = selection.current_format(&text, &Some("Lora".to_owned()), None);
    assert_eq!(format.family, "Lora");
    assert_eq!(format.size, points(10.0));
    assert_eq!(panel_size(None, points(10.0)), points(10.0));
}

#[test]
fn scripts_and_colours_are_changes_of_the_style() {
    let change = StyleChange::script(Script::Superscript);
    assert_eq!(change.apply(RunStyle::default()).script, Script::Superscript);
    let red = Color { red: 0x3f80_0000, green: 0, blue: 0 };
    assert_eq!(StyleChange::color(red).apply(RunStyle::default()).color, Some(red));
    assert!(StyleChange::italic(true).apply(RunStyle::default()).italic);
}

#[test]
fn a_frame_is_drawn_from_the_top_of_its_page() {
    let place = frame_place(rect(100.0, 700.0, 300.0, 720.0), points(842.0), points(2.0));
    assert_eq!(
        place,
        Place {
            left: points(200.0),
            top: points(244.0),
            width: points(400.0),
            height: points(40.0),
        }
    );
    assert_eq!(marker_place(Grip::TopRight), Some((Side::End, Side::Start)));
    assert_eq!(marker_place(Grip::Bottom), Some((Side::Middle, Side::End)));
    assert_eq!(marker_place(Grip::Rotate), None);
}

#[test]
fn a_band_is_drawn_on_its_page_alone() {
    let rubber = Rubber {
        page: 1,
        block: None,
        start: spot(200.0, 90.0),
        current: spot(120.0, 150.0),
    };
    assert_eq!(
        rubber_place(&rubber, 1, spot(20.0, 10.0)),
        Some(Place {
            left: points(100.0),
            top: points(80.0),
            width: points(80.0),
            height: points(60.0),
        })
    );
    assert_eq!(rubber_place(&rubber, 0, spot(20.0, 10.0)), None);
    let short = Rubber { current: spot(203.0, 93.0), ..rubber };
    assert_eq!(rubber_place(&short, 1, spot(20.0, 10.0)), None);
}

#[test]
fn a_dragged_group_is_shifted_on_its_page() {
    let drag = GroupDrag { page: 2, start: spot(10.0, 10.0), current: spot(25.0, 4.0) };
    assert_eq!(group_drag_offset(&Some(drag), 2), Some(spot(15.0, -6.0)));
    assert_eq!(group_drag_offset(&Some(drag), 1), None);
    assert_eq!(group_drag_offset(&None, 2), None);
}

#[test]
fn the_group_lies_over_the_other_blocks() {
    let blocks = blocks();
    let group = vec![make_target(0, &blocks[0])];
    assert_eq!(overlay_order(&blocks, &group, 0), vec![1, 2, 0]);
    assert_eq!(overlay_order(&blocks, &group, 1), vec![0, 1, 2]);
}

#[test]
fn a_row_shows_one_page_or_two() {
    let mut paging = Paging::new(5);
    assert_eq!(paging.row_pages(3), vec![3]);
    assert_eq!(paging.row_margins(), (0, 0));
    paging.spread = true;
    assert_eq!(paging.row_pages(1), vec![2, 3]);
    assert_eq!(paging.row_pages(2), vec![4]);
    paging.pan_x = points(30.0);
    assert_eq!(paging.row_margins(), (0, points(60.0)));
    paging.pan_x = points(-30.0);
    assert_eq!(paging.row_margins(), (points(60.0), 0));
}

#[test]
fn the_input_method_finds_its_place() {
    let text = RichText::new("аб вг", RunStyle::default());
    let base = BaseStyle {
        size_points: points(10.0),
        line_height_points: points(12.0),
        points_to_px: points(2.0),
    };
    let layout = TextLayout::build(&text, &base, points(1000.0));
    let editor = RichTextEditor::new(text);
    let first = editor.bounds_for_range(0, &layout);
    assert_eq!((first.x, first.y, first.width), (0, 0, points(1.0)));
    assert_eq!(first.height, points(24.0));
    let third = editor.bounds_for_range(2, &layout);
    assert!(third.x > first.x);
    assert_eq!(editor.character_index_for_point(third.x, third.y, &layout), 2);
    let (width, height) = text_frame(&layout);
    assert!(width >= points(24.0));
    assert_eq!(height, points(24.0));
}

#[test]
fn the_clipboard_knows_where_it_was_filled() {
    let (selection, text) = selected();
    let mut clipboard = Clipboard::default();
    assert!(clipboard.clipboard_is_empty());
    clipboard.store("/a.pdf", vec![copy_selection(&selection, &text)]);
    assert!(!clipboard.clipboard_is_empty());
    let (same, blocks) = clipboard.take("/a.pdf");
    assert!(same);
    assert_eq!(blocks.len(), 1);
    assert_eq!(blocks[0].base_family, "Georgia");
    assert_eq!(blocks[0].runs[0].text, "верх");
    let (same, blocks) = clipboard.take("/b.pdf");
    assert!(!same);
    assert_eq!(blocks.len(), 1);
}
