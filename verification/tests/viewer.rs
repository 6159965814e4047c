//! Selecting, pressing, dragging and applying.
use pdfer::clipboard::{copied_status, copy_group, paste_blocks, pasted_status, select_pasted};
use pdfer::document::{Align, Block, BlockEdit, BlockLine, BlockRun, Style};
use pdfer::edits::FontChoice;
use pdfer::frame::{BandMode, Grip, Guide};
use pdfer::geometry::{Rect, Spot};
use pdfer::group::{
    erase_group, line_up_group, make_target, recolor_group, rewrite_group, shared_align,
    shared_size, GroupChange, LineUp, PageBlocks,
};
use pdfer::joining::{join_blocks, Joined};
use pdfer::multi::Landing;
use pdfer::pointer::{rubber_band, Rubber, Tool};
use pdfer::rich_text::{RichText, RunStyle, StyleChange};
use pdfer::units::Color;
use pdfer::viewer::{is_blank, Applied, BandEnd, GroupEnd, Opened, Press, Viewer};

fn points(value: f64) -> i64 {
    (value * 16_777_216.0) as i64
}

fn spot(x: f64, y: f64) -> Spot {
    Spot { x: points(x), y: points(y) }
}

fn rect(left: f64, bottom: f64, right: f64, top: f64) -> Rect {
    Rect::new(points(left), points(bottom), points(right), points(top))
}

fn black() -> Color {
    Color { red: 0, green: 0, blue: 0 }
}

fn style() -> Style {
    Style {
        family: "Georgia".to_owned(),
        size: points(11.0),
        color: black(),
        bold: false,
        italic: false,
    }
}

fn block(text: &str, bbox: Rect, mark: Option<i64>) -> Block {
    Block {
        bbox,
        lines: vec![BlockLine {
            runs: vec![BlockRun { text: text.to_owned(), style: style(), baseline: bbox.bottom }],
            baseline: bbox.bottom,
            dominant_size: points(11.0),
        }],
        dominant: style(),
        leading: None,
        align: Align::Left,
        rotation: 0,
        mark,
        style: None,
    }
}

/// Three paragraphs, one below the other.
fn pages() -> Vec<PageBlocks> {
    vec![PageBlocks {
        page: 0,
        blocks: vec![
            block("первый", rect(100.0, 700.0, 300.0, 720.0), Some(7)),
            block("второй", rect(100.0, 660.0, 300.0, 680.0), None),
            block("третий", rect(110.0, 620.0, 280.0, 640.0), None),
        ],
    }]
}

fn font() -> FontChoice {
    FontChoice {
        family: "Georgia".to_owned(),
        size: points(11.0),
        face: None,
        same_family: true,
        manual: None,
        installed: true,
        suggestion: None,
    }
}

#[test]
fn a_click_selects_the_paragraph() {
    let pages = pages();
    let mut viewer = Viewer::new();
    let press = viewer.press_anywhere(0, Some(1), spot(10.0, 10.0), &pages);
    assert_eq!(press, Press::Wait);
    viewer.mouse_moved(spot(12.0, 12.0), true);
    let release = viewer.mouse_up(&pages, points(1.0), None);
    match release.click {
        Some(Opened::Text(text)) => assert_eq!(text.text(), "второй"),
        other => panic!("{other:?}"),
    }
    let selection = viewer.selected.as_ref().unwrap();
    assert_eq!(selection.page, 0);
    assert_eq!(selection.original_text, "второй");
    assert_eq!(selection.seeded_h_scale, points(100.0));
    assert!(viewer.focus_editor);
    assert!(matches!(viewer.select_block(0, 1, &pages), Opened::Already));
    assert!(matches!(viewer.select_block(0, 9, &pages), Opened::Ignored));
    assert!(matches!(viewer.select_block(5, 0, &pages), Opened::Ignored));
}

#[test]
fn a_press_first_applies_what_was_typed() {
    let pages = pages();
    let mut viewer = Viewer::new();
    viewer.select_block(0, 0, &pages);
    viewer.selected.as_mut().unwrap().touched = true;
    assert_eq!(viewer.press_anywhere(0, Some(1), spot(0.0, 0.0), &pages), Press::Apply);
    assert!(viewer.pending_press.is_none());
    assert!(viewer.selected.is_some());
    viewer.selected.as_mut().unwrap().touched = false;
    assert_eq!(viewer.press_anywhere(0, None, spot(0.0, 0.0), &pages), Press::Wait);
    assert!(viewer.selected.is_none());
    assert!(viewer.focus_root);
}

#[test]
fn a_band_selects_several_paragraphs() {
    let pages = pages();
    let mut viewer = Viewer::new();
    viewer.press_anywhere(0, None, spot(90.0, 50.0), &pages);
    viewer.mouse_moved(spot(310.0, 150.0), true);
    let rubber: Rubber = viewer.rubber.unwrap();
    let band = rubber_band(&rubber, spot(0.0, 0.0), points(800.0), points(1.0));
    assert_eq!(band.0, rect(90.0, 650.0, 310.0, 750.0));
    assert_eq!(band.1, BandMode::Window);
    let release = viewer.mouse_up(&pages, points(1.0), Some(band));
    assert!(matches!(release.band, BandEnd::Group));
    assert_eq!(viewer.multi.len(), 2);
    assert_eq!(viewer.multi[0].owner, Some(7));
    viewer.toggle_multi(0, 1, &pages);
    assert_eq!(viewer.multi.len(), 1);
    viewer.toggle_multi(0, 2, &pages);
    assert_eq!(viewer.multi.len(), 2);
    assert!(!viewer.menu_reselects(0, Some(2), &pages));
    assert!(viewer.menu_reselects(0, Some(1), &pages));
    assert!(!viewer.menu_reselects(0, None, &pages));
}

#[test]
fn a_click_with_control_ends_the_edit_first() {
    let pages = pages();
    let mut viewer = Viewer::new();
    viewer.select_block(0, 0, &pages);
    assert!(!viewer.toggle_multi(0, 1, &pages));
    assert!(viewer.selected.is_none());
    assert_eq!(viewer.multi.len(), 1);
    assert!(!viewer.toggle_multi(0, 9, &pages));
    assert_eq!(viewer.multi.len(), 1);
    viewer.select_block(0, 0, &pages);
    viewer.selected.as_mut().unwrap().touched = true;
    assert!(viewer.toggle_multi(0, 2, &pages));
    assert!(viewer.selected.is_some());
    assert_eq!(viewer.multi[0].bbox, pages[0].blocks[2].bbox);
}

#[test]
fn the_menu_is_of_the_block_it_was_opened_on() {
    let pages = pages();
    let mut viewer = Viewer::new();
    viewer.select_block(0, 0, &pages);
    assert!(!viewer.open_text_menu(0, Some(0), &pages));
    assert!(viewer.selected.is_some() && viewer.multi.is_empty());
    assert!(!viewer.open_text_menu(0, None, &pages));
    assert!(viewer.selected.is_some() && viewer.multi.is_empty());
    assert!(!viewer.menu_reselects(0, Some(9), &pages));
    assert!(!viewer.open_text_menu(0, Some(9), &pages));
    assert!(viewer.selected.is_some() && viewer.multi.is_empty());
    assert!(viewer.menu_reselects(5, Some(0), &pages));
    assert!(viewer.menu_reselects(0, Some(1), &pages));
    assert!(!viewer.open_text_menu(0, Some(1), &pages));
    assert!(viewer.selected.is_none());
    assert_eq!(viewer.multi.len(), 1);
    assert_eq!(viewer.multi[0].bbox, pages[0].blocks[1].bbox);
    assert!(!viewer.open_text_menu(0, Some(1), &pages));
    assert_eq!(viewer.multi.len(), 1);
    viewer.select_block(0, 0, &pages);
    viewer.selected.as_mut().unwrap().touched = true;
    assert!(viewer.open_text_menu(0, Some(2), &pages));
    assert!(viewer.selected.is_some());
    assert_eq!(viewer.multi[0].bbox, pages[0].blocks[2].bbox);
}

#[test]
fn a_band_over_nothing_selects_the_pressed_paragraph() {
    let pages = pages();
    let mut viewer = Viewer::new();
    viewer.rubber = Some(Rubber {
        page: 0,
        block: Some(2),
        start: spot(0.0, 0.0),
        current: spot(20.0, 0.0),
    });
    let end = viewer.finish_rubber(Some((rect(0.0, 0.0, 20.0, 1.0), BandMode::Window)), &pages);
    assert!(matches!(end, BandEnd::Block(Opened::Text(_))));
    assert_eq!(viewer.selected.as_ref().unwrap().original_text, "третий");
}

#[test]
fn the_text_tool_draws_a_new_block() {
    let pages = pages();
    let mut viewer = Viewer::new();
    viewer.tool = Tool::Text;
    let rubber = Rubber { page: 3, block: None, start: spot(0.0, 0.0), current: spot(60.0, 9.0) };
    viewer.rubber = Some(rubber);
    let small = Some((rect(0.0, 0.0, 60.0, 7.0), BandMode::Window));
    assert!(matches!(viewer.finish_rubber(small, &pages), BandEnd::Nothing));
    assert_eq!(viewer.tool, Tool::Text);
    viewer.rubber = Some(rubber);
    let roomy = Some((rect(0.0, 0.0, 60.0, 9.0), BandMode::Window));
    assert!(matches!(viewer.finish_rubber(roomy, &pages), BandEnd::NewBlock));
    let selection = viewer.selected.as_ref().unwrap();
    assert!(selection.creating);
    assert_eq!(selection.family, "Arial");
    assert_eq!(selection.size, points(12.0));
    assert_eq!(viewer.tool, Tool::Cursor);
    assert!(viewer.erase_selected().is_none());
    assert!(viewer.selected.is_none());
}

#[test]
fn a_moved_frame_becomes_a_move() {
    let pages = pages();
    let mut viewer = Viewer::new();
    let text = match viewer.select_block(0, 0, &pages) {
        Opened::Text(text) => text,
        other => panic!("{other:?}"),
    };
    viewer.snapping = false;
    assert!(viewer.begin_drag(Grip::Move, spot(50.0, 50.0)));
    assert!(viewer.drag_frame(spot(70.0, 80.0), points(2.0), &pages, None));
    assert!(!viewer.drag_frame(spot(70.0, 80.0), points(2.0), &pages, None));
    assert_eq!(viewer.selected.as_ref().unwrap().frame, rect(110.0, 685.0, 310.0, 705.0));
    assert!(viewer.drop_frame());
    match viewer.apply_edit(&text, &font()) {
        Applied::Edit(BlockEdit::Transform(edit)) => {
            assert_eq!(edit.page_number, 1);
            assert_eq!(edit.bbox, rect(100.0, 700.0, 300.0, 720.0));
            assert_eq!(edit.target, rect(110.0, 685.0, 310.0, 705.0));
            assert_eq!(edit.owner, Some(7));
        }
        other => panic!("{other:?}"),
    }
    assert!(viewer.selected.is_none());
}

#[test]
fn a_dragged_frame_lines_up_with_its_neighbours() {
    let pages = pages();
    let mut viewer = Viewer::new();
    viewer.select_block(0, 2, &pages);
    assert_eq!(viewer.snap_targets(&pages).len(), 2);
    viewer.begin_drag(Grip::Left, spot(0.0, 0.0));
    viewer.drag_frame(spot(-8.0, 0.0), points(1.0), &pages, None);
    assert_eq!(viewer.selected.as_ref().unwrap().frame.left, points(100.0));
    assert_eq!(viewer.guides, vec![Guide::Vertical(points(100.0))]);
    viewer.drop_frame();
    assert!(viewer.guides.is_empty());
}

#[test]
fn the_handle_turns_the_block() {
    let pages = pages();
    let mut viewer = Viewer::new();
    viewer.select_block(0, 0, &pages);
    viewer.begin_drag(Grip::Rotate, spot(0.0, 0.0));
    let turn = Some((Some(points(10.0)), Some(points(55.0))));
    assert!(!viewer.drag_frame(spot(1.0, 1.0), points(1.0), &pages, None));
    assert!(viewer.drag_frame(spot(1.0, 1.0), points(1.0), &pages, turn));
    assert_eq!(viewer.selected.as_ref().unwrap().rotation, points(45.0));
    assert!(!viewer.drag_frame(spot(1.0, 1.0), points(1.0), &pages, turn));
}

#[test]
fn a_changed_text_is_set_anew_and_a_blank_one_is_not() {
    let pages = pages();
    let mut viewer = Viewer::new();
    assert!(matches!(viewer.apply_edit(&RichText::default(), &font()), Applied::Nothing));
    viewer.select_block(0, 1, &pages);
    let blank = RichText::new(" \u{a0}\t", RunStyle::default());
    assert!(matches!(viewer.apply_edit(&blank, &font()), Applied::Blank));
    assert!(viewer.selected.is_some());
    let text = RichText::new("другой", RunStyle::default());
    match viewer.apply_edit(&text, &font()) {
        Applied::Edit(BlockEdit::Rewrite(edit)) => {
            assert_eq!(edit.spans.len(), 1);
            assert_eq!(edit.spans[0].text, "другой");
            assert_eq!(edit.page_number, 1);
            assert!(!edit.create);
        }
        other => panic!("{other:?}"),
    }
    assert!(is_blank("  \n"));
    assert!(!is_blank(" а "));
}

#[test]
fn a_group_is_dragged_as_a_whole() {
    let pages = pages();
    let mut viewer = Viewer::new();
    viewer.toggle_multi(0, 0, &pages);
    viewer.toggle_multi(0, 1, &pages);
    let press = viewer.press_anywhere(0, Some(0), spot(10.0, 10.0), &pages);
    assert_eq!(press, Press::GrabGroup);
    viewer.mouse_moved(spot(30.0, 50.0), true);
    match viewer.finish_group_drag(&pages, points(2.0)) {
        GroupEnd::Moved(edits) => {
            assert_eq!(edits.len(), 2);
            match &edits[0] {
                BlockEdit::Transform(edit) => {
                    assert_eq!(edit.target, rect(110.0, 680.0, 310.0, 700.0));
                }
                other => panic!("{other:?}"),
            }
        }
        other => panic!("{other:?}"),
    }
    assert!(viewer.multi.is_empty());
    assert!(matches!(viewer.finish_group_drag(&pages, points(1.0)), GroupEnd::Nothing));
}

#[test]
fn a_trembling_drag_leaves_the_group() {
    let pages = pages();
    let mut viewer = Viewer::new();
    viewer.toggle_multi(0, 0, &pages);
    viewer.press_anywhere(0, Some(0), spot(10.0, 10.0), &pages);
    viewer.mouse_moved(spot(10.25, 10.25), true);
    assert!(matches!(viewer.finish_group_drag(&pages, points(1.0)), GroupEnd::Stay));
    assert_eq!(viewer.multi.len(), 1);
}

#[test]
fn an_erased_block_goes_off_its_page() {
    let pages = pages();
    let mut viewer = Viewer::new();
    viewer.select_block(0, 0, &pages);
    match viewer.erase_selected() {
        Some(BlockEdit::Erase(edit)) => {
            assert_eq!(edit.page_number, 1);
            assert_eq!(edit.owner, Some(7));
        }
        other => panic!("{other:?}"),
    }
    assert!(viewer.erase_selected().is_none());
}

#[test]
fn a_group_is_changed_block_by_block() {
    let pages = pages();
    let targets =
        vec![make_target(0, &pages[0].blocks[0]), make_target(0, &pages[0].blocks[2])];
    assert_eq!(shared_size(&targets), Some(points(11.0)));
    assert_eq!(shared_align(&targets), Some(Align::Left));
    let change = GroupChange::Restyle(StyleChange::bold(true));
    let edits = rewrite_group(&targets, &pages, &change);
    assert_eq!(edits.len(), 2);
    match &edits[1] {
        BlockEdit::Rewrite(edit) => {
            assert_eq!(edit.spans[0].text, "третий");
            assert!(edit.spans[0].bold);
        }
        other => panic!("{other:?}"),
    }
    assert_eq!(erase_group(&targets).len(), 2);
    let red = Color::of_bits(1.0f32.to_bits(), 0, 0);
    match &recolor_group(&targets, &pages, red)[0] {
        BlockEdit::Transform(edit) => assert_eq!(edit.color, Some(red)),
        other => panic!("{other:?}"),
    }
    match &line_up_group(&targets, &pages, LineUp::Lefts)[..] {
        [BlockEdit::Transform(edit)] => assert_eq!(edit.target.left, points(100.0)),
        other => panic!("{other:?}"),
    }
}

#[test]
fn joining_reads_from_the_top_down() {
    let pages = pages();
    let targets =
        vec![make_target(0, &pages[0].blocks[1]), make_target(0, &pages[0].blocks[0])];
    match join_blocks(&targets, &pages) {
        Joined::Edits(edits) => {
            assert_eq!(edits.len(), 3);
            match edits.last() {
                Some(BlockEdit::Rewrite(edit)) => {
                    let text: String =
                        edit.spans.iter().map(|span| span.text.as_str()).collect();
                    assert_eq!(text, "первый второй");
                }
                other => panic!("{other:?}"),
            }
        }
        other => panic!("{other:?}"),
    }
    let apart = vec![make_target(0, &pages[0].blocks[0]), make_target(0, &pages[0].blocks[2])];
    assert!(matches!(join_blocks(&apart, &pages), Joined::Blocked));
    assert!(matches!(join_blocks(&targets[..1].to_vec(), &pages), Joined::Nothing));
}

#[test]
fn a_group_is_empty_once_its_edits_went_out() {
    let pages = pages();
    let blocks = &pages[0].blocks;
    let pair = || vec![make_target(0, &blocks[0]), make_target(0, &blocks[1])];
    let mut viewer = Viewer::new();
    viewer.multi = pair();
    assert!(matches!(viewer.group_multi(&pages), Joined::Edits(_)));
    assert!(viewer.multi.is_empty());
    assert!(matches!(viewer.group_multi(&pages), Joined::Nothing));
    viewer.multi = vec![make_target(0, &blocks[0]), make_target(0, &blocks[2])];
    assert!(matches!(viewer.group_multi(&pages), Joined::Blocked));
    assert_eq!(viewer.multi.len(), 2);
    let change = GroupChange::Restyle(StyleChange::bold(true));
    assert_eq!(viewer.multi_restyle(&pages, &change).len(), 2);
    assert!(viewer.multi.is_empty());
    viewer.multi = pair();
    assert_eq!(viewer.multi_set_color(&pages, Color { red: 0, green: 0, blue: 0 }).len(), 2);
    assert!(viewer.multi.is_empty());
    viewer.multi = vec![make_target(0, &blocks[0])];
    assert!(viewer.multi_align(&pages, LineUp::Lefts).is_empty());
    assert_eq!(viewer.multi.len(), 1);
    assert_eq!(viewer.delete_multi().len(), 1);
    assert!(viewer.multi.is_empty());
}

#[test]
fn copies_are_pasted_and_found_again() {
    let pages = pages();
    let targets = vec![make_target(0, &pages[0].blocks[0])];
    let copies = copy_group(&targets, &pages);
    assert_eq!(copies.len(), 1);
    let (edits, places) = paste_blocks(&copies, true, 4);
    assert_eq!(edits.len(), 1);
    assert_eq!(places[0], rect(100.0, 700.0, 300.0, 720.0));
    let landed = vec![block("первый", rect(101.0, 701.0, 301.0, 721.0), Some(9))];
    let found = select_pasted(4, &landed, &places).unwrap();
    assert_eq!(found[0].owner, Some(9));
    assert!(select_pasted(4, &Vec::new(), &places).is_none());
    let mut viewer = Viewer::new();
    viewer.select_block(0, 1, &pages);
    assert_eq!(viewer.select_pasted(4, &places, &pages), Landing::Waiting);
    assert!(viewer.selected.is_some());
    let read = vec![PageBlocks { page: 4, blocks: landed }];
    assert_eq!(viewer.select_pasted(4, &Vec::new(), &read), Landing::Nothing);
    assert!(viewer.selected.is_some());
    assert_eq!(viewer.select_pasted(4, &places, &read), Landing::Selected(1));
    assert!(viewer.selected.is_none());
    assert_eq!(viewer.multi[0].owner, Some(9));
    viewer.select_block(0, 1, &pages);
    viewer.multi = targets;
    viewer.before_page_op();
    assert!(viewer.selected.is_none() && viewer.multi.is_empty());
    assert_eq!(copied_status(1), "Блок скопирован — Ctrl+V вставит копию");
    assert_eq!(copied_status(3), "Скопировано блоков: 3 — Ctrl+V вставит копии");
    assert_eq!(pasted_status(2), "Вставлено блоков: 2 — выделены, тяните на место");
}
