//! Zoom, rows, the shift aside, and what has to be drawn.
use pdfer::demand::{card_height, wanted_pages, wanted_thumbnails, GridView, OpenDocument};
use pdfer::geometry::Spot;
use pdfer::paging::{mostly_aside, turns_aside, Fit, PageSize, PanDrag, Paging, MIN_ZOOM};
use std::collections::HashSet;

fn points(value: f64) -> i64 {
    (value * 16_777_216.0) as i64
}

fn sizes() -> Vec<PageSize> {
    vec![PageSize { width: points(400.0), height: points(600.0) }; 5]
}

#[test]
fn the_zoom_stays_in_its_limits() {
    let mut paging = Paging::new(5);
    let rewind = paging.set_zoom(points(100.0), &sizes()).unwrap();
    assert_eq!(paging.zoom, points(8.0));
    assert_eq!((rewind.rows, rewind.row), (5, 0));
    paging.set_zoom(0, &sizes());
    assert_eq!(paging.zoom, MIN_ZOOM);
    paging.zoom_manually(points(1.0), &sizes());
    assert!(paging.set_zoom(points(1.0004), &sizes()).is_none());
    paging.zoom_manually_by(points(1.25), &sizes());
    assert_eq!(paging.zoom, points(1.25));
}

#[test]
fn a_page_is_fitted_to_the_window() {
    let mut paging = Paging::new(5);
    assert!(paging.note_canvas(points(824.0), points(652.0), &sizes()).is_none());
    assert!(paging.set_fit(Fit::Width, &sizes()).is_some());
    assert_eq!(paging.zoom, points(2.0));
    paging.set_fit(Fit::Height, &sizes());
    assert_eq!(paging.zoom, points(1.0));
    paging.set_fit(Fit::Height, &sizes());
    assert_eq!(paging.fit, Fit::Free);
    paging.set_fit(Fit::Width, &sizes());
    paging.note_canvas(points(424.0), points(652.0), &sizes());
    assert_eq!(paging.zoom, points(1.0));
}

#[test]
fn a_spread_that_does_not_fit_is_fitted() {
    let mut paging = Paging::new(5);
    paging.note_canvas(points(440.0), points(652.0), &sizes());
    paging.go_to_page(4);
    let rewind = paging.toggle_spread(&sizes());
    assert_eq!((rewind.rows, rewind.row), (3, 2));
    assert_eq!(paging.fit, Fit::Width);
    assert_eq!(paging.zoom, points(0.5));
    assert_eq!(paging.row_of(3), 1);
    assert_eq!(paging.row_count(6), 3);
}

#[test]
fn wide_pages_are_shifted_no_further_than_their_edge() {
    let mut paging = Paging::new(5);
    paging.note_canvas(points(224.0), points(652.0), &sizes());
    assert_eq!(paging.content_width(&sizes()), points(400.0));
    assert_eq!(paging.max_pan(&sizes()), points(100.0));
    assert!(paging.set_pan(points(500.0), &sizes()));
    assert_eq!(paging.pan_x, points(100.0));
    assert!(!paging.set_pan(points(100.0), &sizes()));
    assert!(paging.pan_by(points(30.0), &sizes()));
    assert_eq!(paging.pan_x, points(70.0));
    paging.pan_drag = Some(PanDrag { at: Spot { x: 0, y: 0 }, pan: points(70.0) });
    let to = Spot { x: points(20.0), y: points(-15.0) };
    assert_eq!(paging.pull(to, true, &sizes()), Some(points(15.0)));
    assert_eq!(paging.pan_x, points(50.0));
    assert_eq!(paging.pull(to, false, &sizes()), None);
    assert_eq!(paging.pan_drag, None);
    paging.note_canvas(points(2000.0), points(652.0), &sizes());
    assert_eq!(paging.pan_x, 0);
    assert!(!paging.pan_by(points(30.0), &sizes()));
    assert!(mostly_aside(points(-3.0), points(2.0)));
    assert!(!turns_aside(points(0.005)));
}

#[test]
fn the_lists_keep_their_places_when_pages_change() {
    let mut paging = Paging::new(9);
    assert_eq!(paging.pages_changed(5, 7, 2), Some((4, 2)));
    assert_eq!(paging.current_page, 4);
    paging.spread = true;
    assert_eq!(paging.pages_changed(5, 1, 9), Some((1, 4)));
    assert_eq!(paging.current_page, 2);
    assert_eq!(paging.pages_changed(0, 1, 9), None);
    let mut paging = Paging::new(9);
    paging.spread = true;
    assert!(paging.note_top_row(3));
    assert_eq!(paging.current_page, 6);
    assert!(paging.note_top_row(30));
    assert_eq!(paging.current_page, 8);
}

#[test]
fn pages_are_drawn_around_the_one_that_is_read() {
    let stale: HashSet<u32> = [4].into_iter().collect();
    assert_eq!(wanted_pages(3, false, 100, &vec![3, 4], &stale), vec![2, 4, 5, 6, 7]);
    assert_eq!(wanted_pages(0, true, 6, &vec![], &stale), vec![0, 1, 2, 3, 4, 5]);
    assert_eq!(wanted_thumbnails(95, 100, &vec![96], &stale), vec![95, 97, 98, 99]);
    assert_eq!(wanted_thumbnails(500, 100, &vec![], &stale), vec![99]);
}

#[test]
fn an_edit_makes_a_page_stale() {
    let mut document = OpenDocument::new();
    assert_eq!(document.wanted_blocks(0, 3), vec![0, 1, 2]);
    assert!(document.wanted_blocks(0, 3).is_empty());
    document.blocks_arrived(1, Vec::new());
    document.edited(1);
    assert!(document.dirty);
    assert!(document.blocks.is_empty());
    assert_eq!(document.wanted_blocks(0, 3), vec![1]);
    let fresh = document.tile_arrived(1, false);
    assert!(fresh.drop_old && !fresh.save_thumbnail);
    assert!(!document.tile_arrived(1, false).drop_old);
    assert!(document.tile_arrived(0, true).save_thumbnail);
    assert!(!document.tile_arrived(0, true).save_thumbnail);
    document.saved("книга.pdf");
    assert!(!document.dirty);
    assert_eq!(document.status.as_deref(), Some("Сохранено: книга.pdf"));
    document.failed("нет шрифта".to_owned());
    assert_eq!(document.failure.as_deref(), Some("нет шрифта"));
    document.pages_changed();
    assert_eq!(document.status.as_deref(), Some("Состав страниц изменён"));
    assert_eq!(document.wanted_blocks(2, 3), vec![2]);
}

#[test]
fn a_late_preview_is_not_shown() {
    let mut document = OpenDocument::new();
    assert!(document.preview_arrived(2, true, Some(2)));
    assert_eq!(document.preview, Some(2));
    assert!(!document.preview_arrived(2, true, None));
    assert_eq!(document.preview, None);
    document.styles_arrived(false);
    assert!(!document.dirty);
    document.styles_arrived(true);
    assert!(document.dirty);
    assert!(document.toggle_blocks(7));
    assert!(!document.toggle_blocks(7));
    assert!(!document.toggle_blocks(7));
}

#[test]
fn the_grid_draws_what_is_seen() {
    let grid = GridView {
        offset: points(600.0),
        width: points(500.0),
        height: points(500.0),
        card: points(150.0),
    };
    let size = Some(PageSize { width: points(300.0), height: points(300.0) });
    assert_eq!(grid.column_count(), 3);
    assert_eq!(card_height(points(150.0), size), points(150.0));
    assert_eq!(grid.cards_wanted(size, 100), (6, 24));
    let rows = grid.rows_drawn(3, size, 100);
    assert_eq!((rows.from, rows.to), (6, 24));
    assert_eq!(rows.above, points(384.0) as i128);
    assert_eq!(rows.below, points(192.0) as i128 * 26);
    assert_eq!(card_height(points(100.0), None), points(100.0) * 10 / 7);
    let wide = Some(PageSize { width: points(1000.0), height: points(10.0) });
    assert_eq!(card_height(points(150.0), wide), points(50.0));
}
