//! Whole pages: picking, moving, copying and deleting them.
use pdfer::geometry::Spot;
use pdfer::organise::{
    clipboard_pages, copied_pages_status, moved_pages_status, paste_tooltip, pasted_pages_status,
    picked_label, toggle_organise, CardPress, Dropped, Organise,
};
use pdfer::pages::{delete_ops, move_ops, paste_ops, rotate_ops, sorted_pages, PageOp};
use pdfer::viewer::Viewer;

fn points(value: f64) -> i64 {
    (value * 16_777_216.0) as i64
}

fn spot(x: f64, y: f64) -> Spot {
    Spot { x: points(x), y: points(y) }
}

/// The pages after operations, as a document makes them one by one.
fn rearranged(count: u32, ops: &[PageOp]) -> Vec<u32> {
    let mut order: Vec<u32> = (0..count).collect();
    for op in ops {
        match op {
            PageOp::Move { from, to } => {
                let page = order.remove(*from as usize - 1);
                order.insert(*to as usize - 1, page);
            }
            PageOp::Delete { page_number } => {
                order.remove(*page_number as usize - 1);
            }
            PageOp::Duplicate { source, after } => {
                let page = order[*source as usize - 1];
                order.insert(*after as usize, page);
            }
            _ => {}
        }
    }
    order
}

#[test]
fn a_page_is_carried_to_a_slot() {
    let mut grid = Organise::new();
    assert_eq!(grid.press_card(4, spot(0.0, 0.0), 1, false, false), CardPress::Held);
    assert!(!grid.move_over_grid(spot(4.0, 4.0)));
    assert!(grid.move_over_grid(spot(5.0, 4.0)));
    assert_eq!(grid.picked, vec![4]);
    assert!(grid.hover_slot(1));
    assert!(!grid.hover_slot(1));
    match grid.organise_drop(1, 6) {
        Dropped::Moves(ops) => assert_eq!(rearranged(6, &ops), vec![0, 4, 1, 2, 3, 5]),
        Dropped::Nothing => panic!(),
    }
    assert_eq!(grid.picked, vec![1]);
    assert_eq!(grid.anchor, Some(1));
    assert!(matches!(grid.organise_drop(0, 6), Dropped::Nothing));
}

#[test]
fn picked_pages_are_carried_together() {
    assert_eq!(rearranged(6, &move_ops(6, &vec![3, 5], 1)), vec![0, 3, 5, 1, 2, 4]);
    assert_eq!(rearranged(6, &move_ops(6, &vec![0, 3, 4], 2)), vec![1, 0, 3, 4, 2, 5]);
    assert_eq!(rearranged(4, &move_ops(4, &vec![2], 4)), vec![0, 1, 3, 2]);
    assert!(move_ops(4, &vec![1], 1).is_empty());
    assert_eq!(rearranged(5, &move_ops(5, &vec![0, 1], 4)), vec![2, 3, 0, 1, 4]);
    assert_eq!(rearranged(7, &move_ops(7, &vec![0, 2, 4, 6], 3)), vec![1, 0, 2, 4, 6, 3, 5]);
    assert_eq!(rearranged(6, &move_ops(6, &vec![0, 1, 2], 6)), vec![3, 4, 5, 0, 1, 2]);
    assert_eq!(rearranged(3, &move_ops(3, &vec![7, 2], 0)), vec![2, 0, 1]);
    assert!(move_ops(5, &vec![1, 2], 1).is_empty());
    assert!(move_ops(5, &vec![1, 2], 3).is_empty());
}

#[test]
fn the_picked_pages_stay_picked_where_they_go() {
    let mut grid = Organise::new();
    grid.press_card(0, spot(0.0, 0.0), 1, false, false);
    grid.release_card(0, false, false);
    grid.press_card(1, spot(0.0, 0.0), 1, true, false);
    assert_eq!(grid.picked, vec![0, 1]);
    assert!(grid.move_over_grid(spot(20.0, 0.0)));
    match grid.organise_drop(4, 5) {
        Dropped::Moves(ops) => assert_eq!(rearranged(5, &ops), vec![2, 3, 0, 1, 4]),
        Dropped::Nothing => panic!(),
    }
    assert_eq!(grid.picked, vec![2, 3]);
    assert_eq!(grid.anchor, Some(2));
    assert!(grid.dragging.is_none() && grid.drop_at.is_none() && grid.press.is_none());
    grid.press_card(3, spot(0.0, 0.0), 1, false, false);
    assert!(grid.move_over_grid(spot(20.0, 0.0)));
    assert!(matches!(grid.organise_drop(3, 5), Dropped::Nothing));
    assert_eq!(grid.picked, vec![2, 3]);
}

#[test]
fn pages_are_deleted_from_the_end() {
    let ops = delete_ops(&vec![1, 3]);
    assert_eq!(ops[0], PageOp::Delete { page_number: 4 });
    assert_eq!(rearranged(5, &ops), vec![0, 2, 4]);
}

#[test]
fn copies_lie_one_after_another() {
    let ops = paste_ops(&vec![0, 2], 4);
    assert_eq!(ops[1], PageOp::Duplicate { source: 3, after: 5 });
    assert_eq!(rearranged(5, &ops), vec![0, 1, 2, 3, 0, 2, 4]);
    let ops = paste_ops(&vec![3, 4], 0);
    assert_eq!(ops[1], PageOp::Duplicate { source: 6, after: 1 });
    assert_eq!(rearranged(6, &ops), vec![3, 4, 0, 1, 2, 3, 4, 5]);
    assert_eq!(rearranged(4, &paste_ops(&vec![1, 2, 3], 2)), vec![0, 1, 1, 2, 3, 2, 3]);
}

#[test]
fn clicks_pick_pages() {
    let mut grid = Organise::new();
    grid.press_card(2, spot(0.0, 0.0), 1, false, false);
    grid.release_card(2, false, false);
    assert_eq!(grid.picked, vec![2]);
    grid.press_card(5, spot(0.0, 0.0), 1, false, true);
    assert_eq!(grid.picked, vec![2, 3, 4, 5]);
    grid.press_card(3, spot(0.0, 0.0), 1, true, false);
    assert_eq!(grid.picked, vec![2, 4, 5]);
    grid.press_card(0, spot(0.0, 0.0), 1, true, false);
    assert_eq!(grid.picked, vec![2, 4, 5, 0]);
    assert_eq!(grid.organise_targets(5), vec![0, 2, 4, 5]);
    assert_eq!(grid.organise_targets(7), vec![7]);
    assert_eq!(grid.organise_copy(), 4);
    assert_eq!(grid.clipboard, vec![0, 2, 4, 5]);
    assert_eq!(grid.paste_place(9), 6);
    assert_eq!(grid.press_card(1, spot(0.0, 0.0), 2, false, false), CardPress::Open);
    grid.right_press(4);
    assert_eq!(grid.picked.len(), 4);
    grid.right_press(8);
    assert_eq!(grid.picked, vec![8]);
    assert_eq!(grid.anchor_page(), 8);
}

#[test]
fn a_release_beside_the_slots_puts_the_page_back() {
    let mut grid = Organise::new();
    grid.press_card(1, spot(0.0, 0.0), 1, false, false);
    grid.move_over_grid(spot(20.0, 0.0));
    grid.hover_slot(3);
    assert!(grid.release_beside());
    assert_eq!((grid.dragging, grid.drop_at), (None, None));
    assert!(!grid.release_beside());
}

#[test]
fn deleting_clears_what_is_picked() {
    let mut grid = Organise::new();
    grid.pick_all(3);
    assert_eq!(grid.picked, vec![0, 1, 2]);
    let ops = grid.organise_delete(1);
    assert_eq!(ops.len(), 3);
    assert_eq!(ops[0], PageOp::Delete { page_number: 3 });
    assert!(grid.picked.is_empty());
    assert_eq!(grid.paste_place(9), 9);
    assert_eq!(grid.organise_copy(), 0);
}

#[test]
fn turning_several_off_keeps_one() {
    let mut grid = Organise::new();
    grid.toggle_multi();
    grid.organise_pick(3, false, false);
    grid.organise_pick(1, false, false);
    assert_eq!(grid.picked, vec![3, 1]);
    assert_eq!(
        grid.organise_rotate(1, true),
        vec![
            PageOp::Rotate { page_number: 2, clockwise: true },
            PageOp::Rotate { page_number: 4, clockwise: true },
        ]
    );
    grid.toggle_multi();
    assert_eq!(grid.picked, vec![3]);
    grid.resize_cards(points(-1000.0));
    assert_eq!(grid.card, points(90.0));
    grid.resize_cards(points(30.0));
    assert_eq!(grid.card, points(120.0));
    grid.resize_cards(points(1000.0));
    assert_eq!(grid.card, points(320.0));
}

#[test]
fn the_clipboard_of_the_grid_comes_first() {
    let mut grid = Organise::new();
    assert_eq!(clipboard_pages(&None, Some(4)), vec![4]);
    assert!(clipboard_pages(&None, None).is_empty());
    grid.organise_pick(2, false, false);
    grid.organise_copy();
    assert_eq!(clipboard_pages(&Some(grid), Some(4)), vec![2]);
}

#[test]
fn opening_the_grid_gives_the_selection_up() {
    let mut viewer = Viewer::new();
    let mut grid = None;
    assert!(!toggle_organise(&mut viewer, &mut grid));
    assert!(grid.is_some());
    assert!(viewer.focus_root);
    assert!(!toggle_organise(&mut viewer, &mut grid));
    assert!(grid.is_none());
}

#[test]
fn the_bar_says_what_is_picked() {
    assert_eq!(picked_label(&vec![]), "страница не выбрана");
    assert_eq!(picked_label(&vec![4]), "выбрана страница 5");
    assert_eq!(picked_label(&vec![4, 6]), "выбрано страниц: 2");
    assert_eq!(paste_tooltip(0), "Буфер страниц пуст");
    assert_eq!(paste_tooltip(2), "Вставить страниц: 2 (Ctrl+V)");
    assert_eq!(copied_pages_status(2), "Скопировано страниц: 2 — Ctrl+V вставит");
    assert_eq!(pasted_pages_status(0), "Буфер страниц пуст");
    assert_eq!(pasted_pages_status(1), "Страница вставлена");
    assert_eq!(pasted_pages_status(5), "Вставлено страниц: 5");
    assert_eq!(moved_pages_status(1), "Страница переставлена");
    assert_eq!(moved_pages_status(3), "Переставлено страниц: 3");
    assert_eq!(sorted_pages(&vec![3, 1, 2, 1]), vec![1, 1, 2, 3]);
    assert_eq!(rotate_ops(&vec![], true), vec![]);
}
