//! The frame of a paragraph: dragging, turning, lining up, and the band.
use pdfer::frame::{
    blocks_in_band, dragged, normalise, rotated, snap, BandMode, Cursor, Grip, Guide, MIN_HEIGHT,
    MIN_WIDTH,
};
use pdfer::geometry::Rect;

fn points(value: f64) -> i64 {
    (value * 16_777_216.0) as i64
}

fn frame() -> Rect {
    Rect::new(points(100.0), points(700.0), points(300.0), points(760.0))
}

#[test]
fn dragging_the_outline_moves_the_whole_block() {
    let moved = dragged(frame(), Grip::Move, points(20.0), points(30.0));
    assert_eq!((moved.left, moved.right), (points(120.0), points(320.0)));
    assert_eq!((moved.top, moved.bottom), (points(730.0), points(670.0)));
    assert_eq!(moved.width(), frame().width());
    assert_eq!(moved.height(), frame().height());
}

#[test]
fn side_markers_move_only_their_own_edge() {
    let right = dragged(frame(), Grip::Right, points(50.0), points(40.0));
    assert_eq!(right.right, points(350.0));
    assert_eq!((right.left, right.top, right.bottom), (points(100.0), points(760.0), points(700.0)));

    let bottom = dragged(frame(), Grip::Bottom, points(50.0), points(40.0));
    assert_eq!(bottom.bottom, points(660.0));
    assert_eq!(
        (bottom.left, bottom.right, bottom.top),
        (points(100.0), points(300.0), points(760.0))
    );
}

#[test]
fn corner_markers_move_two_edges_at_once() {
    let corner = dragged(frame(), Grip::TopLeft, points(30.0), points(-20.0));
    assert_eq!(corner.left, points(130.0));
    assert_eq!(corner.top, points(780.0));
    assert_eq!(
        (corner.right, corner.bottom),
        (points(300.0), points(700.0))
    );
}

#[test]
fn a_block_cannot_be_dragged_smaller_than_a_letter() {
    for grip in [Grip::Left, Grip::TopLeft, Grip::BottomLeft] {
        assert_eq!(dragged(frame(), grip, points(1000.0), points(0.0)).width(), MIN_WIDTH);
    }
    for grip in [Grip::Right, Grip::TopRight, Grip::BottomRight] {
        assert_eq!(dragged(frame(), grip, points(-1000.0), points(0.0)).width(), MIN_WIDTH);
    }
    assert_eq!(
        dragged(frame(), Grip::Top, points(0.0), points(1000.0)).height(),
        MIN_HEIGHT
    );
    assert_eq!(
        dragged(frame(), Grip::Bottom, points(0.0), points(-1000.0)).height(),
        MIN_HEIGHT
    );
}

#[test]
fn dragging_is_measured_from_where_it_started() {
    assert_eq!(dragged(frame(), Grip::Move, points(0.0), points(0.0)), frame());
    assert_eq!(dragged(frame(), Grip::BottomRight, points(0.0), points(0.0)), frame());
}

/// The direction from a centre to a place of the window, with the ordinate
/// growing downwards; none for the centre itself.
fn direction(centre: (f64, f64), at: (f64, f64)) -> Option<i64> {
    let (dx, dy) = (at.0 - centre.0, centre.1 - at.1);
    if dx == 0.0 && dy == 0.0 {
        None
    } else {
        Some(points(dy.atan2(dx).to_degrees()))
    }
}

#[test]
fn rotation_follows_the_hand_counterclockwise() {
    let centre = (100.0, 100.0);
    let angle = rotated(
        points(0.0),
        direction(centre, (200.0, 100.0)),
        direction(centre, (100.0, 0.0)),
    );
    assert!((angle - points(90.0)).abs() < points(0.01));
}

#[test]
fn rotation_starts_from_the_current_angle_without_jumping() {
    let centre = (100.0, 100.0);
    let grabbed = direction(centre, (140.0, 160.0));
    assert_eq!(rotated(points(30.0), grabbed, grabbed), points(30.0));
    assert_eq!(rotated(points(30.0), None, grabbed), points(30.0));
}

#[test]
fn angles_stay_within_half_a_turn() {
    assert_eq!(normalise(points(370.0)), points(10.0));
    assert_eq!(normalise(points(-190.0)), points(170.0));
    assert_eq!(normalise(points(180.0)), points(180.0));
    assert_eq!(normalise(points(-180.0)), points(180.0));
}

#[test]
fn without_neighbours_nothing_snaps() {
    let (result, guides) = snap(frame(), Grip::Move, &[], points(6.0));
    assert_eq!(result, frame());
    assert!(guides.is_empty());
}

#[test]
fn a_moved_block_lines_up_with_a_neighbour() {
    let neighbour = Rect::new(points(104.0), points(500.0), points(260.0), points(560.0));
    let (result, guides) = snap(frame(), Grip::Move, &[neighbour], points(6.0));
    assert_eq!(result.left, points(104.0));
    assert_eq!(result.width(), frame().width());
    assert!(guides.contains(&Guide::Vertical(points(104.0))));
}

#[test]
fn a_neighbour_too_far_away_does_not_pull() {
    let neighbour = Rect::new(points(140.0), points(500.0), points(190.0), points(560.0));
    let (result, guides) = snap(frame(), Grip::Move, &[neighbour], points(6.0));
    assert_eq!(result, frame());
    assert!(guides.is_empty());
}

#[test]
fn resizing_snaps_only_the_edge_being_dragged() {
    let neighbour = Rect::new(points(303.0), points(500.0), points(400.0), points(560.0));
    let (result, guides) = snap(frame(), Grip::Right, &[neighbour], points(6.0));
    assert_eq!(result.right, points(303.0));
    assert_eq!(result.left, points(100.0));
    assert_eq!(guides, vec![Guide::Vertical(points(303.0))]);
}

#[test]
fn an_edge_that_cannot_reach_a_line_shows_no_guide() {
    let narrow = Rect::new(points(100.0), points(700.0), points(112.0), points(760.0));
    let neighbour = Rect::new(points(103.0), points(500.0), points(260.0), points(560.0));
    let (result, guides) = snap(narrow, Grip::Left, &[neighbour], points(6.0));
    assert_eq!(result, narrow);
    assert!(guides.is_empty());
    let (result, guides) = snap(narrow, Grip::Move, &[neighbour], points(6.0));
    assert_eq!(result.left, points(103.0));
    assert_eq!(guides, vec![Guide::Vertical(points(103.0))]);
}

#[test]
fn centres_snap_to_centres() {
    let neighbour = Rect::new(points(102.0), points(500.0), points(302.0), points(560.0));
    let (result, _) = snap(frame(), Grip::Move, &[neighbour], points(6.0));
    assert_eq!(result.center_x(), points(202.0));
}

#[test]
fn the_nearest_line_wins() {
    let far = Rect::new(points(105.0), points(500.0), points(260.0), points(560.0));
    let near = Rect::new(points(101.0), points(400.0), points(260.0), points(460.0));
    let (result, _) = snap(frame(), Grip::Move, &[far, near], points(6.0));
    assert_eq!(result.left, points(101.0));
}

#[test]
fn rotation_is_never_snapped() {
    let neighbour = Rect::new(points(101.0), points(500.0), points(260.0), points(560.0));
    let (result, guides) = snap(frame(), Grip::Rotate, &[neighbour], points(6.0));
    assert_eq!(result, frame());
    assert!(guides.is_empty());
}

#[test]
fn a_left_to_right_band_takes_only_fully_covered_blocks() {
    let inside = Rect::new(points(110.0), points(710.0), points(190.0), points(750.0));
    let sticking_out = Rect::new(points(150.0), points(690.0), points(260.0), points(730.0));
    let far = Rect::new(points(400.0), points(400.0), points(500.0), points(440.0));
    let band = Rect::new(points(100.0), points(700.0), points(300.0), points(760.0));

    let picked = blocks_in_band(band, BandMode::Window, &[inside, sticking_out, far]);
    assert_eq!(picked, vec![0]);
}

#[test]
fn a_right_to_left_band_takes_touched_blocks_too() {
    let inside = Rect::new(points(110.0), points(710.0), points(190.0), points(750.0));
    let sticking_out = Rect::new(points(150.0), points(690.0), points(260.0), points(730.0));
    let far = Rect::new(points(400.0), points(400.0), points(500.0), points(440.0));
    let band = Rect::new(points(100.0), points(700.0), points(300.0), points(760.0));

    let picked = blocks_in_band(band, BandMode::Crossing, &[inside, sticking_out, far]);
    assert_eq!(picked, vec![0, 1]);
}

#[test]
fn drag_direction_picks_the_mode() {
    assert_eq!(BandMode::from_drag(points(10.0), points(200.0)), BandMode::Window);
    assert_eq!(BandMode::from_drag(points(200.0), points(10.0)), BandMode::Crossing);
}

#[test]
fn cursors_stay_within_what_windows_actually_shows() {
    let allowed = [
        Cursor::PointingHand,
        Cursor::Crosshair,
        Cursor::ResizeLeftRight,
        Cursor::ResizeUpDown,
        Cursor::IBeam,
    ];
    for grip in Grip::resize_grips().iter().chain([Grip::Move, Grip::Rotate].iter()) {
        assert!(
            allowed.contains(&grip.cursor())
        );
    }
    assert_ne!(Grip::Left.cursor(), Grip::Top.cursor());
    assert_ne!(Grip::Move.cursor(), Grip::TopLeft.cursor());
    assert_eq!(Grip::resize_grips().len(), 8);
}
