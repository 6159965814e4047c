//! The frame of a selected paragraph: its grips, turning it, lining it up with
//! its neighbours, and picking blocks with a band.
//!
//! Everything is measured in points of the page, so nothing depends on how far
//! the view is zoomed in.
use crate::geometry::{abs_of, greatest, least, max_of, min_of, sane, Rect, Spot};
use crate::units::{Points, POINT};
use vstd::prelude::*;

verus! {

/// A block gets no narrower: not even a letter would fit.
pub const MIN_WIDTH: i64 = 12 * 0x100_0000;

/// Nor lower: the frame would be a line that cannot be grabbed.
pub const MIN_HEIGHT: i64 = 8 * 0x100_0000;

/// What was grabbed on the frame of a block.
#[derive(Clone, Copy, Debug, PartialEq, Eq, Structural)]
pub enum Grip {
    /// The outline: the block moves as a whole.
    Move,
    /// The handle above the frame: the block turns about its centre.
    Rotate,
    TopLeft,
    Top,
    TopRight,
    Right,
    BottomRight,
    Bottom,
    BottomLeft,
    Left,
}

/// The mouse cursors that every platform shows.
#[derive(Clone, Copy, Debug, PartialEq, Eq, Structural)]
pub enum Cursor {
    PointingHand,
    Crosshair,
    ResizeLeftRight,
    ResizeUpDown,
    IBeam,
}

impl Grip {
    pub open spec fn pulls_left(self) -> bool {
        self == Grip::TopLeft || self == Grip::Left || self == Grip::BottomLeft
    }

    pub open spec fn pulls_right(self) -> bool {
        self == Grip::TopRight || self == Grip::Right || self == Grip::BottomRight
    }

    pub open spec fn pulls_top(self) -> bool {
        self == Grip::TopLeft || self == Grip::Top || self == Grip::TopRight
    }

    pub open spec fn pulls_bottom(self) -> bool {
        self == Grip::BottomLeft || self == Grip::Bottom || self == Grip::BottomRight
    }

    /// All grips that change the size, clockwise from the top left one.
    pub fn resize_grips() -> (r: [Grip; 8])
        ensures
            r@ == seq![
                Grip::TopLeft,
                Grip::Top,
                Grip::TopRight,
                Grip::Right,
                Grip::BottomRight,
                Grip::Bottom,
                Grip::BottomLeft,
                Grip::Left,
            ],
    {
        [
            Grip::TopLeft,
            Grip::Top,
            Grip::TopRight,
            Grip::Right,
            Grip::BottomRight,
            Grip::Bottom,
            Grip::BottomLeft,
            Grip::Left,
        ]
    }

    /// The cursor over this part of the frame: an arrow along the axis of a
    /// side, a cross where both axes move, a hand on the outline.
    pub fn cursor(self) -> (r: Cursor)
        ensures
            r == Cursor::PointingHand <==> self == Grip::Move,
            r == Cursor::ResizeLeftRight <==> self == Grip::Left || self == Grip::Right,
            r == Cursor::ResizeUpDown <==> self == Grip::Top || self == Grip::Bottom,
            r == Cursor::Crosshair <==> self == Grip::Rotate || ((self.pulls_left()
                || self.pulls_right()) && (self.pulls_top() || self.pulls_bottom())),
    {
        match self {
            Grip::Move => Cursor::PointingHand,
            Grip::Rotate => Cursor::Crosshair,
            Grip::Left | Grip::Right => Cursor::ResizeLeftRight,
            Grip::Top | Grip::Bottom => Cursor::ResizeUpDown,
            _ => Cursor::Crosshair,
        }
    }

    pub fn moves_left(self) -> (r: bool)
        ensures
            r == self.pulls_left(),
    {
        matches!(self, Grip::TopLeft | Grip::Left | Grip::BottomLeft)
    }

    pub fn moves_right(self) -> (r: bool)
        ensures
            r == self.pulls_right(),
    {
        matches!(self, Grip::TopRight | Grip::Right | Grip::BottomRight)
    }

    pub fn moves_top(self) -> (r: bool)
        ensures
            r == self.pulls_top(),
    {
        matches!(self, Grip::TopLeft | Grip::Top | Grip::TopRight)
    }

    pub fn moves_bottom(self) -> (r: bool)
        ensures
            r == self.pulls_bottom(),
    {
        matches!(self, Grip::BottomLeft | Grip::Bottom | Grip::BottomRight)
    }
}

/// A drag of the frame that has begun.
#[derive(Clone, Copy, Debug, PartialEq, Eq, Structural)]
pub struct FrameDrag {
    pub grip: Grip,
    /// Where it was grabbed.
    pub origin: Spot,
    /// The frame when it was grabbed: every shift is measured from it, so
    /// nothing adds up on the way.
    pub start: Rect,
    /// The turn when it was grabbed, for the same reason.
    pub start_rotation: i64,
}

/// Where a drag takes the frame: the outline takes it along, a grip takes only
/// its own edges and no further than the smallest size.
pub open spec fn is_dragged(start: Rect, grip: Grip, dx: int, dy: int, to: Rect) -> bool {
    if grip == Grip::Move {
        start.is_moved(dx, -dy, to)
    } else {
        &&& to.left == if grip.pulls_left() {
            min_of(start.left + dx, start.right - MIN_WIDTH)
        } else {
            start.left as int
        }
        &&& to.right == if grip.pulls_right() {
            max_of(start.right + dx, start.left + MIN_WIDTH)
        } else {
            start.right as int
        }
        &&& to.top == if grip.pulls_top() {
            max_of(start.top - dy, start.bottom + MIN_HEIGHT)
        } else {
            start.top as int
        }
        &&& to.bottom == if grip.pulls_bottom() {
            min_of(start.bottom - dy, start.top - MIN_HEIGHT)
        } else {
            start.bottom as int
        }
    }
}

/// The frame after the cursor moved by `dx` to the right and `dy` down.
pub fn dragged(start: Rect, grip: Grip, dx: Points, dy: Points) -> (r: Rect)
    requires
        start.is_sane(),
        sane(dx),
        sane(dy),
    ensures
        is_dragged(start, grip, dx as int, dy as int, r),
{
    let mut frame = start;
    if grip == Grip::Move {
        frame.left = start.left + dx;
        frame.right = start.right + dx;
        frame.top = start.top - dy;
        frame.bottom = start.bottom - dy;
        return frame;
    }
    if grip.moves_left() {
        frame.left = least(start.left + dx, start.right - MIN_WIDTH);
    }
    if grip.moves_right() {
        frame.right = greatest(start.right + dx, start.left + MIN_WIDTH);
    }
    if grip.moves_top() {
        frame.top = greatest(start.top - dy, start.bottom + MIN_HEIGHT);
    }
    if grip.moves_bottom() {
        frame.bottom = least(start.bottom - dy, start.top - MIN_HEIGHT);
    }
    frame
}

/// Every grip pulls its own edges after the cursor, downwards where the cursor goes
/// down, and leaves the others; an edge stops twelve points from the opposite one,
/// or eight from the one above or below it.
pub proof fn a_grip_pulls_its_own_edges(start: Rect, grip: Grip, dx: int, dy: int, to: Rect)
    requires
        is_dragged(start, grip, dx, dy, to),
    ensures
        ({
            let left = grip == Grip::TopLeft || grip == Grip::Left || grip == Grip::BottomLeft;
            let right = grip == Grip::TopRight || grip == Grip::Right || grip == Grip::BottomRight;
            let top = grip == Grip::TopLeft || grip == Grip::Top || grip == Grip::TopRight;
            let bottom = grip == Grip::BottomLeft || grip == Grip::Bottom || grip
                == Grip::BottomRight;
            let narrowest = 12 * POINT;
            let lowest = 8 * POINT;
            &&& grip == Grip::Move ==> to.left == start.left + dx && to.right == start.right + dx
                && to.top == start.top - dy && to.bottom == start.bottom - dy
            &&& grip == Grip::Rotate ==> to == start
            &&& left && start.left + dx <= start.right - narrowest ==> to.left == start.left + dx
            &&& left && start.left + dx > start.right - narrowest ==> to.left == start.right
                - narrowest
            &&& right && start.right + dx >= start.left + narrowest ==> to.right == start.right + dx
            &&& right && start.right + dx < start.left + narrowest ==> to.right == start.left
                + narrowest
            &&& top && start.top - dy >= start.bottom + lowest ==> to.top == start.top - dy
            &&& top && start.top - dy < start.bottom + lowest ==> to.top == start.bottom + lowest
            &&& bottom && start.bottom - dy <= start.top - lowest ==> to.bottom == start.bottom - dy
            &&& bottom && start.bottom - dy > start.top - lowest ==> to.bottom == start.top - lowest
            &&& grip != Grip::Move && !left ==> to.left == start.left
            &&& grip != Grip::Move && !right ==> to.right == start.right
            &&& grip != Grip::Move && !top ==> to.top == start.top
            &&& grip != Grip::Move && !bottom ==> to.bottom == start.bottom
        }),
{
}

/// Bringing the cursor back brings the frame back.
pub proof fn an_idle_drag_changes_nothing(start: Rect, grip: Grip, to: Rect)
    requires
        start.right - start.left >= MIN_WIDTH,
        start.top - start.bottom >= MIN_HEIGHT,
        is_dragged(start, grip, 0, 0, to),
    ensures
        to == start,
{
}

/// No drag makes a block smaller than the smallest size.
pub proof fn a_drag_keeps_the_smallest_size(start: Rect, grip: Grip, dx: int, dy: int, to: Rect)
    requires
        start.right - start.left >= MIN_WIDTH,
        start.top - start.bottom >= MIN_HEIGHT,
        is_dragged(start, grip, dx, dy, to),
    ensures
        to.right - to.left >= MIN_WIDTH,
        to.top - to.bottom >= MIN_HEIGHT,
        grip == Grip::Move ==> to.right - to.left == start.right - start.left && to.top - to.bottom
            == start.top - start.bottom,
        grip == Grip::Rotate ==> to == start,
{
}

/// A full turn, in the units of angles.
pub const TURN: i64 = 360 * 0x100_0000;

/// An angle is brought into the half-open range of half a turn to each side.
pub open spec fn is_normal(angle: int, r: int) -> bool {
    &&& -TURN < 2 * r <= TURN
    &&& (angle - r) % (TURN as int) == 0
}

/// Brings an angle, in degrees, into the range from minus a hundred and eighty
/// to a hundred and eighty.
pub fn normalise(degrees: i64) -> (r: i64)
    ensures
        is_normal(degrees as int, r as int),
{
    let wrapped: i64 = if degrees >= 0 {
        degrees % TURN
    } else if degrees % TURN == 0 {
        0
    } else {
        degrees % TURN + TURN
    };
    assert(wrapped == degrees as int % TURN as int);
    if wrapped > TURN / 2 {
        assert((degrees - (wrapped - TURN)) % (TURN as int) == 0);
        wrapped - TURN
    } else {
        assert((degrees - wrapped) % (TURN as int) == 0);
        wrapped
    }
}

/// The turn of a block while its handle is dragged.
///
/// `from` and `to` are the directions from the centre to where the handle was
/// grabbed and to where it is; a point on the centre has none. Only the
/// difference counts, so the block does not jump when the handle is grabbed.
pub fn rotated(start_rotation: i64, from: Option<i64>, to: Option<i64>) -> (r: i64)
    requires
        sane(start_rotation),
        from matches Some(angle) ==> sane(angle),
        to matches Some(angle) ==> sane(angle),
    ensures
        from is None || to is None ==> r == start_rotation,
        from is Some && to is Some ==> is_normal(start_rotation + to->0 - from->0, r as int),
{
    match (from, to) {
        (Some(from), Some(to)) => normalise(start_rotation + to - from),
        _ => start_rotation,
    }
}

/// A normal angle lies between minus a hundred and eighty degrees and a hundred and
/// eighty, and differs from the angle by full turns.
pub proof fn a_normal_angle_is_the_same_turn(angle: int, r: int)
    requires
        is_normal(angle, r),
    ensures
        -180 * POINT < r <= 180 * POINT,
        angle == r + 360 * POINT * ((angle - r) / (360 * POINT)),
{
    vstd::arithmetic::div_mod::lemma_fundamental_div_mod(angle - r, 360 * POINT);
}

/// An angle has one normal form.
pub proof fn normal_angles_are_unique(angle: int, a: int, b: int)
    requires
        is_normal(angle, a),
        is_normal(angle, b),
    ensures
        a == b,
{
    let turn = TURN as int;
    assert((b - a) % turn == 0) by {
        vstd::arithmetic::div_mod::lemma_sub_mod_noop(angle - a, angle - b, turn);
    }
    assert(-turn < b - a < turn);
}

/// A line that shows what the frame is level with.
#[derive(Clone, Copy, Debug, PartialEq, Eq, Structural)]
pub enum Guide {
    /// Vertical, at this abscissa.
    Vertical(Points),
    /// Horizontal, at this ordinate.
    Horizontal(Points),
}

/// The pair of one own and one foreign line that are nearest to each other
/// within the tolerance, the first such pair where several are.
pub open spec fn is_nearest(
    own: Seq<Points>,
    targets: Seq<Points>,
    tolerance: Points,
    best: Option<(Points, Points)>,
) -> bool {
    match best {
        None => forall|i: int, j: int|
            0 <= i < own.len() && 0 <= j < targets.len() ==> abs_of(
                #[trigger] targets[j] - #[trigger] own[i],
            ) > tolerance,
        Some((delta, line)) => {
            &&& abs_of(delta as int) <= tolerance
            &&& exists|i: int, j: int|
                {
                    &&& 0 <= i < own.len()
                    &&& 0 <= j < targets.len()
                    &&& line == #[trigger] targets[j]
                    &&& delta == line - #[trigger] own[i]
                    &&& first_of(own, targets, abs_of(delta as int), i, j)
                }
        },
    }
}

/// No pair is nearer than `distance`, and none in front of the given one is as
/// near.
pub open spec fn first_of(
    own: Seq<Points>,
    targets: Seq<Points>,
    distance: int,
    i: int,
    j: int,
) -> bool {
    forall|a: int, b: int|
        0 <= a < own.len() && 0 <= b < targets.len() ==> {
            &&& abs_of(#[trigger] targets[b] - #[trigger] own[a]) >= distance
            &&& a < i || (a == i && b < j) ==> abs_of(targets[b] - own[a]) > distance
        }
}

pub open spec fn all_sane(lines: Seq<Points>) -> bool {
    forall|i: int| 0 <= i < lines.len() ==> sane(#[trigger] lines[i])
}

/// The nearest pair of an own and a foreign line: how far to move, and where
/// the guide goes.
pub fn nearest(own: &Vec<Points>, targets: &Vec<Points>, tolerance: Points) -> (r: Option<
    (Points, Points),
>)
    requires
        all_sane(own@),
        all_sane(targets@),
    ensures
        is_nearest(own@, targets@, tolerance, r),
{
    let mut best: Option<(Points, Points)> = None;
    let ghost mut at: (int, int) = (0, 0);
    let mut i: usize = 0;
    while i < own.len()
        invariant
            i <= own@.len(),
            all_sane(own@),
            all_sane(targets@),
            best_so_far(own@, targets@, tolerance, best, at, i as int, 0),
        decreases own@.len() - i,
    {
        let mut j: usize = 0;
        while j < targets.len()
            invariant
                i < own@.len(),
                j <= targets@.len(),
                all_sane(own@),
                all_sane(targets@),
                best_so_far(own@, targets@, tolerance, best, at, i as int, j as int),
            decreases targets@.len() - j,
        {
            let delta: Points = targets[j] - own[i];
            let distance: Points = if delta >= 0 {
                delta
            } else {
                -delta
            };
            let nearer = match best {
                None => true,
                Some((current, _)) => distance < if current >= 0 {
                    current
                } else {
                    -current
                },
            };
            if distance <= tolerance && nearer {
                best = Some((delta, targets[j]));
                proof {
                    at = (i as int, j as int);
                }
            }
            j = j + 1;
        }
        i = i + 1;
    }
    best
}

/// What is known of the best pair after the pairs in front of `(i, j)`.
spec fn best_so_far(
    own: Seq<Points>,
    targets: Seq<Points>,
    tolerance: Points,
    best: Option<(Points, Points)>,
    at: (int, int),
    i: int,
    j: int,
) -> bool {
    match best {
        None => forall|a: int, b: int|
            0 <= a < own.len() && 0 <= b < targets.len() && (a < i || (a == i && b < j))
                ==> abs_of(#[trigger] targets[b] - #[trigger] own[a]) > tolerance,
        Some((delta, line)) => {
            &&& abs_of(delta as int) <= tolerance
            &&& sane(line)
            &&& -2 * crate::geometry::LIMIT <= delta <= 2 * crate::geometry::LIMIT
            &&& 0 <= at.0 < own.len()
            &&& 0 <= at.1 < targets.len()
            &&& at.0 < i || (at.0 == i && at.1 < j)
            &&& line == targets[at.1]
            &&& delta == line - own[at.0]
            &&& forall|a: int, b: int|
                0 <= a < own.len() && 0 <= b < targets.len() && (a < i || (a == i && b < j)) ==> {
                    &&& abs_of(#[trigger] targets[b] - #[trigger] own[a]) >= abs_of(delta as int)
                    &&& a < at.0 || (a == at.0 && b < at.1) ==> abs_of(targets[b] - own[a])
                        > abs_of(delta as int)
                }
        },
    }
}

/// The vertical lines of the frame that a grip moves.
pub open spec fn own_verticals(frame: Rect, grip: Grip) -> Seq<Points> {
    if grip == Grip::Move {
        seq![frame.left, frame.middle_x() as i64, frame.right]
    } else if grip.pulls_left() {
        seq![frame.left]
    } else if grip.pulls_right() {
        seq![frame.right]
    } else {
        Seq::empty()
    }
}

/// The horizontal lines of the frame that a grip moves.
pub open spec fn own_horizontals(frame: Rect, grip: Grip) -> Seq<Points> {
    if grip == Grip::Move {
        seq![frame.top, frame.middle_y() as i64, frame.bottom]
    } else if grip.pulls_top() {
        seq![frame.top]
    } else if grip.pulls_bottom() {
        seq![frame.bottom]
    } else {
        Seq::empty()
    }
}

/// The edges and the middles of the neighbours, from left to right.
pub open spec fn verticals(targets: Seq<Rect>) -> Seq<Points>
    decreases targets.len(),
{
    if targets.len() == 0 {
        Seq::empty()
    } else {
        let last = targets.last();
        verticals(targets.drop_last()) + seq![last.left, last.middle_x() as i64, last.right]
    }
}

/// The edges and the middles of the neighbours, from top to bottom.
pub open spec fn horizontals(targets: Seq<Rect>) -> Seq<Points>
    decreases targets.len(),
{
    if targets.len() == 0 {
        Seq::empty()
    } else {
        let last = targets.last();
        horizontals(targets.drop_last()) + seq![last.top, last.middle_y() as i64, last.bottom]
    }
}

/// The frame moved by what was found across and along the page.
pub open spec fn is_pulled(
    frame: Rect,
    grip: Grip,
    across: Option<(Points, Points)>,
    along: Option<(Points, Points)>,
    to: Rect,
) -> bool {
    let dx = match across {
        Some((delta, _)) => delta as int,
        None => 0,
    };
    let dy = match along {
        Some((delta, _)) => delta as int,
        None => 0,
    };
    if grip == Grip::Move {
        frame.is_moved(dx, dy, to)
    } else {
        &&& to.left == if across is Some && grip.pulls_left() {
            min_of(frame.left + dx, frame.right - MIN_WIDTH)
        } else {
            frame.left as int
        }
        &&& to.right == if across is Some && grip.pulls_right() {
            max_of(frame.right + dx, frame.left + MIN_WIDTH)
        } else {
            frame.right as int
        }
        &&& to.top == if along is Some && grip.pulls_top() {
            max_of(frame.top + dy, frame.bottom + MIN_HEIGHT)
        } else {
            frame.top as int
        }
        &&& to.bottom == if along is Some && grip.pulls_bottom() {
            min_of(frame.bottom + dy, frame.top - MIN_HEIGHT)
        } else {
            frame.bottom as int
        }
    }
}

/// Whether the edge that a grip pulls sideways came to stand on a line. A moved
/// frame always does; an edge stops short of it where the frame would get too
/// narrow.
pub open spec fn level_across(grip: Grip, to: Rect, line: Points) -> bool {
    grip == Grip::Move || (grip.pulls_left() && to.left == line) || (grip.pulls_right() && to.right
        == line)
}

/// Whether the edge that a grip pulls up or down came to stand on a line.
pub open spec fn level_along(grip: Grip, to: Rect, line: Points) -> bool {
    grip == Grip::Move || (grip.pulls_top() && to.top == line) || (grip.pulls_bottom() && to.bottom
        == line)
}

/// The guides of what was found, where the frame is level with it.
pub open spec fn guides_of(
    grip: Grip,
    across: Option<(Points, Points)>,
    along: Option<(Points, Points)>,
    to: Rect,
) -> Seq<Guide> {
    let vertical = match across {
        Some((_, line)) => if level_across(grip, to, line) {
            seq![Guide::Vertical(line)]
        } else {
            Seq::empty()
        },
        None => Seq::empty(),
    };
    let horizontal = match along {
        Some((_, line)) => if level_along(grip, to, line) {
            seq![Guide::Horizontal(line)]
        } else {
            Seq::empty()
        },
        None => Seq::empty(),
    };
    vertical + horizontal
}

/// What lining up makes of a frame.
pub open spec fn is_snapped(
    frame: Rect,
    grip: Grip,
    targets: Seq<Rect>,
    tolerance: Points,
    to: Rect,
    guides: Seq<Guide>,
) -> bool {
    if grip == Grip::Rotate || targets.len() == 0 || tolerance <= 0 {
        to == frame && guides == Seq::<Guide>::empty()
    } else {
        exists|across: Option<(Points, Points)>, along: Option<(Points, Points)>|
            {
                &&& #[trigger] is_nearest(
                    own_verticals(frame, grip),
                    verticals(targets),
                    tolerance,
                    across,
                )
                &&& #[trigger] is_nearest(
                    own_horizontals(frame, grip),
                    horizontals(targets),
                    tolerance,
                    along,
                )
                &&& is_pulled(frame, grip, across, along, to)
                &&& guides == guides_of(grip, across, along, to)
            }
    }
}

pub open spec fn all_sane_rects(rects: Seq<Rect>) -> bool {
    forall|i: int| 0 <= i < rects.len() ==> (#[trigger] rects[i]).is_sane()
}

/// The vertical and the horizontal lines of the neighbours.
fn lines_of(targets: &[Rect]) -> (r: (Vec<Points>, Vec<Points>))
    requires
        all_sane_rects(targets@),
    ensures
        r.0@ == verticals(targets@),
        r.1@ == horizontals(targets@),
        all_sane(r.0@),
        all_sane(r.1@),
{
    let mut across: Vec<Points> = Vec::new();
    let mut along: Vec<Points> = Vec::new();
    let mut i: usize = 0;
    assert(targets@.take(0) == Seq::<Rect>::empty());
    while i < targets.len()
        invariant
            i <= targets@.len(),
            all_sane_rects(targets@),
            across@ == verticals(targets@.take(i as int)),
            along@ == horizontals(targets@.take(i as int)),
            all_sane(across@),
            all_sane(along@),
        decreases targets@.len() - i,
    {
        let ghost next = targets@.take(i + 1);
        assert(next.drop_last() == targets@.take(i as int));
        assert(next.last() == targets@[i as int]);
        let r = targets[i];
        across.push(r.left);
        across.push(r.center_x());
        across.push(r.right);
        along.push(r.top);
        along.push(r.center_y());
        along.push(r.bottom);
        assert(across@ == verticals(next));
        assert(along@ == horizontals(next));
        i = i + 1;
    }
    assert(targets@.take(targets@.len() as int) == targets@);
    (across, along)
}

/// The lines of the frame that a grip moves.
fn own_lines(frame: Rect, grip: Grip) -> (r: (Vec<Points>, Vec<Points>))
    requires
        frame.is_sane(),
    ensures
        r.0@ == own_verticals(frame, grip),
        r.1@ == own_horizontals(frame, grip),
        all_sane(r.0@),
        all_sane(r.1@),
{
    let mut across: Vec<Points> = Vec::new();
    let mut along: Vec<Points> = Vec::new();
    if grip == Grip::Move {
        across.push(frame.left);
        across.push(frame.center_x());
        across.push(frame.right);
        along.push(frame.top);
        along.push(frame.center_y());
        along.push(frame.bottom);
    } else {
        if grip.moves_left() {
            across.push(frame.left);
        } else if grip.moves_right() {
            across.push(frame.right);
        }
        if grip.moves_top() {
            along.push(frame.top);
        } else if grip.moves_bottom() {
            along.push(frame.bottom);
        }
    }
    (across, along)
}

/// Lines the frame up with the edges and the middles of its neighbours.
///
/// Only what is being dragged is moved: the whole frame, or the one edge.
pub fn snap(frame: Rect, grip: Grip, targets: &[Rect], tolerance: Points) -> (r: (
    Rect,
    Vec<Guide>,
))
    requires
        frame.is_sane(),
        all_sane_rects(targets@),
        sane(tolerance),
    ensures
        is_snapped(frame, grip, targets@, tolerance, r.0, r.1@),
{
    if grip == Grip::Rotate || targets.len() == 0 || tolerance <= 0 {
        return (frame, Vec::new());
    }
    let (vertical, horizontal) = lines_of(targets);
    let (own_x, own_y) = own_lines(frame, grip);
    let across = nearest(&own_x, &vertical, tolerance);
    let along = nearest(&own_y, &horizontal, tolerance);
    let mut guides: Vec<Guide> = Vec::new();
    let mut snapped = frame;
    if let Some((delta, line)) = across {
        if grip == Grip::Move {
            snapped.left = frame.left + delta;
            snapped.right = frame.right + delta;
        } else if grip.moves_left() {
            snapped.left = least(frame.left + delta, frame.right - MIN_WIDTH);
        } else {
            snapped.right = greatest(frame.right + delta, frame.left + MIN_WIDTH);
        }
        let edge: Points = if grip.moves_left() {
            snapped.left
        } else {
            snapped.right
        };
        if grip == Grip::Move || edge == line {
            guides.push(Guide::Vertical(line));
        }
    }
    if let Some((delta, line)) = along {
        if grip == Grip::Move {
            snapped.top = frame.top + delta;
            snapped.bottom = frame.bottom + delta;
        } else if grip.moves_top() {
            snapped.top = greatest(frame.top + delta, frame.bottom + MIN_HEIGHT);
        } else {
            snapped.bottom = least(frame.bottom + delta, frame.top - MIN_HEIGHT);
        }
        let edge: Points = if grip.moves_top() {
            snapped.top
        } else {
            snapped.bottom
        };
        if grip == Grip::Move || edge == line {
            guides.push(Guide::Horizontal(line));
        }
    }
    assert(guides@ == guides_of(grip, across, along, snapped));
    assert(is_nearest(own_verticals(frame, grip), verticals(targets@), tolerance, across));
    assert(is_nearest(own_horizontals(frame, grip), horizontals(targets@), tolerance, along));
    assert(is_pulled(frame, grip, across, along, snapped));
    (snapped, guides)
}

/// Whether the frame stands on a line of a guide with an edge or its middle.
pub open spec fn is_level(frame: Rect, guide: Guide) -> bool {
    match guide {
        Guide::Vertical(line) => line == frame.left || line == frame.middle_x() || line
            == frame.right,
        Guide::Horizontal(line) => line == frame.top || line == frame.middle_y() || line
            == frame.bottom,
    }
}

/// A guide is shown only while the frame is level with what it shows.
pub proof fn guides_show_what_the_frame_is_level_with(
    frame: Rect,
    grip: Grip,
    targets: Seq<Rect>,
    tolerance: Points,
    to: Rect,
    guides: Seq<Guide>,
)
    requires
        frame.is_sane(),
        is_snapped(frame, grip, targets, tolerance, to, guides),
    ensures
        guides.len() <= 2,
        forall|i: int| 0 <= i < guides.len() ==> is_level(to, #[trigger] guides[i]),
        forall|i: int|
            0 <= i < guides.len() ==> match #[trigger] guides[i] {
                Guide::Vertical(line) => verticals(targets).contains(line),
                Guide::Horizontal(line) => horizontals(targets).contains(line),
            },
{
}

/// Lining up moves nothing but what is dragged: a moved frame keeps its size
/// and goes no further than the tolerance, and a grip leaves the other edges
/// where they are.
pub proof fn snapping_moves_only_what_is_dragged(
    frame: Rect,
    grip: Grip,
    targets: Seq<Rect>,
    tolerance: Points,
    to: Rect,
    guides: Seq<Guide>,
)
    requires
        tolerance >= 0,
        is_snapped(frame, grip, targets, tolerance, to, guides),
    ensures
        grip == Grip::Move ==> {
            &&& to.right - to.left == frame.right - frame.left
            &&& to.top - to.bottom == frame.top - frame.bottom
            &&& abs_of(to.left - frame.left) <= tolerance
            &&& abs_of(to.top - frame.top) <= tolerance
        },
        grip == Grip::Rotate ==> to == frame && guides.len() == 0,
        grip != Grip::Move && !grip.pulls_left() ==> to.left == frame.left,
        grip != Grip::Move && !grip.pulls_right() ==> to.right == frame.right,
        grip != Grip::Move && !grip.pulls_top() ==> to.top == frame.top,
        grip != Grip::Move && !grip.pulls_bottom() ==> to.bottom == frame.bottom,
        targets.len() == 0 ==> to == frame && guides.len() == 0,
{
}

/// The lines of the `t`-th neighbour are among those that a frame is lined up with.
proof fn lemma_lines(targets: Seq<Rect>, t: int)
    requires
        0 <= t < targets.len(),
    ensures
        verticals(targets).len() == 3 * targets.len(),
        verticals(targets)[3 * t] == targets[t].left,
        verticals(targets)[3 * t + 1] == targets[t].middle_x() as i64,
        verticals(targets)[3 * t + 2] == targets[t].right,
        horizontals(targets).len() == 3 * targets.len(),
        horizontals(targets)[3 * t] == targets[t].top,
        horizontals(targets)[3 * t + 1] == targets[t].middle_y() as i64,
        horizontals(targets)[3 * t + 2] == targets[t].bottom,
    decreases targets.len(),
{
    let head = targets.drop_last();
    if t < head.len() {
        lemma_lines(head, t);
        assert(head[t] == targets[t]);
    } else if head.len() > 0 {
        lemma_lines(head, 0);
    } else {
        assert(verticals(head).len() == 0 && horizontals(head).len() == 0);
    }
}

/// A frame that is moved goes to the nearest line of a neighbour within reach, its
/// edges and its middle to the edges and the middle of the neighbour: of no pair is
/// the way shorter, where there is one in reach the frame stands on it and a guide
/// shows it, and where there is none the frame stays.
pub proof fn a_moved_frame_is_lined_up_with_the_nearest(
    frame: Rect,
    targets: Seq<Rect>,
    tolerance: Points,
    to: Rect,
    guides: Seq<Guide>,
    t: int,
    own: Points,
    line: Points,
)
    requires
        frame.is_sane(),
        all_sane_rects(targets),
        tolerance > 0,
        is_snapped(frame, Grip::Move, targets, tolerance, to, guides),
        0 <= t < targets.len(),
    ensures
        (own == frame.left || own == (frame.left + frame.right) / 2 || own == frame.right) && (line
            == targets[t].left || line == (targets[t].left + targets[t].right) / 2 || line
            == targets[t].right) && -tolerance <= line - own <= tolerance ==> {
            &&& abs_of(to.left - frame.left) <= abs_of(line - own)
            &&& exists|i: int| 0 <= i < guides.len() && (#[trigger] guides[i]) is Vertical
        },
        (own == frame.top || own == (frame.top + frame.bottom) / 2 || own == frame.bottom) && (line
            == targets[t].top || line == (targets[t].top + targets[t].bottom) / 2 || line
            == targets[t].bottom) && -tolerance <= line - own <= tolerance ==> {
            &&& abs_of(to.top - frame.top) <= abs_of(line - own)
            &&& exists|i: int| 0 <= i < guides.len() && (#[trigger] guides[i]) is Horizontal
        },
        to.left != frame.left ==> exists|i: int|
            0 <= i < guides.len() && (#[trigger] guides[i]) is Vertical,
        to.top != frame.top ==> exists|i: int|
            0 <= i < guides.len() && (#[trigger] guides[i]) is Horizontal,
{
    let (across, along) = choose|across: Option<(Points, Points)>, along: Option<(Points, Points)>|
        {
            &&& #[trigger] is_nearest(
                own_verticals(frame, Grip::Move),
                verticals(targets),
                tolerance,
                across,
            )
            &&& #[trigger] is_nearest(
                own_horizontals(frame, Grip::Move),
                horizontals(targets),
                tolerance,
                along,
            )
            &&& is_pulled(frame, Grip::Move, across, along, to)
            &&& guides == guides_of(Grip::Move, across, along, to)
        };
    if across is Some {
        assert(guides[0] is Vertical);
    }
    if along is Some {
        assert(guides[guides.len() - 1] is Horizontal);
    }
    lemma_nearest_across(frame, targets, tolerance, across, t, own, line);
    lemma_nearest_along(frame, targets, tolerance, along, t, own, line);
}

/// No vertical line of a neighbour is nearer to the frame than the one that is found.
proof fn lemma_nearest_across(
    frame: Rect,
    targets: Seq<Rect>,
    tolerance: Points,
    across: Option<(Points, Points)>,
    t: int,
    own: Points,
    line: Points,
)
    requires
        frame.is_sane(),
        all_sane_rects(targets),
        0 <= t < targets.len(),
        is_nearest(own_verticals(frame, Grip::Move), verticals(targets), tolerance, across),
    ensures
        (own == frame.left || own == (frame.left + frame.right) / 2 || own == frame.right) && (line
            == targets[t].left || line == (targets[t].left + targets[t].right) / 2 || line
            == targets[t].right) && -tolerance <= line - own <= tolerance ==> across is Some
            && abs_of((across->0).0 as int) <= abs_of(line - own),
{
    lemma_lines(targets, t);
    assert(targets[t].is_sane());
    let x = own_verticals(frame, Grip::Move);
    let v = verticals(targets);
    if (own == frame.left || own == (frame.left + frame.right) / 2 || own == frame.right) && (line
        == targets[t].left || line == (targets[t].left + targets[t].right) / 2 || line
        == targets[t].right) && -tolerance <= line - own <= tolerance {
        let i: int = if own == frame.left {
            0
        } else if own == frame.right {
            2
        } else {
            1
        };
        let j: int = if line == targets[t].left {
            3 * t
        } else if line == targets[t].right {
            3 * t + 2
        } else {
            3 * t + 1
        };
        assert(x[i] == own && v[j] == line);
        assert(abs_of(v[j] - x[i]) <= tolerance);
    }
}

/// No horizontal line of a neighbour is nearer to the frame than the one that is found.
proof fn lemma_nearest_along(
    frame: Rect,
    targets: Seq<Rect>,
    tolerance: Points,
    along: Option<(Points, Points)>,
    t: int,
    own: Points,
    line: Points,
)
    requires
        frame.is_sane(),
        all_sane_rects(targets),
        0 <= t < targets.len(),
        is_nearest(own_horizontals(frame, Grip::Move), horizontals(targets), tolerance, along),
    ensures
        (own == frame.top || own == (frame.top + frame.bottom) / 2 || own == frame.bottom) && (line
            == targets[t].top || line == (targets[t].top + targets[t].bottom) / 2 || line
            == targets[t].bottom) && -tolerance <= line - own <= tolerance ==> along is Some
            && abs_of((along->0).0 as int) <= abs_of(line - own),
{
    lemma_lines(targets, t);
    assert(targets[t].is_sane());
    let y = own_horizontals(frame, Grip::Move);
    let h = horizontals(targets);
    if (own == frame.top || own == (frame.top + frame.bottom) / 2 || own == frame.bottom) && (line
        == targets[t].top || line == (targets[t].top + targets[t].bottom) / 2 || line
        == targets[t].bottom) && -tolerance <= line - own <= tolerance {
        let i: int = if own == frame.top {
            0
        } else if own == frame.bottom {
            2
        } else {
            1
        };
        let j: int = if line == targets[t].top {
            3 * t
        } else if line == targets[t].bottom {
            3 * t + 2
        } else {
            3 * t + 1
        };
        assert(y[i] == own && h[j] == line);
        assert(abs_of(h[j] - y[i]) <= tolerance);
    }
}

/// An edge that is pulled goes to the nearest line of a neighbour within reach,
/// unless the frame would get too small.
pub proof fn a_pulled_edge_is_lined_up_with_the_nearest(
    frame: Rect,
    grip: Grip,
    targets: Seq<Rect>,
    tolerance: Points,
    to: Rect,
    guides: Seq<Guide>,
    t: int,
    line: Points,
)
    requires
        frame.is_sane(),
        all_sane_rects(targets),
        tolerance > 0,
        grip != Grip::Move && grip != Grip::Rotate,
        frame.right - frame.left >= MIN_WIDTH,
        frame.top - frame.bottom >= MIN_HEIGHT,
        is_snapped(frame, grip, targets, tolerance, to, guides),
        0 <= t < targets.len(),
    ensures
        line == targets[t].left || line == (targets[t].left + targets[t].right) / 2 || line
            == targets[t].right ==> {
            &&& (grip == Grip::Left || grip == Grip::TopLeft || grip == Grip::BottomLeft)
                && -tolerance <= line - frame.left <= tolerance ==> abs_of(to.left - frame.left)
                <= abs_of(line - frame.left)
            &&& (grip == Grip::Right || grip == Grip::TopRight || grip == Grip::BottomRight)
                && -tolerance <= line - frame.right <= tolerance ==> abs_of(to.right - frame.right)
                <= abs_of(line - frame.right)
        },
        line == targets[t].top || line == (targets[t].top + targets[t].bottom) / 2 || line
            == targets[t].bottom ==> {
            &&& (grip == Grip::Top || grip == Grip::TopLeft || grip == Grip::TopRight) && -tolerance
                <= line - frame.top <= tolerance ==> abs_of(to.top - frame.top) <= abs_of(
                line - frame.top,
            )
            &&& (grip == Grip::Bottom || grip == Grip::BottomLeft || grip == Grip::BottomRight)
                && -tolerance <= line - frame.bottom <= tolerance ==> abs_of(
                to.bottom - frame.bottom,
            ) <= abs_of(line - frame.bottom)
        },
        abs_of(to.left - frame.left) <= tolerance,
        abs_of(to.right - frame.right) <= tolerance,
        abs_of(to.top - frame.top) <= tolerance,
        abs_of(to.bottom - frame.bottom) <= tolerance,
{
    lemma_lines(targets, t);
    assert(targets[t].is_sane());
    let (across, along) = choose|across: Option<(Points, Points)>, along: Option<(Points, Points)>|
        {
            &&& #[trigger] is_nearest(
                own_verticals(frame, grip),
                verticals(targets),
                tolerance,
                across,
            )
            &&& #[trigger] is_nearest(
                own_horizontals(frame, grip),
                horizontals(targets),
                tolerance,
                along,
            )
            &&& is_pulled(frame, grip, across, along, to)
            &&& guides == guides_of(grip, across, along, to)
        };
    let x = own_verticals(frame, grip);
    let y = own_horizontals(frame, grip);
    let v = verticals(targets);
    let h = horizontals(targets);
    if x.len() > 0 && (line == targets[t].left || line == (targets[t].left + targets[t].right) / 2
        || line == targets[t].right) {
        let j: int = if line == targets[t].left {
            3 * t
        } else if line == targets[t].right {
            3 * t + 2
        } else {
            3 * t + 1
        };
        assert(v[j] == line);
        assert(abs_of(v[j] - x[0]) == abs_of(line - x[0]));
    }
    if y.len() > 0 && (line == targets[t].top || line == (targets[t].top + targets[t].bottom) / 2
        || line == targets[t].bottom) {
        let j: int = if line == targets[t].top {
            3 * t
        } else if line == targets[t].bottom {
            3 * t + 2
        } else {
            3 * t + 1
        };
        assert(h[j] == line);
        assert(abs_of(h[j] - y[0]) == abs_of(line - y[0]));
    }
}

/// How a band picks blocks.
#[derive(Clone, Copy, Debug, PartialEq, Eq, Structural)]
pub enum BandMode {
    /// Drawn from left to right: only what lies wholly inside.
    Window,
    /// Drawn from right to left: whatever the band touches.
    Crossing,
}

impl BandMode {
    /// The mode by the direction in which the band was drawn.
    pub fn from_drag(start_x: Points, end_x: Points) -> (r: BandMode)
        ensures
            r == if end_x >= start_x {
                BandMode::Window
            } else {
                BandMode::Crossing
            },
    {
        if end_x >= start_x {
            BandMode::Window
        } else {
            BandMode::Crossing
        }
    }

    /// Whether a band in this mode picks a block.
    pub open spec fn picks(self, band: Rect, block: Rect) -> bool {
        match self {
            BandMode::Window => block.inside(band),
            BandMode::Crossing => block.touches(band),
        }
    }
}

/// The indices of the picked blocks, in order.
pub open spec fn picked(band: Rect, mode: BandMode, blocks: Seq<Rect>) -> Seq<usize>
    decreases blocks.len(),
{
    if blocks.len() == 0 {
        Seq::empty()
    } else {
        let before = picked(band, mode, blocks.drop_last());
        if mode.picks(band, blocks.last()) {
            before.push((blocks.len() - 1) as usize)
        } else {
            before
        }
    }
}

/// Picks blocks with a band: their indices, in order.
pub fn blocks_in_band(band: Rect, mode: BandMode, blocks: &[Rect]) -> (r: Vec<usize>)
    ensures
        r@ == picked(band, mode, blocks@),
{
    let mut out: Vec<usize> = Vec::new();
    let mut i: usize = 0;
    assert(blocks@.take(0) == Seq::<Rect>::empty());
    while i < blocks.len()
        invariant
            i <= blocks@.len(),
            out@ == picked(band, mode, blocks@.take(i as int)),
        decreases blocks@.len() - i,
    {
        assert(blocks@.take(i + 1).drop_last() == blocks@.take(i as int));
        let block = blocks[i];
        let take = match mode {
            BandMode::Window => block.left >= band.left && block.right <= band.right
                && block.bottom >= band.bottom && block.top <= band.top,
            BandMode::Crossing => block.intersects(&band),
        };
        if take {
            out.push(i);
        }
        i = i + 1;
    }
    assert(blocks@.take(blocks@.len() as int) == blocks@);
    out
}

/// A block is picked just when its mode says so.
pub proof fn picked_blocks_are_those_in_the_band(
    band: Rect,
    mode: BandMode,
    blocks: Seq<Rect>,
    i: usize,
)
    requires
        blocks.len() <= usize::MAX,
        i < blocks.len(),
    ensures
        picked(band, mode, blocks).contains(i) <==> mode.picks(band, blocks[i as int]),
    decreases blocks.len(),
{
    let head = blocks.drop_last();
    let now = picked(band, mode, blocks);
    let before = picked(band, mode, head);
    lemma_picked_in_range(band, mode, head);
    if i < head.len() {
        picked_blocks_are_those_in_the_band(band, mode, head, i);
        if before.contains(i) {
            let k = choose|k: int| 0 <= k < before.len() && before[k] == i;
            assert(now[k] == i);
        }
    } else {
        if mode.picks(band, blocks.last()) {
            assert(now[now.len() - 1] == i);
        }
    }
}

pub(crate) proof fn lemma_picked_in_range(band: Rect, mode: BandMode, blocks: Seq<Rect>)
    requires
        blocks.len() <= usize::MAX,
    ensures
        forall|k: int|
            0 <= k < picked(band, mode, blocks).len() ==> #[trigger] picked(band, mode, blocks)[k]
                < blocks.len(),
    decreases blocks.len(),
{
    if blocks.len() > 0 {
        let head = blocks.drop_last();
        lemma_picked_in_range(band, mode, head);
        let now = picked(band, mode, blocks);
        assert forall|k: int| 0 <= k < now.len() implies #[trigger] now[k] < blocks.len() by {
            if k < picked(band, mode, head).len() {
                assert(now[k] == picked(band, mode, head)[k]);
            }
        }
    }
}

/// A window picks the blocks that lie wholly inside it, a crossing band those that
/// it touches; each comes once, and they come in the order of the blocks.
pub proof fn a_band_picks_what_it_holds_or_touches(
    band: Rect,
    mode: BandMode,
    blocks: Seq<Rect>,
    i: usize,
)
    requires
        blocks.len() <= usize::MAX,
        i < blocks.len(),
    ensures
        ({
            let b = blocks[i as int];
            let all = picked(band, mode, blocks);
            &&& mode == BandMode::Window ==> (all.contains(i) <==> band.left <= b.left && b.right
                <= band.right && band.bottom <= b.bottom && b.top <= band.top)
            &&& mode == BandMode::Crossing ==> (all.contains(i) <==> b.left <= band.right
                && band.left <= b.right && b.bottom <= band.top && band.bottom <= b.top)
            &&& forall|j: int, k: int|
                0 <= j < k < all.len() ==> #[trigger] all[j] < #[trigger] all[k]
        }),
{
    picked_blocks_are_those_in_the_band(band, mode, blocks, i);
    lemma_picked_in_order(band, mode, blocks);
}

proof fn lemma_picked_in_order(band: Rect, mode: BandMode, blocks: Seq<Rect>)
    requires
        blocks.len() <= usize::MAX,
    ensures
        forall|j: int, k: int|
            0 <= j < k < picked(band, mode, blocks).len() ==> #[trigger] picked(
                band,
                mode,
                blocks,
            )[j] < #[trigger] picked(band, mode, blocks)[k],
    decreases blocks.len(),
{
    if blocks.len() > 0 {
        let head = blocks.drop_last();
        lemma_picked_in_order(band, mode, head);
        lemma_picked_in_range(band, mode, head);
        let before = picked(band, mode, head);
        let now = picked(band, mode, blocks);
        assert forall|j: int, k: int| 0 <= j < k < now.len() implies #[trigger] now[j]
            < #[trigger] now[k] by {
            assert(now[j] == before[j]);
            if k < before.len() {
                assert(now[k] == before[k]);
            }
        }
    }
}

/// Whatever a window picks, a crossing band over the same place picks too.
pub proof fn a_crossing_band_picks_all_that_a_window_does(band: Rect, block: Rect)
    requires
        block.left <= block.right,
        block.bottom <= block.top,
        BandMode::Window.picks(band, block),
    ensures
        BandMode::Crossing.picks(band, block),
{
}

} // verus!
