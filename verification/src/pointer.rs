//! Presses, clicks and bands: from the mouse to places on a page.
use crate::document::Block;
use crate::frame::{blocks_in_band, picked, BandMode};
use crate::geometry::{greatest, least, max_of, min_of, near, Rect, Spot};
use crate::text_layout::{points, points_of, SMALLEST_SCALE};
use crate::units::{Points, POINT};
use vstd::prelude::*;

verus! {

/// A press that moved no further than this is a click.
pub const DRAG_THRESHOLD: i64 = 8 * 0x100_0000;

/// Whether a place is far enough from another to make a press a drag.
pub open spec fn far_apart(from: Spot, to: Spot) -> bool {
    ||| to.x - from.x > DRAG_THRESHOLD
    ||| from.x - to.x > DRAG_THRESHOLD
    ||| to.y - from.y > DRAG_THRESHOLD
    ||| from.y - to.y > DRAG_THRESHOLD
}

/// Whether a press has moved far enough to be a drag. A hand always trembles a
/// little: without a threshold every click would be a tiny band.
pub fn press_became_drag(from: Spot, to: Spot) -> (r: bool)
    requires
        from.is_near(),
        to.is_near(),
    ensures
        r == far_apart(from, to),
{
    to.x - from.x > DRAG_THRESHOLD || from.x - to.x > DRAG_THRESHOLD || to.y - from.y
        > DRAG_THRESHOLD || from.y - to.y > DRAG_THRESHOLD
}

/// The tool at hand.
#[derive(Clone, Copy, Debug, PartialEq, Eq, Structural)]
pub enum Tool {
    /// Selects and edits what is there.
    Cursor,
    /// A band drawn with it becomes a new block.
    Text,
}

/// A press whose meaning is decided when it is let go.
#[derive(Clone, Copy, Debug)]
pub struct PendingPress {
    pub page: u32,
    /// The block under the press, if any.
    pub block: Option<usize>,
    pub at: Spot,
}

/// The group is being dragged by one of its blocks.
#[derive(Clone, Copy, Debug)]
pub struct GroupDrag {
    pub page: u32,
    pub start: Spot,
    pub current: Spot,
}

/// A band that is being drawn.
#[derive(Clone, Copy, Debug)]
pub struct Rubber {
    pub page: u32,
    /// The block under the press. It is selected where the band picks nothing:
    /// the band was a click of an unsteady hand.
    pub block: Option<usize>,
    pub start: Spot,
    pub current: Spot,
}

impl Rubber {
    /// Whether the band is more than a trembling click.
    pub fn meaningful(&self) -> (r: bool)
        requires
            self.start.is_near(),
            self.current.is_near(),
        ensures
            r == far_apart(self.start, self.current),
    {
        press_became_drag(self.start, self.current)
    }
}

/// Whether a place is on a page of this size whose corner is at `origin`.
pub open spec fn on_page(origin: Spot, width: i64, height: i64, at: Spot) -> bool {
    &&& origin.x <= at.x <= origin.x + width
    &&& origin.y <= at.y <= origin.y + height
}

/// The first place, from the `i`-th on, whose page holds a point.
pub open spec fn holder(places: Seq<Spot>, width: i64, height: i64, at: Spot, i: int) -> int
    decreases places.len() - i,
{
    if i >= places.len() || on_page(places[i], width, height, at) {
        i
    } else {
        holder(places, width, height, at, i + 1)
    }
}

/// The corner of the page that a press belongs to.
pub open spec fn origin_of(places: Seq<Spot>, width: i64, height: i64, at: Spot) -> Option<Spot> {
    let i = holder(places, width, height, at, 0);
    if i < places.len() {
        Some(places[i])
    } else if places.len() > 0 {
        Some(places[0])
    } else {
        None
    }
}

/// The corner of a page in the window: the one whose page holds the press, for
/// a page may be laid out in more than one place. Where none does, the first.
pub fn origin_for(places: &Vec<Spot>, width: i64, height: i64, at: Spot) -> (r: Option<Spot>)
    requires
        forall|i: int| 0 <= i < places@.len() ==> (#[trigger] places@[i]).is_near(),
        near(width),
        near(height),
    ensures
        r == origin_of(places@, width, height, at),
{
    let mut i: usize = 0;
    while i < places.len()
        invariant
            forall|k: int| 0 <= k < places@.len() ==> (#[trigger] places@[k]).is_near(),
            near(width),
            near(height),
            i <= places@.len(),
            holder(places@, width, height, at, 0) == holder(places@, width, height, at, i as int),
        decreases places@.len() - i,
    {
        let origin = places[i];
        assert(places@[i as int].is_near());
        if at.x >= origin.x && at.x <= origin.x + width && at.y >= origin.y && at.y <= origin.y
            + height {
            return Some(origin);
        }
        i = i + 1;
    }
    if places.len() > 0 {
        Some(places[0])
    } else {
        None
    }
}

/// A place of the window on a page: the abscissa, and the ordinate from below.
pub open spec fn page_point(at: Spot, origin: Spot, page_height: Points, zoom: int) -> (int, int) {
    (points(at.x - origin.x, zoom), page_height - points(at.y - origin.y, zoom))
}

/// The zoom that is computed with.
pub open spec fn usable_zoom(zoom: i64) -> int {
    max_of(zoom as int, SMALLEST_SCALE as int)
}

/// The band on its page.
pub open spec fn band_of(
    start: Spot,
    current: Spot,
    origin: Spot,
    page_height: Points,
    zoom: i64,
) -> (Rect, BandMode) {
    let (x1, y1) = page_point(start, origin, page_height, usable_zoom(zoom));
    let (x2, y2) = page_point(current, origin, page_height, usable_zoom(zoom));
    (
        Rect {
            left: min_of(x1, x2) as i64,
            bottom: min_of(y1, y2) as i64,
            right: max_of(x1, x2) as i64,
            top: max_of(y1, y2) as i64,
        },
        if x2 >= x1 {
            BandMode::Window
        } else {
            BandMode::Crossing
        },
    )
}

/// A length in the window is not much longer on the page.
pub(crate) proof fn lemma_points_bounded(length: int, zoom: int)
    requires
        -0x20_0000_0000_0000 <= length <= 0x20_0000_0000_0000,
        zoom >= SMALLEST_SCALE,
    ensures
        -0xe00_0000_0000_0000 <= points(length, zoom) <= 0xe00_0000_0000_0000,
{
    let n = length * POINT;
    let q = points(length, zoom);
    vstd::arithmetic::div_mod::lemma_fundamental_div_mod(n, zoom);
    assert(0 <= n % zoom < zoom) by {
        vstd::arithmetic::div_mod::lemma_mod_bound(n, zoom);
    }
    assert(zoom * q <= n < zoom * q + zoom);
    if q >= 0 {
        assert(150_000 * q <= zoom * q) by (nonlinear_arith)
            requires
                q >= 0,
                zoom >= 150_000,
        ;
    } else {
        assert(zoom * (q + 1) == zoom * q + zoom) by (nonlinear_arith);
        assert(zoom * (q + 1) <= 150_000 * (q + 1)) by (nonlinear_arith)
            requires
                q + 1 <= 0,
                zoom >= 150_000,
        ;
    }
}

/// The band on its page, and how it picks.
pub fn rubber_band(
    rubber: &Rubber,
    origin: Spot,
    page_height: Points,
    zoom: i64,
) -> (r: (Rect, BandMode))
    requires
        rubber.start.is_near(),
        rubber.current.is_near(),
        origin.is_near(),
        near(page_height),
    ensures
        r == band_of(rubber.start, rubber.current, origin, page_height, zoom),
        r.0.left <= r.0.right,
        r.0.bottom <= r.0.top,
        r.0.is_sane(),
{
    let scale: i64 = greatest(zoom, SMALLEST_SCALE);
    proof {
        lemma_points_bounded(rubber.start.x - origin.x, scale as int);
        lemma_points_bounded(rubber.start.y - origin.y, scale as int);
        lemma_points_bounded(rubber.current.x - origin.x, scale as int);
        lemma_points_bounded(rubber.current.y - origin.y, scale as int);
    }
    let x1: Points = points_of(rubber.start.x - origin.x, scale);
    let y1: Points = page_height - points_of(rubber.start.y - origin.y, scale);
    let x2: Points = points_of(rubber.current.x - origin.x, scale);
    let y2: Points = page_height - points_of(rubber.current.y - origin.y, scale);
    (
        Rect::new(least(x1, x2), least(y1, y2), greatest(x1, x2), greatest(y1, y2)),
        BandMode::from_drag(x1, x2),
    )
}

/// The frames of blocks.
pub open spec fn frames_of(blocks: Seq<Block>) -> Seq<Rect> {
    Seq::new(blocks.len(), |i: int| blocks[i].bbox)
}

/// The frames of blocks.
pub fn block_frames(blocks: &Vec<Block>) -> (r: Vec<Rect>)
    ensures
        r@ == frames_of(blocks@),
{
    let mut out: Vec<Rect> = Vec::new();
    let mut i: usize = 0;
    while i < blocks.len()
        invariant
            i <= blocks@.len(),
            out@.len() == i,
            forall|k: int| 0 <= k < i ==> #[trigger] out@[k] == blocks@[k].bbox,
        decreases blocks@.len() - i,
    {
        out.push(blocks[i].bbox);
        i = i + 1;
    }
    assert(out@ == frames_of(blocks@));
    out
}

/// The blocks that a band would pick if it were let go now: none while it is
/// no more than a click, or while it draws a new block.
pub fn rubber_candidates(
    rubber: &Rubber,
    tool: Tool,
    band: Rect,
    mode: BandMode,
    blocks: &Vec<Block>,
) -> (r: Vec<usize>)
    requires
        rubber.start.is_near(),
        rubber.current.is_near(),
    ensures
        !far_apart(rubber.start, rubber.current) || tool == Tool::Text ==> r@.len() == 0,
        far_apart(rubber.start, rubber.current) && tool == Tool::Cursor ==> r@ == picked(
            band,
            mode,
            frames_of(blocks@),
        ),
{
    if !rubber.meaningful() || tool == Tool::Text {
        return Vec::new();
    }
    let frames = block_frames(blocks);
    blocks_in_band(band, mode, frames.as_slice())
}

/// A press that did not move is a click, in whichever direction one looks.
pub proof fn far_apart_either_way(a: Spot, b: Spot)
    ensures
        !far_apart(a, a),
        far_apart(a, b) == far_apart(b, a),
{
}

/// A length on the page is the length in the window, divided by the zoom and
/// rounded down.
pub(crate) proof fn lemma_points(length: int, zoom: int)
    requires
        zoom > 0,
    ensures
        points(length, zoom) * zoom <= length * POINT < (points(length, zoom) + 1) * zoom,
{
    let n = length * POINT;
    let q = points(length, zoom);
    vstd::arithmetic::div_mod::lemma_fundamental_div_mod(n, zoom);
    vstd::arithmetic::div_mod::lemma_mod_bound(n, zoom);
    assert(q * zoom == zoom * q && (q + 1) * zoom == zoom * q + zoom) by (nonlinear_arith);
}

/// A longer length in the window is not shorter on the page.
proof fn lemma_points_in_order(a: int, b: int, zoom: int)
    requires
        zoom > 0,
        a <= b,
    ensures
        points(a, zoom) <= points(b, zoom),
        (b - a) * POINT >= zoom ==> points(a, zoom) < points(b, zoom),
{
    let p = points(a, zoom);
    let q = points(b, zoom);
    lemma_points(a, zoom);
    lemma_points(b, zoom);
    if p > q {
        assert((q + 1) * zoom <= p * zoom) by (nonlinear_arith)
            requires
                q + 1 <= p,
                zoom > 0,
        ;
    }
    if (b - a) * POINT >= zoom && p >= q {
        assert((q + 1) * zoom <= p * zoom + zoom) by (nonlinear_arith)
            requires
                q <= p,
                zoom > 0,
        ;
    }
}

/// A press is a drag once it is more than eight pixels away, across or down.
pub proof fn a_hand_may_tremble(from: Spot, to: Spot)
    ensures
        far_apart(from, to) <==> !(-8 * POINT <= to.x - from.x <= 8 * POINT && -8 * POINT <= to.y
            - from.y <= 8 * POINT),
{
}

/// A band reaches from the one end of the drag to the other: on the page its
/// edges are where the mouse was in the window, to the rounding, and what is
/// lower in the window is lower on the page. Drawn to the right it picks what
/// it holds, and drawn to the left what it touches.
pub proof fn a_band_reaches_from_end_to_end(
    start: Spot,
    current: Spot,
    origin: Spot,
    page_height: Points,
    zoom: i64,
)
    requires
        start.is_near(),
        current.is_near(),
        origin.is_near(),
        near(page_height),
        zoom >= SMALLEST_SCALE,
    ensures
        ({
            let (band, mode) = band_of(start, current, origin, page_height, zoom);
            let left = if start.x <= current.x {
                start.x
            } else {
                current.x
            } - origin.x;
            let right = if start.x <= current.x {
                current.x
            } else {
                start.x
            } - origin.x;
            let upper = if start.y <= current.y {
                start.y
            } else {
                current.y
            } - origin.y;
            let lower = if start.y <= current.y {
                current.y
            } else {
                start.y
            } - origin.y;
            &&& band.left * zoom <= left * POINT < (band.left + 1) * zoom
            &&& band.right * zoom <= right * POINT < (band.right + 1) * zoom
            &&& (page_height - band.top) * zoom <= upper * POINT < (page_height - band.top + 1)
                * zoom
            &&& (page_height - band.bottom) * zoom <= lower * POINT < (page_height - band.bottom
                + 1) * zoom
            &&& start.x <= current.x ==> mode == BandMode::Window
            &&& (start.x - current.x) * POINT >= zoom ==> mode == BandMode::Crossing
        }),
{
    let z = zoom as int;
    lemma_points_bounded(start.x - origin.x, z);
    lemma_points_bounded(start.y - origin.y, z);
    lemma_points_bounded(current.x - origin.x, z);
    lemma_points_bounded(current.y - origin.y, z);
    lemma_points(start.x - origin.x, z);
    lemma_points(start.y - origin.y, z);
    lemma_points(current.x - origin.x, z);
    lemma_points(current.y - origin.y, z);
    if start.x <= current.x {
        lemma_points_in_order(start.x - origin.x, current.x - origin.x, z);
    } else {
        lemma_points_in_order(current.x - origin.x, start.x - origin.x, z);
    }
    if start.y <= current.y {
        lemma_points_in_order(start.y - origin.y, current.y - origin.y, z);
    } else {
        lemma_points_in_order(current.y - origin.y, start.y - origin.y, z);
    }
}

proof fn lemma_holder(places: Seq<Spot>, width: i64, height: i64, at: Spot, i: int)
    requires
        0 <= i <= places.len(),
    ensures
        ({
            let k = holder(places, width, height, at, i);
            &&& i <= k <= places.len()
            &&& k < places.len() ==> on_page(places[k], width, height, at)
            &&& forall|m: int| i <= m < k ==> !on_page(#[trigger] places[m], width, height, at)
        }),
    decreases places.len() - i,
{
    if i < places.len() && !on_page(places[i], width, height, at) {
        lemma_holder(places, width, height, at, i + 1);
    }
}

/// A press on a page belongs to that page: where some page holds the point, so
/// does the one that is found. A press beside all belongs to the first.
pub proof fn a_press_belongs_to_the_page_it_is_on(
    places: Seq<Spot>,
    width: i64,
    height: i64,
    at: Spot,
    i: int,
)
    requires
        0 <= i < places.len(),
    ensures
        ({
            let found = origin_of(places, width, height, at);
            let corner = found->0;
            let p = places[i];
            &&& found is Some
            &&& places.contains(corner)
            &&& p.x <= at.x <= p.x + width && p.y <= at.y <= p.y + height ==> corner.x <= at.x
                <= corner.x + width && corner.y <= at.y <= corner.y + height
            &&& !(corner.x <= at.x <= corner.x + width && corner.y <= at.y <= corner.y + height)
                ==> corner == places[0]
        }),
{
    lemma_holder(places, width, height, at, 0);
}

} // verus!
