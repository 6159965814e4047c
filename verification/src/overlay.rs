//! What lies over a page: the frame of the edited paragraph with its grips, the
//! bar of formats and the lines that the frame is level with.
use crate::document::Block;
use crate::frame::{Grip, Guide};
use crate::geometry::{max_of, min_of, near, Rect, Spot};
use crate::group::MultiTarget;
use crate::pointer::{GroupDrag, Rubber};
use crate::text_layout::{floor_divide, pixels};
use crate::units::{Points, POINT};
use crate::viewer::{is_member, member_index};
use vstd::prelude::*;

verus! {

/// The distance between a block and the bar of formats, in pixels.
pub const BAR_GAP: i64 = 8 * 0x100_0000;

pub const BAR_WIDTH: i64 = 300 * 0x100_0000;

/// How far the handle that turns the block stands above the frame.
pub const ROTATE_LIFT: i64 = 26 * 0x100_0000;

/// A rectangle in the window, in pixels, from the corner of its page.
#[derive(Clone, Copy, Debug, PartialEq, Eq, Structural)]
pub struct Place {
    pub left: i64,
    pub top: i64,
    pub width: i64,
    pub height: i64,
}

/// The largest zoom that is computed with.
pub const LARGEST_ZOOM: i64 = 0x1000_0000;

/// A length in the window.
fn shown(length: Points, zoom: i64) -> (r: i64)
    requires
        -0x20_0000_0000_0000 <= length <= 0x20_0000_0000_0000,
        0 <= zoom <= LARGEST_ZOOM,
    ensures
        r == pixels(length as int, zoom as int),
        -0x200_0000_0000_0000 <= r <= 0x200_0000_0000_0000,
{
    proof {
        assert(-0x20_0000_0000_0000 * 0x1000_0000 <= length * zoom <= 0x20_0000_0000_0000
            * 0x1000_0000) by (nonlinear_arith)
            requires
                -0x20_0000_0000_0000 <= length <= 0x20_0000_0000_0000,
                0 <= zoom <= 0x1000_0000,
        ;
    }
    floor_divide(length as i128 * zoom as i128) as i64
}

/// Where a frame lies in the window.
pub open spec fn place_of_frame(frame: Rect, page_height: Points, zoom: i64) -> (int, int, int, int) {
    (
        pixels(frame.left as int, zoom as int),
        pixels(page_height - frame.top, zoom as int),
        pixels(frame.right - frame.left, zoom as int),
        pixels(frame.top - frame.bottom, zoom as int),
    )
}

/// Where a frame lies in the window.
pub fn frame_place(frame: Rect, page_height: Points, zoom: i64) -> (r: Place)
    requires
        frame.is_near(),
        near(page_height),
        0 <= zoom <= LARGEST_ZOOM,
    ensures
        (r.left as int, r.top as int, r.width as int, r.height as int) == place_of_frame(
            frame,
            page_height,
            zoom,
        ),
        -0x200_0000_0000_0000 <= r.left <= 0x200_0000_0000_0000,
        -0x200_0000_0000_0000 <= r.top <= 0x200_0000_0000_0000,
        -0x200_0000_0000_0000 <= r.width <= 0x200_0000_0000_0000,
        -0x200_0000_0000_0000 <= r.height <= 0x200_0000_0000_0000,
{
    Place {
        left: shown(frame.left, zoom),
        top: shown(page_height - frame.top, zoom),
        width: shown(frame.right - frame.left, zoom),
        height: shown(frame.top - frame.bottom, zoom),
    }
}

/// A value between zero and another, where that is not negative.
pub open spec fn within(x: int, most: int) -> int {
    max_of(min_of(x, max_of(most, 0)), 0)
}

fn hold_within(x: i64, most: i64) -> (r: i64)
    ensures
        r == within(x as int, most as int),
{
    let limit: i64 = if most > 0 {
        most
    } else {
        0
    };
    let place: i64 = if x < limit {
        x
    } else {
        limit
    };
    if place > 0 {
        place
    } else {
        0
    }
}

/// How far from its top the bar begins, before it is kept on the page: above
/// the handle that turns the block, or below the block where there is no room.
pub open spec fn bar_ordinate(top: int, height: int, bar_height: int) -> int {
    let clearance = bar_height + BAR_GAP + ROTATE_LIFT;
    if top >= clearance {
        top - clearance
    } else {
        top + max_of(height, 28 * POINT) + BAR_GAP
    }
}

/// Where the bar of formats stands: beside the block, and never off the page,
/// for buttons that are off the page cannot be reached.
pub fn bar_place(
    frame: Rect,
    page_width: Points,
    page_height: Points,
    zoom: i64,
    bar_height: i64,
) -> (r: Spot)
    requires
        frame.is_near(),
        near(page_width),
        near(page_height),
        0 <= zoom <= LARGEST_ZOOM,
        0 <= bar_height,
        near(bar_height),
    ensures
        ({
            let (left, top, width, height) = place_of_frame(frame, page_height, zoom);
            &&& r.x == within(left, pixels(page_width as int, zoom as int) - BAR_WIDTH)
            &&& r.y == within(
                bar_ordinate(top, height, bar_height as int),
                pixels(page_height as int, zoom as int) - bar_height,
            )
        }),
{
    let place = frame_place(frame, page_height, zoom);
    let clearance: i64 = bar_height + BAR_GAP + ROTATE_LIFT;
    let height: i64 = if place.height > 28 * POINT {
        place.height
    } else {
        28 * POINT
    };
    let top: i64 = if place.top >= clearance {
        place.top - clearance
    } else {
        place.top + height + BAR_GAP
    };
    Spot {
        x: hold_within(place.left, shown(page_width, zoom) - BAR_WIDTH),
        y: hold_within(top, shown(page_height, zoom) - bar_height),
    }
}

/// The bar of formats does not leave a page that has room for it.
pub proof fn the_bar_stays_on_the_page(x: int, most: int)
    requires
        0 <= most,
    ensures
        0 <= within(x, most) <= most,
        0 <= x <= most ==> within(x, most) == x,
{
}

/// How far from the corner of the page a line lies that the frame is level
/// with.
pub fn guide_place(guide: Guide, page_height: Points, zoom: i64) -> (r: i64)
    requires
        near(page_height),
        0 <= zoom <= LARGEST_ZOOM,
        match guide {
            Guide::Vertical(x) => near(x),
            Guide::Horizontal(y) => near(y),
        },
    ensures
        r == match guide {
            Guide::Vertical(x) => pixels(x as int, zoom as int),
            Guide::Horizontal(y) => pixels(page_height - y, zoom as int),
        },
{
    match guide {
        Guide::Vertical(x) => shown(x, zoom),
        Guide::Horizontal(y) => shown(page_height - y, zoom),
    }
}

/// On which side of the frame something stands.
#[derive(Clone, Copy, Debug, PartialEq, Eq, Structural)]
pub enum Side {
    Start,
    Middle,
    End,
}

/// Where the marker of a grip stands: across, and from the top. The outline
/// and the handle have none.
pub fn marker_place(grip: Grip) -> (r: Option<(Side, Side)>)
    ensures
        r is Some <==> grip != Grip::Move && grip != Grip::Rotate,
        r matches Some((across, down)) ==> {
            &&& across == if grip.pulls_left() {
                Side::Start
            } else if grip.pulls_right() {
                Side::End
            } else {
                Side::Middle
            }
            &&& down == if grip.pulls_top() {
                Side::Start
            } else if grip.pulls_bottom() {
                Side::End
            } else {
                Side::Middle
            }
        },
{
    match grip {
        Grip::TopLeft => Some((Side::Start, Side::Start)),
        Grip::Top => Some((Side::Middle, Side::Start)),
        Grip::TopRight => Some((Side::End, Side::Start)),
        Grip::Right => Some((Side::End, Side::Middle)),
        Grip::BottomRight => Some((Side::End, Side::End)),
        Grip::Bottom => Some((Side::Middle, Side::End)),
        Grip::BottomLeft => Some((Side::Start, Side::End)),
        Grip::Left => Some((Side::Start, Side::Middle)),
        Grip::Move => None,
        Grip::Rotate => None,
    }
}

/// Where the band is drawn on its page, from the corner of the page.
pub fn rubber_place(rubber: &Rubber, page: u32, origin: Spot) -> (r: Option<Place>)
    requires
        rubber.start.is_near(),
        rubber.current.is_near(),
        origin.is_near(),
    ensures
        r == if rubber.page == page && crate::pointer::far_apart(rubber.start, rubber.current) {
            Some(
                Place {
                    left: (min_of(rubber.start.x as int, rubber.current.x as int)
                        - origin.x) as i64,
                    top: (min_of(rubber.start.y as int, rubber.current.y as int)
                        - origin.y) as i64,
                    width: crate::geometry::abs_of(rubber.current.x - rubber.start.x) as i64,
                    height: crate::geometry::abs_of(rubber.current.y - rubber.start.y) as i64,
                },
            )
        } else {
            None
        },
{
    if rubber.page != page || !rubber.meaningful() {
        return None;
    }
    let (left, right): (i64, i64) = if rubber.start.x <= rubber.current.x {
        (rubber.start.x, rubber.current.x)
    } else {
        (rubber.current.x, rubber.start.x)
    };
    let (top, bottom): (i64, i64) = if rubber.start.y <= rubber.current.y {
        (rubber.start.y, rubber.current.y)
    } else {
        (rubber.current.y, rubber.start.y)
    };
    Some(
        Place {
            left: left - origin.x,
            top: top - origin.y,
            width: right - left,
            height: bottom - top,
        },
    )
}

/// How far the marks of a group are shifted while it is dragged.
pub fn group_drag_offset(drag: &Option<GroupDrag>, page: u32) -> (r: Option<Spot>)
    requires
        drag matches Some(drag) ==> drag.start.is_near() && drag.current.is_near(),
    ensures
        r == match *drag {
            Some(drag) if drag.page == page => Some(
                Spot {
                    x: (drag.current.x - drag.start.x) as i64,
                    y: (drag.current.y - drag.start.y) as i64,
                },
            ),
            _ => None,
        },
{
    if let Some(drag) = drag {
        if drag.page == page {
            return Some(
                Spot { x: drag.current.x - drag.start.x, y: drag.current.y - drag.start.y },
            );
        }
    }
    None
}

/// The first `count` blocks of a page, by their indices: those that belong to
/// the group, or those that do not.
pub open spec fn blocks_by_group(
    blocks: Seq<Block>,
    multi: Seq<MultiTarget>,
    page: u32,
    grouped: bool,
    count: int,
) -> Seq<usize>
    decreases count,
{
    if count <= 0 {
        Seq::empty()
    } else {
        let fewer = blocks_by_group(blocks, multi, page, grouped, count - 1);
        if is_member(multi, page, blocks[count - 1].bbox) == grouped {
            fewer.push((count - 1) as usize)
        } else {
            fewer
        }
    }
}

fn gather(
    blocks: &Vec<Block>,
    multi: &Vec<MultiTarget>,
    page: u32,
    grouped: bool,
    onto: Vec<usize>,
) -> (r: Vec<usize>)
    ensures
        r@ == onto@ + blocks_by_group(blocks@, multi@, page, grouped, blocks@.len() as int),
{
    let mut out = onto;
    let ghost before = onto@;
    let mut i: usize = 0;
    assert(out@ == before + Seq::<usize>::empty());
    while i < blocks.len()
        invariant
            i <= blocks@.len(),
            out@ == before + blocks_by_group(blocks@, multi@, page, grouped, i as int),
        decreases blocks@.len() - i,
    {
        let member = member_index(multi, page, blocks[i].bbox) < multi.len();
        if member == grouped {
            let ghost fewer = blocks_by_group(blocks@, multi@, page, grouped, i as int);
            out.push(i);
            assert(out@ == before + fewer.push(i));
        }
        i = i + 1;
    }
    out
}

/// The order in which the blocks of a page take the mouse, the last on top:
/// those of the group lie above the others, or a copy on top of other text
/// could not be grabbed.
pub fn overlay_order(blocks: &Vec<Block>, multi: &Vec<MultiTarget>, page: u32) -> (r: Vec<usize>)
    ensures
        r@ == blocks_by_group(blocks@, multi@, page, false, blocks@.len() as int)
            + blocks_by_group(blocks@, multi@, page, true, blocks@.len() as int),
{
    let below = gather(blocks, multi, page, false, Vec::new());
    assert(below@ == blocks_by_group(blocks@, multi@, page, false, blocks@.len() as int));
    gather(blocks, multi, page, true, below)
}

/// Every block of the page takes the mouse once.
pub proof fn every_block_takes_the_mouse(
    blocks: Seq<Block>,
    multi: Seq<MultiTarget>,
    page: u32,
    count: int,
)
    requires
        0 <= count <= blocks.len(),
    ensures
        blocks_by_group(blocks, multi, page, false, count).len() + blocks_by_group(
            blocks,
            multi,
            page,
            true,
            count,
        ).len() == count,
    decreases count,
{
    if count > 0 {
        every_block_takes_the_mouse(blocks, multi, page, count - 1);
    }
}

/// A length in the window is the length on the page, times the zoom and rounded
/// down.
proof fn lemma_pixels(length: int, zoom: int)
    ensures
        pixels(length, zoom) * POINT <= length * zoom < (pixels(length, zoom) + 1) * POINT,
{
    let n = length * zoom;
    vstd::arithmetic::div_mod::lemma_fundamental_div_mod(n, POINT as int);
    vstd::arithmetic::div_mod::lemma_mod_bound(n, POINT as int);
}

/// A frame is shown where it lies on the page, at the zoom of the page, to the
/// rounding: its left edge from the left of the page, and its upper edge from
/// the top.
pub proof fn a_frame_is_shown_where_it_lies(frame: Rect, page_height: Points, zoom: i64)
    ensures
        ({
            let (left, top, width, height) = place_of_frame(frame, page_height, zoom);
            &&& left * POINT <= frame.left * zoom < (left + 1) * POINT
            &&& top * POINT <= (page_height - frame.top) * zoom < (top + 1) * POINT
            &&& width * POINT <= (frame.right - frame.left) * zoom < (width + 1) * POINT
            &&& height * POINT <= (frame.top - frame.bottom) * zoom < (height + 1) * POINT
        }),
{
    lemma_pixels(frame.left as int, zoom as int);
    lemma_pixels(page_height - frame.top, zoom as int);
    lemma_pixels(frame.right - frame.left, zoom as int);
    lemma_pixels(frame.top - frame.bottom, zoom as int);
}

/// The bar of formats covers neither the block nor the handle above it: it ends
/// thirty-four pixels above the block where there is room for that, and else
/// begins eight pixels below it.
pub proof fn the_bar_leaves_the_block_free(top: int, height: int, bar_height: int)
    requires
        bar_height >= 0,
    ensures
        ({
            let at = bar_ordinate(top, height, bar_height);
            let room = top >= bar_height + 34 * POINT;
            &&& room ==> at + bar_height + 34 * POINT == top && at >= 0
            &&& !room ==> at >= top + height + 8 * POINT && at >= top + 36 * POINT && (at == top
                + height + 8 * POINT || at == top + 36 * POINT)
        }),
{
}

proof fn lemma_blocks_by_group(
    blocks: Seq<Block>,
    multi: Seq<MultiTarget>,
    page: u32,
    grouped: bool,
    count: int,
    i: usize,
)
    requires
        0 <= count <= blocks.len() <= usize::MAX,
    ensures
        ({
            let all = blocks_by_group(blocks, multi, page, grouped, count);
            &&& all.contains(i) <==> i < count && is_member(multi, page, blocks[i as int].bbox)
                == grouped
            &&& forall|j: int| 0 <= j < all.len() ==> #[trigger] all[j] < count
            &&& forall|j: int, k: int|
                0 <= j < k < all.len() ==> #[trigger] all[j] < #[trigger] all[k]
        }),
    decreases count,
{
    if count > 0 {
        lemma_blocks_by_group(blocks, multi, page, grouped, count - 1, i);
        let fewer = blocks_by_group(blocks, multi, page, grouped, count - 1);
        let all = blocks_by_group(blocks, multi, page, grouped, count);
        let last = (count - 1) as usize;
        assert(all == fewer || all == fewer.push(last));
        if all != fewer {
            assert(all[all.len() - 1] == last);
            if fewer.contains(i) {
                let k = choose|k: int| 0 <= k < fewer.len() && fewer[k] == i;
                assert(all[k] == i);
            }
        }
    }
}

/// A block of the group takes the mouse before any other: it comes later in
/// the order in which blocks are laid over the page. Every block is laid there.
pub proof fn the_group_lies_on_top(
    blocks: Seq<Block>,
    multi: Seq<MultiTarget>,
    page: u32,
    i: usize,
    m: int,
    n: int,
)
    requires
        blocks.len() <= usize::MAX,
        i < blocks.len(),
    ensures
        ({
            let count = blocks.len() as int;
            let order = blocks_by_group(blocks, multi, page, false, count) + blocks_by_group(
                blocks,
                multi,
                page,
                true,
                count,
            );
            &&& order.contains(i)
            &&& 0 <= m < order.len() && 0 <= n < order.len() ==> {
                &&& order[m] < blocks.len()
                &&& is_member(multi, page, blocks[order[n] as int].bbox) && !is_member(
                    multi,
                    page,
                    blocks[order[m] as int].bbox,
                ) ==> m < n
            }
        }),
{
    let count = blocks.len() as int;
    let below = blocks_by_group(blocks, multi, page, false, count);
    let above = blocks_by_group(blocks, multi, page, true, count);
    let order = below + above;
    lemma_blocks_by_group(blocks, multi, page, false, count, i);
    lemma_blocks_by_group(blocks, multi, page, true, count, i);
    if below.contains(i) {
        let k = choose|k: int| 0 <= k < below.len() && below[k] == i;
        assert(order[k] == i);
    } else {
        let k = choose|k: int| 0 <= k < above.len() && above[k] == i;
        assert(order[below.len() + k] == i);
    }
    if 0 <= m < order.len() && 0 <= n < order.len() {
        if m >= below.len() {
            assert(above[m - below.len()] == order[m]);
            assert(above.contains(order[m]));
            lemma_blocks_by_group(blocks, multi, page, true, count, order[m]);
        } else {
            assert(below[m] == order[m]);
            assert(below.contains(order[m]));
            lemma_blocks_by_group(blocks, multi, page, false, count, order[m]);
        }
        if n < below.len() {
            assert(below[n] == order[n]);
            assert(below.contains(order[n]));
            lemma_blocks_by_group(blocks, multi, page, false, count, order[n]);
        }
    }
}

} // verus!
