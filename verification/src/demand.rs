//! Which pages have to be drawn and read, and what is known of the document.
use crate::document::{opt_chars, Block};
use crate::geometry::{max_of, min_of, near, FAR};
use crate::group::{blocks_of, page_index, PageBlocks};
use crate::organise::{NARROWEST_CARD, WIDEST_CARD};
use crate::pages::holds_page;
use crate::paging::PageSize;
use crate::units::POINT;
use std::collections::HashSet;
use vstd::prelude::*;

verus! {

broadcast use vstd::std_specs::hash::group_hash_axioms;

/// How many pages are drawn ahead: documents are mostly read downwards.
pub const PREFETCH_AHEAD: u32 = 4;

pub const PREFETCH_BEHIND: u32 = 1;

/// How many thumbnails are drawn from the first that is seen.
pub const THUMB_PREFETCH: u32 = 14;

/// The pages, from one up to another, that are wanted: those of which there is
/// no picture, or only one of before an edit.
pub open spec fn wanted(from: int, to: int, drawn: Seq<u32>, stale: Set<u32>) -> Seq<u32>
    decreases to - from,
{
    if to <= from {
        Seq::empty()
    } else {
        let fewer = wanted(from, to - 1, drawn, stale);
        let page = (to - 1) as u32;
        if !drawn.contains(page) || stale.contains(page) {
            fewer.push(page)
        } else {
            fewer
        }
    }
}

/// The pages that are wanted.
fn wanted_between(from: u32, to: u32, drawn: &Vec<u32>, stale: &HashSet<u32>) -> (r: Vec<u32>)
    requires
        from <= to,
    ensures
        r@ == wanted(from as int, to as int, drawn@, stale@),
{
    let mut out: Vec<u32> = Vec::new();
    let mut page: u32 = from;
    while page < to
        invariant
            from <= page <= to,
            out@ == wanted(from as int, page as int, drawn@, stale@),
        decreases to - page,
    {
        if !holds_page(drawn, page) || stale.contains(&page) {
            out.push(page);
        }
        page = page + 1;
    }
    out
}

/// Every page that is wanted lies between the two, and every one of them of
/// which there is no picture is wanted.
pub proof fn wanted_pages_are_those_without_a_picture(
    from: int,
    to: int,
    drawn: Seq<u32>,
    stale: Set<u32>,
    page: u32,
)
    requires
        0 <= from,
        to <= u32::MAX,
    ensures
        wanted(from, to, drawn, stale).contains(page) <==> from <= page < to && (!drawn.contains(
            page,
        ) || stale.contains(page)),
    decreases to - from,
{
    if from < to {
        wanted_pages_are_those_without_a_picture(from, to - 1, drawn, stale, page);
        let fewer = wanted(from, to - 1, drawn, stale);
        let last = (to - 1) as u32;
        let more = fewer.push(last);
        assert(more[more.len() - 1] == last);
        if fewer.contains(page) {
            let k = choose|k: int| 0 <= k < fewer.len() && fewer[k] == page;
            assert(more[k] == page);
        }
    }
}

/// The last page, and one more, of those that are drawn around the first that
/// is seen. In a spread twice as many are seen.
pub open spec fn ahead_of(first: u32, spread: bool, count: u32) -> int {
    min_of(
        first + if spread {
            2 * PREFETCH_AHEAD + 1
        } else {
            PREFETCH_AHEAD as int
        } + 1,
        count as int,
    )
}

/// The first page of those that are drawn around the first that is seen.
pub open spec fn behind(first: u32) -> int {
    max_of(first - PREFETCH_BEHIND, 0)
}

/// The pages that have to be drawn, around the first that is seen.
pub fn wanted_pages(first: u32, spread: bool, count: u32, drawn: &Vec<u32>, stale: &HashSet<u32>) -> (r:
    Vec<u32>)
    requires
        first < count,
    ensures
        r@ == wanted(behind(first), ahead_of(first, spread, count), drawn@, stale@),
{
    let ahead: u32 = if spread {
        PREFETCH_AHEAD * 2 + 1
    } else {
        PREFETCH_AHEAD
    };
    let from: u32 = if first >= PREFETCH_BEHIND {
        first - PREFETCH_BEHIND
    } else {
        0
    };
    let to: u32 = if count - first > ahead {
        first + ahead + 1
    } else {
        count
    };
    wanted_between(from, to, drawn, stale)
}

/// The thumbnails that have to be drawn, from the first that is seen.
pub fn wanted_thumbnails(first: u32, count: u32, drawn: &Vec<u32>, stale: &HashSet<u32>) -> (r: Vec<
    u32,
>)
    requires
        count > 0,
    ensures
        ({
            let from = min_of(first as int, count - 1);
            r@ == wanted(from, min_of(from + THUMB_PREFETCH, count as int), drawn@, stale@)
        }),
        forall|page: u32|
            #![trigger r@.contains(page)]
            r@.contains(page) <==> {
                &&& first <= page || page == count - 1
                &&& page < first + 14
                &&& page < count
                &&& !drawn@.contains(page) || stale@.contains(page)
            },
{
    proof {
        let start = min_of(first as int, count - 1);
        let end = min_of(start + THUMB_PREFETCH, count as int);
        assert forall|page: u32|
            #![trigger wanted(start, end, drawn@, stale@).contains(page)]
            wanted(start, end, drawn@, stale@).contains(page) <==> start <= page < end && (
            !drawn@.contains(page) || stale@.contains(page)) by {
            wanted_pages_are_those_without_a_picture(start, end, drawn@, stale@, page);
        }
    }
    let from: u32 = if first < count - 1 {
        first
    } else {
        count - 1
    };
    let to: u32 = if count - from > THUMB_PREFETCH {
        from + THUMB_PREFETCH
    } else {
        count
    };
    wanted_between(from, to, drawn, stale)
}

/// How high the card of a page is: it keeps the shape of the page, but for one
/// that is much longer or much wider.
pub open spec fn card_height_of(card: int, size: Option<PageSize>) -> int {
    match size {
        None => card * 10 / 7,
        Some(size) => {
            let height = max_of(size.height as int, POINT as int);
            if 10 * size.width < 3 * height {
                card * 10 / 3
            } else if size.width > 3 * height {
                card / 3
            } else {
                card * height / (size.width as int)
            }
        },
    }
}

/// A card that keeps the shape of a page is never much higher than wide.
proof fn lemma_card_height(card: int, size: Option<PageSize>)
    requires
        NARROWEST_CARD <= card <= WIDEST_CARD,
        size matches Some(size) ==> near(size.width) && near(size.height),
    ensures
        30 * POINT <= card_height_of(card, size) <= 0x1_0000_0000_0000,
{
    if let Some(size) = size {
        let height = max_of(size.height as int, POINT as int);
        let width = size.width as int;
        if 10 * width < 3 * height {
        } else if width > 3 * height {
        } else {
            let n = card * height;
            let q = n / width;
            vstd::arithmetic::div_mod::lemma_fundamental_div_mod(n, width);
            assert(0 <= n % width < width) by {
                vstd::arithmetic::div_mod::lemma_mod_bound(n, width);
            }
            assert(3 * n >= card * width) by (nonlinear_arith)
                requires
                    n == card * height,
                    width <= 3 * height,
                    card >= 0,
            ;
            assert(3 * n <= card * 10 * width) by (nonlinear_arith)
                requires
                    n == card * height,
                    10 * width >= 3 * height,
                    card >= 0,
            ;
            assert(q <= 10 * card) by (nonlinear_arith)
                requires
                    width * q <= n,
                    3 * n <= card * 10 * width,
                    width > 0,
                    card >= 0,
            ;
            assert(3 * (q + 1) > card) by (nonlinear_arith)
                requires
                    n < width * q + width,
                    3 * n >= card * width,
                    width > 0,
            ;
        }
    }
}

/// How high the card of a page is, in pixels.
pub fn card_height(card: i64, size: Option<PageSize>) -> (r: i64)
    requires
        NARROWEST_CARD <= card <= WIDEST_CARD,
        size matches Some(size) ==> near(size.width) && near(size.height),
    ensures
        r == card_height_of(card as int, size),
        30 * POINT <= r <= 0x1_0000_0000_0000,
{
    proof {
        lemma_card_height(card as int, size);
    }
    match size {
        None => card * 10 / 7,
        Some(size) => {
            let height: i64 = if size.height > POINT {
                size.height
            } else {
                POINT
            };
            if 10 * size.width < 3 * height {
                card * 10 / 3
            } else if size.width > 3 * height {
                card / 3
            } else {
                assert(0 <= card * height <= WIDEST_CARD * FAR) by (nonlinear_arith)
                    requires
                        0 <= card <= WIDEST_CARD,
                        0 <= height <= FAR,
                ;
                (card as i128 * height as i128 / size.width as i128) as i64
            }
        },
    }
}

/// What the cards of the grid lie like. Lengths are in pixels.
#[derive(Clone, Copy, Debug, PartialEq, Eq, Structural)]
pub struct GridView {
    /// How far the grid is scrolled down.
    pub offset: i64,
    pub width: i64,
    pub height: i64,
    pub card: i64,
}

impl GridView {
    pub open spec fn wf(self) -> bool {
        &&& near(self.offset)
        &&& near(self.width)
        &&& near(self.height)
        &&& NARROWEST_CARD <= self.card <= WIDEST_CARD
    }

    /// How many cards stand in a row: a card takes ten pixels beside itself.
    pub open spec fn columns(self) -> int {
        max_of(max_of(self.width as int, POINT as int) / (self.card + 10 * POINT), 1)
    }

    /// How high a row is: the card, its number and the gap below.
    pub open spec fn row_height(self, size: Option<PageSize>) -> int {
        card_height_of(self.card as int, size) + 42 * POINT
    }

    /// The row on top.
    pub open spec fn top_row(self, size: Option<PageSize>) -> int {
        max_of(self.offset as int / self.row_height(size), 0)
    }

    /// How many rows are seen, the last one perhaps in part.
    pub open spec fn rows_seen(self, size: Option<PageSize>) -> int {
        (max_of(self.height as int, POINT as int) + self.row_height(size) - 1) / self.row_height(
            size,
        )
    }

    /// The cards that have to be drawn: those that are seen, and a row above
    /// and below, so that scrolling does not meet empty cards.
    pub open spec fn window(self, size: Option<PageSize>, count: u32) -> (int, int) {
        let first = self.top_row(size) * self.columns();
        (
            min_of(max_of(first - self.columns(), 0), count as int),
            min_of(first + (self.rows_seen(size) + 2) * self.columns(), count as int),
        )
    }
}

/// A quotient of two lengths of a grid.
fn divided(n: i64, d: i64) -> (r: i64)
    requires
        0 <= n,
        0 < d,
    ensures
        r == n as int / d as int,
        0 <= r <= n,
{
    proof {
        vstd::arithmetic::div_mod::lemma_div_is_ordered_by_denominator(n as int, 1, d as int);
    }
    n / d
}

impl GridView {
    /// How many cards stand in a row.
    pub fn column_count(&self) -> (r: u32)
        requires
            self.wf(),
        ensures
            r == self.columns(),
            1 <= r <= 0x40_0000,
    {
        let width: i64 = if self.width > POINT {
            self.width
        } else {
            POINT
        };
        let cell: i64 = self.card + 10 * POINT;
        let n: i64 = divided(width, cell);
        proof {
            vstd::arithmetic::div_mod::lemma_fundamental_div_mod(width as int, cell as int);
            vstd::arithmetic::div_mod::lemma_mod_bound(width as int, cell as int);
            assert(n <= 0x40_0000) by (nonlinear_arith)
                requires
                    cell * n <= width,
                    cell >= 0x4000_0000,
                    width <= 0x10_0000_0000_0000,
                    n >= 0,
            ;
        }
        if n < 1 {
            1
        } else {
            n as u32
        }
    }

    fn row_pitch(&self, size: Option<PageSize>) -> (r: i64)
        requires
            self.wf(),
            size matches Some(size) ==> near(size.width) && near(size.height),
        ensures
            r == self.row_height(size),
            72 * POINT <= r <= 0x2_0000_0000_0000,
    {
        card_height(self.card, size) + 42 * POINT
    }

    fn top(&self, size: Option<PageSize>) -> (r: i64)
        requires
            self.wf(),
            size matches Some(size) ==> near(size.width) && near(size.height),
        ensures
            r == self.top_row(size),
            0 <= r <= 0x40_0000,
    {
        let pitch: i64 = self.row_pitch(size);
        if self.offset < 0 {
            proof {
                assert(self.offset as int / pitch as int <= 0) by (nonlinear_arith)
                    requires
                        self.offset < 0,
                        pitch > 0,
                ;
            }
            return 0;
        }
        let n: i64 = divided(self.offset, pitch);
        proof {
            vstd::arithmetic::div_mod::lemma_fundamental_div_mod(
                self.offset as int,
                pitch as int,
            );
            vstd::arithmetic::div_mod::lemma_mod_bound(self.offset as int, pitch as int);
            assert(n <= 0x40_0000) by (nonlinear_arith)
                requires
                    pitch * n <= self.offset,
                    pitch >= 0x4000_0000,
                    self.offset <= 0x10_0000_0000_0000,
                    n >= 0,
            ;
        }
        n
    }

    fn seen(&self, size: Option<PageSize>) -> (r: i64)
        requires
            self.wf(),
            size matches Some(size) ==> near(size.width) && near(size.height),
        ensures
            r == self.rows_seen(size),
            0 <= r <= 0x100_0000,
    {
        let pitch: i64 = self.row_pitch(size);
        let height: i64 = if self.height > POINT {
            self.height
        } else {
            POINT
        };
        let total: i64 = height + pitch - 1;
        let n: i64 = divided(total, pitch);
        proof {
            vstd::arithmetic::div_mod::lemma_fundamental_div_mod(total as int, pitch as int);
            vstd::arithmetic::div_mod::lemma_mod_bound(total as int, pitch as int);
            assert(n <= 0x100_0000) by (nonlinear_arith)
                requires
                    pitch * n <= total,
                    pitch >= 0x4000_0000,
                    total <= 0x12_0000_0000_0000,
                    n >= 0,
            ;
        }
        n
    }

    /// The first card that has to be drawn, and the one after the last.
    pub fn cards_wanted(&self, size: Option<PageSize>, count: u32) -> (r: (u32, u32))
        requires
            self.wf(),
            size matches Some(size) ==> near(size.width) && near(size.height),
        ensures
            r.0 == self.window(size, count).0,
            r.1 == self.window(size, count).1,
    {
        let columns: i64 = self.column_count() as i64;
        let row: i64 = self.top(size);
        let seen: i64 = self.seen(size);
        assert(0 <= row * columns <= 0x40_0000 * 0x40_0000) by (nonlinear_arith)
            requires
                0 <= row <= 0x40_0000,
                0 <= columns <= 0x40_0000,
        ;
        assert(0 <= (seen + 2) * columns <= 0x100_0002 * 0x40_0000) by (nonlinear_arith)
            requires
                0 <= seen <= 0x100_0000,
                0 <= columns <= 0x40_0000,
        ;
        let first: i64 = row * columns;
        let end: i64 = first + (seen + 2) * columns;
        let from: i64 = if first > columns {
            first - columns
        } else {
            0
        };
        (
            if from < count as i64 {
                from as u32
            } else {
                count
            },
            if end < count as i64 {
                end as u32
            } else {
                count
            },
        )
    }

    /// The rows that are drawn, the cards in them and the empty space that
    /// stands for the others: so the scroll bar knows the true length.
    pub fn rows_drawn(&self, columns: u32, size: Option<PageSize>, count: u32) -> (r: RowsDrawn)
        requires
            self.wf(),
            columns >= 1,
            size matches Some(size) ==> near(size.width) && near(size.height),
        ensures
            ({
                let total = (count + columns - 1) / columns as int;
                let first = min_of(
                    max_of(self.top_row(size) - 1, 0),
                    max_of(total - 1, 0),
                );
                let last = min_of(first + self.rows_seen(size) + 3, total);
                &&& r.from == first * columns
                &&& r.to == min_of(last * columns, count as int)
                &&& r.above == first * self.row_height(size)
                &&& r.below == (total - last) * self.row_height(size)
            }),
            forall|card: int|
                #![trigger card / columns as int]
                {
                    &&& 0 <= card < count
                    &&& self.height >= POINT
                    &&& card / columns as int * self.row_height(size) < self.offset + self.height
                    &&& (card / columns as int + 1) * self.row_height(size) > self.offset
                } ==> r.from <= card < r.to,
            r.above * columns == r.from * self.row_height(size),
    {
        let total: i64 = divided(count as i64 + columns as i64 - 1, columns as i64);
        let top: i64 = self.top(size);
        let before: i64 = if top > 1 {
            top - 1
        } else {
            0
        };
        let most: i64 = if total > 1 {
            total - 1
        } else {
            0
        };
        let first: i64 = if before < most {
            before
        } else {
            most
        };
        let wanted: i64 = first + self.seen(size) + 3;
        let last: i64 = if wanted < total {
            wanted
        } else {
            total
        };
        let pitch: i64 = self.row_pitch(size);
        proof {
            let sum = count + columns - 1;
            vstd::arithmetic::div_mod::lemma_fundamental_div_mod(sum, columns as int);
            vstd::arithmetic::div_mod::lemma_mod_bound(sum, columns as int);
            assert(columns as int * total == total * columns) by (nonlinear_arith);
            assert(total * columns < count + columns);
            assert(total <= count) by (nonlinear_arith)
                requires
                    total * columns < count + columns,
                    columns >= 1,
                    count >= 0,
            ;
            assert(0 <= first * columns <= count) by (nonlinear_arith)
                requires
                    0 <= first <= (if total > 1 {
                        total - 1
                    } else {
                        0
                    }),
                    total * columns < count + columns,
                    columns >= 1,
                    count >= 0,
            ;
            assert(0 <= last * columns <= total * columns) by (nonlinear_arith)
                requires
                    0 <= last <= total,
                    columns >= 1,
            ;
            assert(0 <= first * pitch <= 0x40_0000 * 0x2_0000_0000_0000) by (nonlinear_arith)
                requires
                    0 <= first <= 0x40_0000,
                    0 <= pitch <= 0x2_0000_0000_0000,
            ;
            assert(0 <= (total - last) * pitch <= 0x1_0000_0000 * 0x2_0000_0000_0000)
                by (nonlinear_arith)
                requires
                    0 <= total - last <= 0x1_0000_0000,
                    0 <= pitch <= 0x2_0000_0000_0000,
            ;
            assert((first * pitch) * columns == (first * columns) * pitch) by (nonlinear_arith);
            assert forall|card: int|
                #![trigger card / columns as int]
                {
                    &&& 0 <= card < count
                    &&& self.height >= POINT
                    &&& card / columns as int * self.row_height(size) < self.offset + self.height
                    &&& (card / columns as int + 1) * self.row_height(size) > self.offset
                } implies first * columns <= card < last * columns by {
                let row = card / columns as int;
                lemma_quotient(card, columns as int);
                assert(row >= 0) by (nonlinear_arith)
                    requires
                        (row + 1) * columns > 0,
                        columns > 0,
                ;
                lemma_row_seen(*self, size, row);
                lemma_before(row, total as int, columns as int);
                assert(first * columns <= row * columns && (row + 1) * columns <= last * columns)
                    by (nonlinear_arith)
                    requires
                        first <= row,
                        row + 1 <= last,
                        columns > 0,
                ;
            }
        }
        let end: i64 = last * columns as i64;
        RowsDrawn {
            from: (first * columns as i64) as u32,
            to: if end < count as i64 {
                end as u32
            } else {
                count
            },
            above: first as i128 * pitch as i128,
            below: (total - last) as i128 * pitch as i128,
        }
    }
}

/// The cards of the grid that are drawn, and the space above and below them.
#[derive(Clone, Copy, Debug, PartialEq, Eq, Structural)]
pub struct RowsDrawn {
    pub from: u32,
    pub to: u32,
    pub above: i128,
    pub below: i128,
}

/// What is known of the open document, beside its pages.
#[derive(Debug)]
pub struct OpenDocument {
    /// The blocks of the pages that were read, a page once.
    pub blocks: Vec<PageBlocks>,
    /// The pages whose blocks were asked for.
    pub blocks_requested: HashSet<u32>,
    /// The pages whose pictures are of before an edit; they are shown until
    /// new ones come, for a page must not flash white.
    pub stale_pages: HashSet<u32>,
    /// The page of which the picture with the unfinished edit is shown.
    pub preview: Option<u32>,
    pub thumbnail_saved: bool,
    pub show_blocks: bool,
    /// There are edits that were not saved.
    pub dirty: bool,
    pub status: Option<String>,
    /// The last refusal, which is shown above the page.
    pub failure: Option<String>,
}

/// What an [`OpenDocument`] holds, but for the blocks.
#[verifier::ext_equal]
pub struct OpenView {
    pub requested: Set<u32>,
    pub stale: Set<u32>,
    pub preview: Option<u32>,
    pub thumbnail_saved: bool,
    pub show_blocks: bool,
    pub dirty: bool,
    pub status: Option<Seq<char>>,
    pub failure: Option<Seq<char>>,
}

impl View for OpenDocument {
    type V = OpenView;

    open spec fn view(&self) -> OpenView {
        OpenView {
            requested: self.blocks_requested@,
            stale: self.stale_pages@,
            preview: self.preview,
            thumbnail_saved: self.thumbnail_saved,
            show_blocks: self.show_blocks,
            dirty: self.dirty,
            status: opt_chars(self.status),
            failure: opt_chars(self.failure),
        }
    }
}

/// Whether no page occurs twice.
pub open spec fn each_page_once(pages: Seq<PageBlocks>) -> bool {
    forall|i: int, j: int|
        0 <= i < j < pages.len() ==> (#[trigger] pages[i]).page != (#[trigger] pages[j]).page
}

/// Whether the blocks of the pages are as before, but for one page.
pub open spec fn blocks_but(
    before: Seq<PageBlocks>,
    after: Seq<PageBlocks>,
    page: u32,
    blocks: Option<Seq<Block>>,
) -> bool {
    forall|p: u32| #[trigger]
        blocks_of(after, p) == if p == page {
            blocks
        } else {
            blocks_of(before, p)
        }
}

/// Where the blocks of a page are.
proof fn lemma_page_index(pages: Seq<PageBlocks>, page: u32, i: int)
    requires
        0 <= i <= pages.len(),
    ensures
        ({
            let k = page_index(pages, page, i);
            &&& i <= k <= pages.len()
            &&& forall|m: int| i <= m < k ==> (#[trigger] pages[m]).page != page
            &&& k < pages.len() ==> pages[k].page == page
        }),
    decreases pages.len() - i,
{
    if i < pages.len() && pages[i].page != page {
        lemma_page_index(pages, page, i + 1);
    }
}

/// The blocks of a page that occurs once.
proof fn lemma_blocks_at(pages: Seq<PageBlocks>, page: u32, k: int)
    requires
        each_page_once(pages),
        0 <= k < pages.len(),
        pages[k].page == page,
    ensures
        blocks_of(pages, page) == Some(pages[k].blocks@),
{
    lemma_page_index(pages, page, 0);
    let i = page_index(pages, page, 0);
    if i != k {
        assert(pages[i].page != pages[k].page);
    }
}

/// The blocks of a page that does not occur.
proof fn lemma_no_blocks(pages: Seq<PageBlocks>, page: u32)
    requires
        forall|m: int| 0 <= m < pages.len() ==> (#[trigger] pages[m]).page != page,
    ensures
        blocks_of(pages, page) is None,
{
    lemma_page_index(pages, page, 0);
}

/// What is known after an entry was put in the place of another of its page.
proof fn lemma_replaced(pages: Seq<PageBlocks>, k: int, entry: PageBlocks)
    requires
        each_page_once(pages),
        0 <= k < pages.len(),
        pages[k].page == entry.page,
    ensures
        each_page_once(pages.update(k, entry)),
        blocks_but(pages, pages.update(k, entry), entry.page, Some(entry.blocks@)),
{
    let after = pages.update(k, entry);
    assert forall|p: u32| #[trigger] blocks_of(after, p) == if p == entry.page {
        Some(entry.blocks@)
    } else {
        blocks_of(pages, p)
    } by {
        if p == entry.page {
            lemma_blocks_at(after, p, k);
        } else {
            lemma_page_index(pages, p, 0);
            let i = page_index(pages, p, 0);
            if i < pages.len() {
                assert(after[i].page == p);
                lemma_blocks_at(after, p, i);
            } else {
                lemma_no_blocks(after, p);
            }
        }
    }
}

/// What is known after an entry of a new page was added.
proof fn lemma_added(pages: Seq<PageBlocks>, entry: PageBlocks)
    requires
        each_page_once(pages),
        forall|m: int| 0 <= m < pages.len() ==> (#[trigger] pages[m]).page != entry.page,
    ensures
        each_page_once(pages.push(entry)),
        blocks_but(pages, pages.push(entry), entry.page, Some(entry.blocks@)),
{
    let after = pages.push(entry);
    assert forall|p: u32| #[trigger] blocks_of(after, p) == if p == entry.page {
        Some(entry.blocks@)
    } else {
        blocks_of(pages, p)
    } by {
        if p == entry.page {
            lemma_blocks_at(after, p, pages.len() as int);
        } else {
            lemma_page_index(pages, p, 0);
            let i = page_index(pages, p, 0);
            if i < pages.len() {
                assert(after[i].page == p);
                lemma_blocks_at(after, p, i);
            } else {
                lemma_no_blocks(after, p);
            }
        }
    }
}

/// What is known after the entry of a page was taken out.
proof fn lemma_removed(pages: Seq<PageBlocks>, k: int)
    requires
        each_page_once(pages),
        0 <= k < pages.len(),
    ensures
        each_page_once(pages.remove(k)),
        blocks_but(pages, pages.remove(k), pages[k].page, None),
{
    let after = pages.remove(k);
    let page = pages[k].page;
    assert forall|m: int| 0 <= m < after.len() implies (#[trigger] after[m]).page != page by {
        let a = if m < k {
            m
        } else {
            m + 1
        };
        assert(pages[a].page != pages[k].page);
    }
    assert forall|i: int, j: int| 0 <= i < j < after.len() implies (#[trigger] after[i]).page != (
    #[trigger] after[j]).page by {
        let a = if i < k {
            i
        } else {
            i + 1
        };
        let b = if j < k {
            j
        } else {
            j + 1
        };
        assert(pages[a].page != pages[b].page);
    }
    assert forall|p: u32| #[trigger] blocks_of(after, p) == if p == page {
        None
    } else {
        blocks_of(pages, p)
    } by {
        if p == page {
            lemma_no_blocks(after, p);
        } else {
            lemma_page_index(pages, p, 0);
            let i = page_index(pages, p, 0);
            if i < pages.len() {
                let m = if i < k {
                    i
                } else {
                    i - 1
                };
                assert(after[m].page == p);
                lemma_blocks_at(after, p, m);
            } else {
                assert forall|m: int| 0 <= m < after.len() implies (#[trigger] after[m]).page
                    != p by {
                    let a = if m < k {
                        m
                    } else {
                        m + 1
                    };
                    assert(pages[a].page != p);
                }
                lemma_no_blocks(after, p);
            }
        }
    }
}

/// What a picture that came asks for.
#[derive(Clone, Copy, Debug, PartialEq, Eq, Structural)]
pub struct TileArrival {
    /// It is the thumbnail for the list of recent documents.
    pub save_thumbnail: bool,
    /// The other pictures of the page are of before the edit.
    pub drop_old: bool,
}

impl OpenDocument {
    /// Whether the blocks are well kept.
    pub open spec fn wf(&self) -> bool {
        each_page_once(self.blocks@)
    }

    /// A document that was just opened.
    pub fn new() -> (r: OpenDocument)
        ensures
            r.wf(),
            forall|p: u32| (#[trigger] blocks_of(r.blocks@, p)) is None,
            r@ == (OpenView {
                requested: Set::empty(),
                stale: Set::empty(),
                preview: None,
                thumbnail_saved: false,
                show_blocks: false,
                dirty: false,
                status: None,
                failure: None,
            }),
    {
        OpenDocument {
            blocks: Vec::new(),
            blocks_requested: HashSet::new(),
            stale_pages: HashSet::new(),
            preview: None,
            thumbnail_saved: false,
            show_blocks: false,
            dirty: false,
            status: None,
            failure: None,
        }
    }

    /// A picture of a page came. The first fresh one of an edited page drives
    /// out the old ones; the first thumbnail of the first page is saved.
    pub fn tile_arrived(&mut self, page: u32, is_first_thumbnail: bool) -> (r: TileArrival)
        requires
            old(self).wf(),
        ensures
            r == (TileArrival {
                save_thumbnail: !old(self)@.thumbnail_saved && is_first_thumbnail,
                drop_old: old(self)@.stale.contains(page),
            }),
            final(self).blocks@ == old(self).blocks@,
            final(self)@ == (OpenView {
                thumbnail_saved: old(self)@.thumbnail_saved || is_first_thumbnail,
                stale: old(self)@.stale.remove(page),
                ..old(self)@
            }),
    {
        let save_thumbnail = !self.thumbnail_saved && is_first_thumbnail;
        if save_thumbnail {
            self.thumbnail_saved = true;
        }
        let drop_old = self.stale_pages.remove(&page);
        TileArrival { save_thumbnail, drop_old }
    }

    /// The blocks of a page were read.
    pub fn blocks_arrived(&mut self, page: u32, blocks: Vec<Block>)
        requires
            old(self).wf(),
        ensures
            final(self).wf(),
            blocks_but(old(self).blocks@, final(self).blocks@, page, Some(blocks@)),
            final(self)@ == old(self)@,
    {
        let mut i: usize = 0;
        while i < self.blocks.len() && self.blocks[i].page != page
            invariant
                i <= self.blocks@.len(),
                *self == *old(self),
                forall|m: int| 0 <= m < i ==> (#[trigger] self.blocks@[m]).page != page,
            decreases self.blocks@.len() - i,
        {
            i = i + 1;
        }
        let entry = PageBlocks { page, blocks };
        let ghost before = self.blocks@;
        if i < self.blocks.len() {
            proof {
                lemma_replaced(before, i as int, entry);
            }
            self.blocks.set(i, entry);
        } else {
            proof {
                lemma_added(before, entry);
            }
            self.blocks.push(entry);
        }
    }

    /// A picture of a page with an unfinished edit came. One that came too
    /// late, when the edit was given up, is not shown: there is no such text
    /// in the document.
    pub fn preview_arrived(&mut self, page: u32, drawn: bool, previewing: Option<u32>) -> (r: bool)
        requires
            old(self).wf(),
        ensures
            r == (previewing == Some(page) && drawn),
            final(self).blocks@ == old(self).blocks@,
            final(self)@ == (OpenView {
                preview: if r {
                    Some(page)
                } else {
                    None
                },
                ..old(self)@
            }),
    {
        let current = match previewing {
            Some(other) => other == page,
            None => false,
        };
        if current && drawn {
            self.preview = Some(page);
            true
        } else {
            self.preview = None;
            false
        }
    }

    /// An edit of a page was made: what was read of it is out of date, and its
    /// pictures are, though they are shown for now.
    pub fn edited(&mut self, page: u32)
        requires
            old(self).wf(),
        ensures
            final(self).wf(),
            blocks_but(old(self).blocks@, final(self).blocks@, page, None),
            final(self)@ == (OpenView {
                dirty: true,
                requested: old(self)@.requested.remove(page),
                stale: old(self)@.stale.insert(page),
                ..old(self)@
            }),
    {
        let mut i: usize = 0;
        while i < self.blocks.len() && self.blocks[i].page != page
            invariant
                i <= self.blocks@.len(),
                *self == *old(self),
                forall|m: int| 0 <= m < i ==> (#[trigger] self.blocks@[m]).page != page,
            decreases self.blocks@.len() - i,
        {
            i = i + 1;
        }
        let ghost before = self.blocks@;
        if i < self.blocks.len() {
            proof {
                lemma_removed(before, i as int);
            }
            self.blocks.remove(i);
        } else {
            proof {
                lemma_no_blocks(before, page);
            }
        }
        self.dirty = true;
        self.blocks_requested.remove(&page);
        self.stale_pages.insert(page);
    }

    /// The named styles were read, or changed.
    pub fn styles_arrived(&mut self, changed: bool)
        requires
            old(self).wf(),
        ensures
            final(self).blocks@ == old(self).blocks@,
            final(self)@ == (OpenView { dirty: old(self)@.dirty || changed, ..old(self)@ }),
    {
        if changed {
            self.dirty = true;
        }
    }

    /// The pages have other numbers now: nothing that was known of a page
    /// holds.
    pub fn pages_changed(&mut self)
        requires
            old(self).wf(),
        ensures
            final(self).wf(),
            forall|p: u32| (#[trigger] blocks_of(final(self).blocks@, p)) is None,
            final(self)@ == (OpenView {
                requested: Set::empty(),
                preview: None,
                dirty: true,
                status: Some("Состав страниц изменён"@),
                ..old(self)@
            }),
    {
        self.blocks = Vec::new();
        self.blocks_requested = HashSet::new();
        self.preview = None;
        self.dirty = true;
        self.status = Some("Состав страниц изменён".to_owned());
    }

    /// The document was saved.
    pub fn saved(&mut self, path: &str)
        requires
            old(self).wf(),
        ensures
            final(self).blocks@ == old(self).blocks@,
            final(self)@ == (OpenView {
                dirty: false,
                status: Some("Сохранено: "@ + path@),
                ..old(self)@
            }),
    {
        self.dirty = false;
        self.status = Some("Сохранено: ".to_owned().concat(path));
    }

    /// Something was refused.
    pub fn failed(&mut self, message: String)
        requires
            old(self).wf(),
        ensures
            final(self).blocks@ == old(self).blocks@,
            final(self)@ == (OpenView {
                status: Some(message@),
                failure: Some(message@),
                ..old(self)@
            }),
    {
        self.status = Some(message.clone());
        self.failure = Some(message);
    }

    /// The pages, from the first that is seen, whose blocks have to be asked
    /// for now: each is asked for once. All that are seen are, for mostly two
    /// pages meet in the window, and a click on the lower one counts too.
    pub fn wanted_blocks(&mut self, first: u32, count: u32) -> (r: Vec<u32>)
        requires
            old(self).wf(),
            first < count,
        ensures
            ({
                let end = min_of(first + PREFETCH_AHEAD + 1, count as int);
                &&& r@ == unasked(first as int, end, old(self)@.requested)
                &&& final(self)@ == (OpenView {
                    requested: asked(old(self)@.requested, first as int, end),
                    ..old(self)@
                })
            }),
            forall|page: u32|
                #![trigger r@.contains(page)]
                r@.contains(page) <==> {
                    &&& first <= page <= first + 4
                    &&& page < count
                    &&& !old(self)@.requested.contains(page)
                },
            final(self).blocks@ == old(self).blocks@,
    {
        let end: u32 = if count - first > PREFETCH_AHEAD {
            first + PREFETCH_AHEAD + 1
        } else {
            count
        };
        let mut out: Vec<u32> = Vec::new();
        let mut page: u32 = first;
        while page < end
            invariant
                first <= page <= end,
                self.blocks@ == old(self).blocks@,
                out@ == unasked(first as int, page as int, old(self)@.requested),
                self@ == (OpenView {
                    requested: asked(old(self)@.requested, first as int, page as int),
                    ..old(self)@
                }),
            decreases end - page,
        {
            proof {
                lemma_asked(old(self)@.requested, first as int, page as int, page);
            }
            let new = self.blocks_requested.insert(page);
            if new {
                out.push(page);
            }
            page = page + 1;
        }
        proof {
            assert forall|p: u32| #![trigger out@.contains(p)] out@.contains(p) <==> first <= p
                < end && !old(self)@.requested.contains(p) by {
                lemma_unasked(old(self)@.requested, first as int, end as int, p);
            }
        }
        out
    }

    /// Shows the frames of the blocks, or no longer, and says whether the
    /// blocks of the page have to be asked for.
    pub fn toggle_blocks(&mut self, page: u32) -> (r: bool)
        requires
            old(self).wf(),
        ensures
            r == (!old(self)@.show_blocks && !old(self)@.requested.contains(page)),
            final(self).blocks@ == old(self).blocks@,
            final(self)@ == (OpenView {
                show_blocks: !old(self)@.show_blocks,
                requested: if old(self)@.show_blocks {
                    old(self)@.requested
                } else {
                    old(self)@.requested.insert(page)
                },
                ..old(self)@
            }),
    {
        self.show_blocks = !self.show_blocks;
        if self.show_blocks {
            self.blocks_requested.insert(page)
        } else {
            false
        }
    }
}

/// The pages that were not asked for yet.
pub open spec fn unasked(from: int, to: int, requested: Set<u32>) -> Seq<u32>
    decreases to - from,
{
    if to <= from {
        Seq::empty()
    } else {
        let fewer = unasked(from, to - 1, requested);
        if requested.contains((to - 1) as u32) {
            fewer
        } else {
            fewer.push((to - 1) as u32)
        }
    }
}

/// The pages that were asked for, with more of them.
pub open spec fn asked(requested: Set<u32>, from: int, to: int) -> Set<u32>
    decreases to - from,
{
    if to <= from {
        requested
    } else {
        asked(requested, from, to - 1).insert((to - 1) as u32)
    }
}

proof fn lemma_asked(requested: Set<u32>, from: int, to: int, page: u32)
    requires
        0 <= from,
        to <= u32::MAX,
    ensures
        asked(requested, from, to).contains(page) <==> requested.contains(page) || from <= page
            < to,
    decreases to - from,
{
    if from < to {
        lemma_asked(requested, from, to - 1, page);
    }
}

/// After the blocks of pages were asked for, they are not asked for again.
pub proof fn blocks_are_asked_for_once(requested: Set<u32>, from: int, to: int)
    requires
        0 <= from,
        to <= u32::MAX,
    ensures
        unasked(from, to, asked(requested, from, to)) == Seq::<u32>::empty(),
{
    lemma_none_left(asked(requested, from, to), from, to, requested, to);
}

proof fn lemma_none_left(all: Set<u32>, from: int, to: int, requested: Set<u32>, end: int)
    requires
        0 <= from,
        end <= u32::MAX,
        all == asked(requested, from, end),
        to <= end,
    ensures
        unasked(from, to, all) == Seq::<u32>::empty(),
    decreases to - from,
{
    if from < to {
        lemma_none_left(all, from, to - 1, requested, end);
        lemma_asked(requested, from, end, (to - 1) as u32);
    }
}

/// The pages that are drawn are the one before the first that is seen, that
/// one and the four after it, or nine in a spread, as far as there are so many
/// and a fresh picture is lacking; they are drawn from the top down.
pub proof fn pages_are_drawn_around_the_first(
    first: u32,
    spread: bool,
    count: u32,
    drawn: Seq<u32>,
    stale: Set<u32>,
    page: u32,
)
    requires
        first < count,
    ensures
        ({
            let all = wanted(behind(first), ahead_of(first, spread, count), drawn, stale);
            let last = first + if spread {
                9int
            } else {
                4int
            };
            &&& all.contains(page) <==> first - 1 <= page <= last && page < count && (
            !drawn.contains(page) || stale.contains(page))
            &&& forall|i: int, j: int|
                0 <= i < j < all.len() ==> #[trigger] all[i] < #[trigger] all[j]
        }),
{
    let to = ahead_of(first, spread, count);
    wanted_pages_are_those_without_a_picture(behind(first), to, drawn, stale, page);
    lemma_wanted_in_order(behind(first), to, drawn, stale);
}

proof fn lemma_wanted_in_order(from: int, to: int, drawn: Seq<u32>, stale: Set<u32>)
    requires
        0 <= from,
        to <= u32::MAX,
    ensures
        ({
            let all = wanted(from, to, drawn, stale);
            &&& forall|i: int| 0 <= i < all.len() ==> from <= #[trigger] all[i] < to
            &&& forall|i: int, j: int|
                0 <= i < j < all.len() ==> #[trigger] all[i] < #[trigger] all[j]
        }),
    decreases to - from,
{
    if from < to {
        lemma_wanted_in_order(from, to - 1, drawn, stale);
        let fewer = wanted(from, to - 1, drawn, stale);
        let last = (to - 1) as u32;
        let all = wanted(from, to, drawn, stale);
        assert(all == fewer || all == fewer.push(last));
    }
}

/// A card has the shape of its page, to the rounding: its height is to its
/// width as those of the page. It is nowhere higher than ten thirds of its
/// width, nor lower than a third. A page that is not known stands as ten to
/// seven.
pub proof fn a_card_has_the_shape_of_its_page(card: i64, size: Option<PageSize>)
    requires
        card > 0,
    ensures
        ({
            let h = card_height_of(card as int, size);
            &&& size is None ==> 7 * h <= 10 * card < 7 * (h + 1)
            &&& size is Some && size->0.height >= POINT ==> {
                let (w, l) = (size->0.width, size->0.height);
                &&& 10 * w < 3 * l ==> 3 * h <= 10 * card < 3 * (h + 1)
                &&& w > 3 * l ==> 3 * h <= card < 3 * (h + 1)
                &&& 3 * l <= 10 * w && w <= 3 * l ==> h * w <= card * l < (h + 1) * w
            }
        }),
{
    if let Some(size) = size {
        let (w, l) = (size.width as int, size.height as int);
        if l >= POINT && 3 * l <= 10 * w && w <= 3 * l {
            let h = card_height_of(card as int, Some(size));
            let n = card * l;
            vstd::arithmetic::div_mod::lemma_fundamental_div_mod(n, w);
            vstd::arithmetic::div_mod::lemma_mod_bound(n, w);
            assert(h * w == w * h && (h + 1) * w == w * h + w) by (nonlinear_arith);
        }
    }
}

/// As many cards stand in a row as fit with ten pixels beside each, and at
/// least one.
pub proof fn cards_fill_the_row(view: GridView)
    requires
        view.wf(),
        view.width >= POINT,
    ensures
        view.columns() >= 1,
        view.columns() * (view.card + 10 * POINT) <= view.width || view.columns() == 1,
        (view.columns() + 1) * (view.card + 10 * POINT) > view.width,
{
    let cell = view.card + 10 * POINT;
    let n = view.width as int / cell;
    vstd::arithmetic::div_mod::lemma_fundamental_div_mod(view.width as int, cell);
    vstd::arithmetic::div_mod::lemma_mod_bound(view.width as int, cell);
    let c = view.columns();
    assert(c * cell == cell * c && (c + 1) * cell == cell * c + cell) by (nonlinear_arith);
    assert(n >= 0) by (nonlinear_arith)
        requires
            cell * n + cell > 0,
            cell > 0,
    ;
    if n == 0 {
        assert(cell * n == 0) by (nonlinear_arith)
            requires
                n == 0,
        ;
    }
}

proof fn lemma_quotient(n: int, d: int)
    requires
        d > 0,
    ensures
        (n / d) * d <= n < (n / d + 1) * d,
{
    vstd::arithmetic::div_mod::lemma_fundamental_div_mod(n, d);
    vstd::arithmetic::div_mod::lemma_mod_bound(n, d);
    let q = n / d;
    assert(q * d == d * q && (q + 1) * d == d * q + d) by (nonlinear_arith);
}

proof fn lemma_before(a: int, b: int, d: int)
    requires
        d > 0,
        a * d < b * d,
    ensures
        a < b,
{
    assert(a < b) by (nonlinear_arith)
        requires
            d > 0,
            a * d < b * d,
    ;
}

/// The rows that show, of those that lie one below the other from the top of
/// the grid on, are among those from the one on top.
proof fn lemma_row_seen(view: GridView, size: Option<PageSize>, row: int)
    requires
        view.wf(),
        size matches Some(size) ==> near(size.width) && near(size.height),
        view.height >= POINT,
        row >= 0,
        row * view.row_height(size) < view.offset + view.height,
        (row + 1) * view.row_height(size) > view.offset,
    ensures
        view.top_row(size) <= row <= view.top_row(size) + view.rows_seen(size),
{
    let pitch = view.row_height(size);
    lemma_card_height(view.card as int, size);
    let q = view.offset as int / pitch;
    lemma_quotient(view.offset as int, pitch);
    lemma_before(q, row + 1, pitch);
    let total = view.height + pitch - 1;
    let n = total / pitch;
    lemma_quotient(total, pitch);
    let top = view.top_row(size);
    assert((n + 1) * pitch == n * pitch + pitch) by (nonlinear_arith);
    assert(n * pitch >= view.height);
    if q >= 0 {
        assert((q + 1 + n) * pitch == (q + 1) * pitch + n * pitch) by (nonlinear_arith);
        lemma_before(row, q + 1 + n, pitch);
    } else {
        assert(view.offset < 0) by (nonlinear_arith)
            requires
                view.offset < (q + 1) * pitch,
                q + 1 <= 0,
                pitch > 0,
        ;
        lemma_before(row, n, pitch);
    }
}

/// Every card that shows is drawn: the window of the grid reaches from
/// `offset` as far as it is high, and a card whose row meets it is wanted.
pub proof fn every_card_that_shows_is_drawn(
    view: GridView,
    size: Option<PageSize>,
    count: u32,
    card: int,
)
    requires
        view.wf(),
        size matches Some(size) ==> near(size.width) && near(size.height),
        view.height >= POINT,
        0 <= card < count,
        card / view.columns() * view.row_height(size) < view.offset + view.height,
        (card / view.columns() + 1) * view.row_height(size) > view.offset,
    ensures
        view.window(size, count).0 <= card < view.window(size, count).1,
{
    let columns = view.columns();
    let row = card / columns;
    lemma_quotient(card, columns);
    assert(row >= 0) by (nonlinear_arith)
        requires
            (row + 1) * columns > 0,
            columns > 0,
    ;
    lemma_row_seen(view, size, row);
    let top = view.top_row(size);
    let seen = view.rows_seen(size);
    assert(top * columns <= row * columns) by (nonlinear_arith)
        requires
            top <= row,
            columns > 0,
    ;
    assert((row + 1) * columns <= (top + seen + 2) * columns) by (nonlinear_arith)
        requires
            row <= top + seen,
            columns > 0,
    ;
    assert((top + seen + 2) * columns == top * columns + (seen + 2) * columns) by (nonlinear_arith);
}

/// No card far from the window is drawn: a card that is wanted lies at most a
/// row above it and two below.
pub proof fn no_card_far_off_is_drawn(
    view: GridView,
    size: Option<PageSize>,
    count: u32,
    card: int,
)
    requires
        view.wf(),
        size matches Some(size) ==> near(size.width) && near(size.height),
        view.height >= POINT,
        view.offset >= 0,
        view.window(size, count).0 <= card < view.window(size, count).1,
    ensures
        0 <= card < count,
        (card / view.columns() + 2) * view.row_height(size) > view.offset,
        card / view.columns() * view.row_height(size) < view.offset + view.height + 2
            * view.row_height(size),
{
    let columns = view.columns();
    let row = card / columns;
    let pitch = view.row_height(size);
    lemma_card_height(view.card as int, size);
    lemma_quotient(card, columns);
    let top = view.top_row(size);
    let seen = view.rows_seen(size);
    lemma_quotient(view.offset as int, pitch);
    let total = view.height + pitch - 1;
    lemma_quotient(total, pitch);
    assert(view.offset as int / pitch >= 0) by (nonlinear_arith)
        requires
            view.offset >= 0,
            pitch > 0,
    ;
    assert((top - 1) * columns == top * columns - columns) by (nonlinear_arith);
    lemma_before(top - 1, row + 1, columns);
    assert((top + seen + 2) * columns == top * columns + (seen + 2) * columns) by (nonlinear_arith);
    lemma_before(row, top + seen + 2, columns);
    assert((row + 2) * pitch >= (top + 1) * pitch) by (nonlinear_arith)
        requires
            row + 2 >= top + 1,
            pitch > 0,
    ;
    assert(row * pitch <= (top + seen + 1) * pitch) by (nonlinear_arith)
        requires
            row <= top + seen + 1,
            pitch > 0,
    ;
    assert((top + seen + 1) * pitch == top * pitch + seen * pitch + pitch) by (nonlinear_arith);
}

/// Blocks are asked for of the pages that were not asked for, of no other and
/// once each, and afterwards all of them were asked for.
pub proof fn blocks_are_asked_for_where_they_are_lacking(
    requested: Set<u32>,
    from: int,
    to: int,
    page: u32,
)
    requires
        0 <= from,
        to <= u32::MAX,
    ensures
        unasked(from, to, requested).contains(page) <==> from <= page < to && !requested.contains(
            page,
        ),
        asked(requested, from, to).contains(page) <==> requested.contains(page) || from <= page
            < to,
        forall|i: int, j: int|
            0 <= i < j < unasked(from, to, requested).len() ==> #[trigger] unasked(
                from,
                to,
                requested,
            )[i] < #[trigger] unasked(from, to, requested)[j],
{
    lemma_asked(requested, from, to, page);
    lemma_unasked(requested, from, to, page);
}

proof fn lemma_unasked(requested: Set<u32>, from: int, to: int, page: u32)
    requires
        0 <= from,
        to <= u32::MAX,
    ensures
        ({
            let all = unasked(from, to, requested);
            &&& all.contains(page) <==> from <= page < to && !requested.contains(page)
            &&& forall|i: int| 0 <= i < all.len() ==> from <= #[trigger] all[i] < to
            &&& forall|i: int, j: int|
                0 <= i < j < all.len() ==> #[trigger] all[i] < #[trigger] all[j]
        }),
    decreases to - from,
{
    if from < to {
        lemma_unasked(requested, from, to - 1, page);
        let fewer = unasked(from, to - 1, requested);
        let last = (to - 1) as u32;
        let more = fewer.push(last);
        assert(more[more.len() - 1] == last);
        if fewer.contains(page) {
            let k = choose|k: int| 0 <= k < fewer.len() && fewer[k] == page;
            assert(more[k] == page);
        }
    }
}

} // verus!
