//! The grid in which whole pages are picked and moved.
use crate::geometry::{greatest, least, near, Spot};
use crate::numerals::{decimal, decimal_text};
use crate::pages::{
    all_pages, ascending, carried_order, count_moving, countable, delete_ops, deletions_of,
    holds_page, lemma_carried_fit, move_ops, moved_pages_stand_in_a_row, moves_of,
    ordering_keeps_the_pages, page_range, pages_in, rearranged_all, rotate_ops, sorted_pages,
    staying_before, PageOp,
};
use crate::units::POINT;
use crate::viewer::{Viewer, ViewerView};
use vstd::prelude::*;

verus! {

/// The narrowest card, in pixels.
pub const NARROWEST_CARD: i64 = 90 * 0x100_0000;

/// The widest card, in pixels.
pub const WIDEST_CARD: i64 = 320 * 0x100_0000;

/// The state of the grid. Pages are counted from zero.
#[derive(Debug)]
pub struct Organise {
    pub picked: Vec<u32>,
    /// Whether a click adds to what is picked.
    pub multi: bool,
    /// The width of a card, in pixels.
    pub card: i64,
    /// How many cards stand in a row.
    pub columns: u32,
    /// The page that is carried.
    pub dragging: Option<u32>,
    /// The slot under the cursor: the carried page goes before it.
    pub drop_at: Option<u32>,
    /// The page that is pressed and not carried yet: carrying begins when the
    /// cursor leaves the place.
    pub press: Option<(u32, Spot)>,
    /// Where a range of pages begins.
    pub anchor: Option<u32>,
    /// The pages that were copied.
    pub clipboard: Vec<u32>,
}

/// What an [`Organise`] holds.
#[verifier::ext_equal]
pub struct OrganiseView {
    pub picked: Seq<u32>,
    pub multi: bool,
    pub card: i64,
    pub columns: u32,
    pub dragging: Option<u32>,
    pub drop_at: Option<u32>,
    pub press: Option<(u32, Spot)>,
    pub anchor: Option<u32>,
    pub clipboard: Seq<u32>,
}

impl View for Organise {
    type V = OrganiseView;

    open spec fn view(&self) -> OrganiseView {
        OrganiseView {
            picked: self.picked@,
            multi: self.multi,
            card: self.card,
            columns: self.columns,
            dragging: self.dragging,
            drop_at: self.drop_at,
            press: self.press,
            anchor: self.anchor,
            clipboard: self.clipboard@,
        }
    }
}

/// The pages from one to another, whichever comes first.
pub open spec fn pages_between(a: u32, b: u32) -> Seq<u32> {
    let (lo, hi) = if a <= b {
        (a, b)
    } else {
        (b, a)
    };
    Seq::new((hi - lo + 1) as nat, |i: int| (lo + i) as u32)
}

/// The pages without the first one of a number, or with it at the end.
pub open spec fn toggled(picked: Seq<u32>, page: u32) -> Seq<u32> {
    match picked.index_of_first(page) {
        Some(at) => picked.remove(at),
        None => picked.push(page),
    }
}

impl OrganiseView {
    /// The state after a page was picked.
    pub open spec fn with_pick(self, page: u32, add: bool, range: bool) -> OrganiseView {
        if range && self.anchor is Some {
            OrganiseView { picked: pages_between(self.anchor->0, page), ..self }
        } else {
            OrganiseView {
                picked: if add || self.multi {
                    toggled(self.picked, page)
                } else {
                    seq![page]
                },
                anchor: Some(page),
                ..self
            }
        }
    }

    /// The pages that an action on a page is about: all that are picked, where
    /// it is one of them, else the page alone.
    pub open spec fn targets(self, page: u32) -> Seq<u32> {
        if self.picked.contains(page) {
            ascending(self.picked)
        } else {
            seq![page]
        }
    }

    /// The first page that is picked, or page zero.
    pub open spec fn first_picked(self) -> u32 {
        if self.picked.len() > 0 {
            self.picked[0]
        } else {
            0
        }
    }
}

/// The largest of page numbers.
pub open spec fn last_page(pages: Seq<u32>) -> int
    decreases pages.len(),
{
    if pages.len() == 0 {
        -1
    } else if pages.last() > last_page(pages.drop_last()) {
        pages.last() as int
    } else {
        last_page(pages.drop_last())
    }
}

/// What pressing a card comes to.
#[derive(Clone, Copy, Debug, PartialEq, Eq, Structural)]
pub enum CardPress {
    /// The grid is closed, and the page is shown.
    Open,
    Held,
}

/// Whether the cursor has left the place of a press.
pub open spec fn left_the_place(from: Spot, to: Spot) -> bool {
    crate::geometry::abs_of(to.x - from.x) + crate::geometry::abs_of(to.y - from.y) > 8 * POINT
}

/// What came of dropping pages.
#[derive(Debug)]
pub enum Dropped {
    /// Nothing was carried, or it stands there already.
    Nothing,
    /// The operations that move the pages.
    Moves(Vec<PageOp>),
}

/// The pages that are carried: all that are picked, where the carried one is
/// among them.
pub open spec fn carried(picked: Seq<u32>, page: u32) -> Seq<u32> {
    if picked.contains(page) {
        ascending(picked)
    } else {
        seq![page]
    }
}

impl Organise {
    /// Whether the grid is as it is opened.
    pub open spec fn is_fresh(&self) -> bool {
        self@ == (OrganiseView {
            picked: Seq::empty(),
            multi: false,
            card: (150 * POINT) as i64,
            columns: 1,
            dragging: None,
            drop_at: None,
            press: None,
            anchor: None,
            clipboard: Seq::empty(),
        })
    }

    pub fn new() -> (r: Organise)
        ensures
            r.is_fresh(),
    {
        Organise {
            picked: Vec::new(),
            multi: false,
            card: 150 * POINT,
            columns: 1,
            dragging: None,
            drop_at: None,
            press: None,
            anchor: None,
            clipboard: Vec::new(),
        }
    }

    /// Picks a page: alone; together with the others; or with all between it
    /// and the one that was picked before.
    pub fn organise_pick(&mut self, page: u32, add: bool, range: bool)
        ensures
            final(self)@ == old(self)@.with_pick(page, add, range),
    {
        if range {
            if let Some(from) = self.anchor {
                let (lo, hi): (u32, u32) = if from <= page {
                    (from, page)
                } else {
                    (page, from)
                };
                let mut picked: Vec<u32> = Vec::new();
                let mut next: u32 = lo;
                picked.push(lo);
                while next < hi
                    invariant
                        lo <= next <= hi,
                        picked@ == Seq::new((next - lo + 1) as nat, |i: int| (lo + i) as u32),
                    decreases hi - next,
                {
                    next = next + 1;
                    picked.push(next);
                }
                self.picked = picked;
                assert(self@ == old(self)@.with_pick(page, add, range));
                return;
            }
        }
        if add || self.multi {
            proof {
                self.picked@.index_of_first_ensures(page);
            }
            let mut at: usize = 0;
            while at < self.picked.len() && self.picked[at] != page
                invariant
                    at <= self.picked@.len(),
                    self@ == old(self)@,
                    forall|k: int| 0 <= k < at ==> #[trigger] self.picked@[k] != page,
                decreases self.picked@.len() - at,
            {
                at = at + 1;
            }
            if at < self.picked.len() {
                assert(self.picked@.contains(page));
                self.picked.remove(at);
            } else {
                assert(!self.picked@.contains(page));
                self.picked.push(page);
            }
        } else {
            let mut picked: Vec<u32> = Vec::new();
            picked.push(page);
            self.picked = picked;
            assert(self.picked@ == seq![page]);
        }
        self.anchor = Some(page);
    }

    /// The page that the buttons of the bar and the keys are about.
    pub fn anchor_page(&self) -> (r: u32)
        ensures
            r == self@.first_picked(),
    {
        if self.picked.len() > 0 {
            self.picked[0]
        } else {
            0
        }
    }

    /// Picks all pages.
    pub fn pick_all(&mut self, count: u32)
        ensures
            final(self)@ == (OrganiseView {
                picked: crate::pages::all_pages(count),
                anchor: Some(0),
                ..old(self)@
            }),
    {
        let mut picked: Vec<u32> = Vec::new();
        let mut next: u32 = 0;
        while next < count
            invariant
                next <= count,
                picked@ == crate::pages::all_pages(next),
            decreases count - next,
        {
            picked.push(next);
            next = next + 1;
        }
        self.picked = picked;
        self.anchor = Some(0);
    }

    /// Copies the picked pages, and says how many they are. Only their numbers
    /// are kept: the pages are taken from the document when they are pasted.
    pub fn organise_copy(&mut self) -> (r: usize)
        ensures
            r == old(self)@.picked.len(),
            r == 0 ==> final(self)@ == old(self)@,
            r > 0 ==> final(self)@ == (OrganiseView {
                clipboard: ascending(old(self)@.picked),
                ..old(self)@
            }),
    {
        let pages = sorted_pages(&self.picked);
        let n: usize = pages.len();
        if n > 0 {
            self.clipboard = pages;
        }
        n
    }

    /// The page, counted from one, after which copies are pasted: the last
    /// that is picked, or the last of all.
    pub fn paste_place(&self, count: u32) -> (r: u32)
        requires
            countable(self.picked@),
        ensures
            r == if self@.picked.len() > 0 {
                last_page(self@.picked) + 1
            } else {
                count as int
            },
    {
        if self.picked.len() == 0 {
            return count;
        }
        let mut last: u32 = self.picked[0];
        let mut i: usize = 1;
        proof {
            reveal_with_fuel(last_page, 2);
            assert(self.picked@.take(1).drop_last() == Seq::<u32>::empty());
            assert(self.picked@.take(1).last() == last);
        }
        while i < self.picked.len()
            invariant
                1 <= i <= self.picked@.len(),
                last == last_page(self.picked@.take(i as int)),
            decreases self.picked@.len() - i,
        {
            assert(self.picked@.take(i + 1).drop_last() == self.picked@.take(i as int));
            if self.picked[i] > last {
                last = self.picked[i];
            }
            i = i + 1;
        }
        assert(self.picked@.take(i as int) == self.picked@);
        proof {
            lemma_last_page(self.picked@);
        }
        last + 1
    }

    /// The pages that an action on a page is about.
    pub fn organise_targets(&self, page: u32) -> (r: Vec<u32>)
        ensures
            r@ == self@.targets(page),
    {
        if holds_page(&self.picked, page) {
            sorted_pages(&self.picked)
        } else {
            let mut alone: Vec<u32> = Vec::new();
            alone.push(page);
            assert(alone@ == seq![page]);
            alone
        }
    }

    /// Turns the picked pages.
    pub fn organise_rotate(&self, page: u32, clockwise: bool) -> (r: Vec<PageOp>)
        requires
            countable(self.picked@),
            page < u32::MAX,
        ensures
            r@ == Seq::new(
                self@.targets(page).len(),
                |i: int|
                    PageOp::Rotate { page_number: (self@.targets(page)[i] + 1) as u32, clockwise },
            ),
    {
        let targets = self.organise_targets(page);
        proof {
            lemma_targets_countable(self@, page);
        }
        rotate_ops(&targets, clockwise)
    }

    /// Deletes the picked pages; nothing is picked then.
    pub fn organise_delete(&mut self, page: u32) -> (r: Vec<PageOp>)
        requires
            countable(old(self).picked@),
            page < u32::MAX,
        ensures
            r@ == deletions_of(old(self)@.targets(page)),
            final(self)@ == (OrganiseView { picked: Seq::empty(), ..old(self)@ }),
    {
        let targets = self.organise_targets(page);
        proof {
            lemma_targets_countable(self@, page);
        }
        let ops = delete_ops(&targets);
        self.picked = Vec::new();
        ops
    }

    /// Drops what is carried into a slot: it goes before the page that stands
    /// there, and behind all pages where none does. The picked pages are then
    /// the carried ones, by their new numbers.
    pub fn organise_drop(&mut self, slot: u32, count: u32) -> (r: Dropped)
        requires
            count < u32::MAX,
        ensures
            match old(self)@.dragging {
                None => r is Nothing && final(self)@ == (OrganiseView {
                    drop_at: None,
                    ..old(self)@
                }),
                Some(from) => {
                    let moving = carried(old(self)@.picked, from);
                    let place = if slot <= count {
                        slot as int
                    } else {
                        count as int
                    };
                    let ops = moves_of(count, moving, place);
                    let order = rearranged_all(all_pages(count), ops);
                    let went = pages_in(moving, true, 0, count as int);
                    let base = staying_before(moving, place);
                    let picked = page_range(base, base + went.len());
                    &&& ops.len() == 0 ==> r is Nothing
                    &&& ops.len() > 0 ==> r is Moves && r->0@ == ops
                    &&& order == carried_order(count, moving, place)
                    &&& forall|i: int|
                        0 <= i < went.len() ==> order[(#[trigger] picked[i]) as int] == went[i]
                    &&& final(self)@ == (OrganiseView {
                        picked,
                        anchor: if picked.len() > 0 {
                            Some(picked[0])
                        } else {
                            None
                        },
                        dragging: None,
                        drop_at: None,
                        press: None,
                        ..old(self)@
                    })
                },
            },
    {
        self.drop_at = None;
        let from = match self.dragging {
            Some(from) => from,
            None => {
                return Dropped::Nothing;
            },
        };
        self.dragging = None;
        self.press = None;
        let moving = self.organise_targets(from);
        assert(moving@ == carried(old(self)@.picked, from));
        let place: u32 = if slot < count {
            slot
        } else {
            count
        };
        let ops = move_ops(count, &moving, place);
        let base: u32 = place - count_moving(&moving, place);
        let went: u32 = count_moving(&moving, count);
        proof {
            lemma_carried_fit(moving@, place as int, count as int);
        }
        let mut picked: Vec<u32> = Vec::new();
        let mut i: u32 = 0;
        while i < went
            invariant
                i <= went,
                base + went <= count,
                picked@ == page_range(base as int, base + i),
            decreases went - i,
        {
            picked.push(base + i);
            i = i + 1;
            assert(picked@ == page_range(base as int, base + i));
        }
        self.anchor = if picked.len() > 0 {
            Some(picked[0])
        } else {
            None
        };
        self.picked = picked;
        if ops.len() == 0 {
            Dropped::Nothing
        } else {
            Dropped::Moves(ops)
        }
    }

    /// A press on a card. A second one opens its page; a single one only is
    /// remembered, and with a key held it changes at once what is picked.
    pub fn press_card(&mut self, page: u32, at: Spot, clicks: usize, control: bool, shift: bool) -> (r:
        CardPress)
        ensures
            r == if clicks >= 2 {
                CardPress::Open
            } else {
                CardPress::Held
            },
            clicks >= 2 ==> final(self)@ == old(self)@,
            clicks < 2 ==> final(self)@ == {
                let held = OrganiseView { press: Some((page, at)), ..old(self)@ };
                if control || shift {
                    held.with_pick(page, control, shift)
                } else {
                    held
                }
            },
    {
        if clicks >= 2 {
            return CardPress::Open;
        }
        self.press = Some((page, at));
        if control || shift {
            self.organise_pick(page, control, shift);
        }
        CardPress::Held
    }

    /// Follows the cursor: a pressed page is carried once the cursor has left
    /// the place. All that are picked are carried with it, where it is one of
    /// them.
    pub fn move_over_grid(&mut self, to: Spot) -> (r: bool)
        requires
            to.is_near(),
            old(self).press matches Some((_, at)) ==> at.is_near(),
        ensures
            r == (old(self)@.dragging is None && old(self)@.press is Some && left_the_place(
                (old(self)@.press->0).1,
                to,
            )),
            !r ==> final(self)@ == old(self)@,
            r ==> final(self)@ == {
                let page = (old(self)@.press->0).0;
                let dragging = Some(page);
                if old(self)@.picked.contains(page) {
                    OrganiseView { dragging, ..old(self)@ }
                } else {
                    OrganiseView {
                        dragging,
                        picked: seq![page],
                        anchor: Some(page),
                        ..old(self)@
                    }
                }
            },
    {
        if self.dragging.is_some() {
            return false;
        }
        let (page, at) = match self.press {
            Some(press) => press,
            None => {
                return false;
            },
        };
        let dx: i64 = if to.x >= at.x {
            to.x - at.x
        } else {
            at.x - to.x
        };
        let dy: i64 = if to.y >= at.y {
            to.y - at.y
        } else {
            at.y - to.y
        };
        if dx + dy <= 8 * POINT {
            return false;
        }
        if !holds_page(&self.picked, page) {
            let mut picked: Vec<u32> = Vec::new();
            picked.push(page);
            assert(picked@ == seq![page]);
            self.picked = picked;
            self.anchor = Some(page);
        }
        self.dragging = Some(page);
        true
    }

    /// The cursor is over a slot while a page is carried.
    pub fn hover_slot(&mut self, slot: u32) -> (r: bool)
        ensures
            r == (old(self)@.dragging is Some && old(self)@.drop_at != Some(slot)),
            !r ==> final(self)@ == old(self)@,
            r ==> final(self)@ == (OrganiseView { drop_at: Some(slot), ..old(self)@ }),
    {
        if self.dragging.is_none() {
            return false;
        }
        if let Some(at) = self.drop_at {
            if at == slot {
                return false;
            }
        }
        self.drop_at = Some(slot);
        true
    }

    /// Lets a card go: where it was pressed, and nothing is carried and no key
    /// held, the page is picked.
    pub fn release_card(&mut self, page: u32, control: bool, shift: bool)
        ensures
            final(self)@ == {
                let free = OrganiseView { press: None, ..old(self)@ };
                if old(self)@.dragging is None && old(self)@.press is Some
                    && (old(self)@.press->0).0 == page && !control && !shift {
                    free.with_pick(page, false, false)
                } else {
                    free
                }
            },
    {
        let pressed = match self.press {
            Some((from, _)) => from == page,
            None => false,
        };
        self.press = None;
        if self.dragging.is_none() && pressed && !control && !shift {
            self.organise_pick(page, false, false);
        }
    }

    /// Lets go beside all slots: what is carried goes back.
    pub fn release_beside(&mut self) -> (r: bool)
        ensures
            r == (old(self)@.dragging is Some),
            final(self)@ == (OrganiseView {
                press: None,
                dragging: None,
                drop_at: if r {
                    None
                } else {
                    old(self)@.drop_at
                },
                ..old(self)@
            }),
    {
        self.press = None;
        if self.dragging.is_some() {
            self.dragging = None;
            self.drop_at = None;
            true
        } else {
            false
        }
    }

    /// A press of the right button: a page that is not picked becomes so, for
    /// the menu is of what is picked.
    pub fn right_press(&mut self, page: u32)
        ensures
            final(self)@ == if old(self)@.picked.contains(page) {
                old(self)@
            } else {
                old(self)@.with_pick(page, false, false)
            },
    {
        if !holds_page(&self.picked, page) {
            self.organise_pick(page, false, false);
        }
    }

    /// Turns the picking of several pages on or off; off, one stays picked.
    pub fn toggle_multi(&mut self)
        ensures
            final(self)@ == (OrganiseView {
                multi: !old(self)@.multi,
                picked: if old(self)@.multi && old(self)@.picked.len() > 1 {
                    old(self)@.picked.take(1)
                } else {
                    old(self)@.picked
                },
                ..old(self)@
            }),
    {
        self.multi = !self.multi;
        if !self.multi && self.picked.len() > 1 {
            self.picked.truncate(1);
        }
    }

    /// Makes the cards wider or narrower.
    pub fn resize_cards(&mut self, step: i64)
        requires
            near(old(self).card),
            near(step),
        ensures
            final(self)@ == (OrganiseView {
                card: if old(self)@.card + step < NARROWEST_CARD {
                    NARROWEST_CARD
                } else if old(self)@.card + step > WIDEST_CARD {
                    WIDEST_CARD
                } else {
                    (old(self)@.card + step) as i64
                },
                ..old(self)@
            }),
    {
        self.card = least(greatest(self.card + step, NARROWEST_CARD), WIDEST_CARD);
    }
}

/// The last page is one of them.
proof fn lemma_last_page(pages: Seq<u32>)
    ensures
        pages.len() > 0 ==> pages.contains(last_page(pages) as u32) && 0 <= last_page(pages)
            <= u32::MAX,
        forall|i: int| 0 <= i < pages.len() ==> #[trigger] pages[i] <= last_page(pages),
        last_page(pages) >= -1,
    decreases pages.len(),
{
    if pages.len() > 0 {
        let fewer = pages.drop_last();
        lemma_last_page(fewer);
        if pages.last() > last_page(fewer) {
            assert(pages[pages.len() - 1] == pages.last());
        } else {
            let last = last_page(fewer) as u32;
            let k = choose|k: int| 0 <= k < fewer.len() && fewer[k] == last;
            assert(pages[k] == last);
        }
        assert forall|i: int| 0 <= i < pages.len() implies #[trigger] pages[i] <= last_page(
            pages,
        ) by {
            if i < fewer.len() {
                assert(fewer[i] == pages[i]);
            }
        }
    }
}

/// Pasting after the picked pages is pasting after the last of them.
pub proof fn the_last_page_is_the_greatest(pages: Seq<u32>)
    requires
        pages.len() > 0,
    ensures
        pages.contains(last_page(pages) as u32),
        forall|i: int| 0 <= i < pages.len() ==> #[trigger] pages[i] <= last_page(pages),
{
    lemma_last_page(pages);
}

/// Pages that were picked are picked after they were carried to a slot: the
/// picked places are those where they stand, in their order, and the other
/// pages keep theirs before and behind them.
pub proof fn the_selection_moves_with_the_pages(picked: Seq<u32>, from: u32, slot: int, count: u32)
    requires
        picked.no_duplicates(),
        forall|i: int| 0 <= i < picked.len() ==> #[trigger] picked[i] < count,
        from < count,
        0 <= slot <= count,
    ensures
        ({
            let moving = carried(picked, from);
            let order = rearranged_all(all_pages(count), moves_of(count, moving, slot));
            let base = staying_before(moving, slot);
            &&& order == pages_in(moving, false, 0, slot) + moving + pages_in(
                moving,
                false,
                slot,
                count as int,
            )
            &&& pages_in(moving, true, 0, count as int) == moving
            &&& order.subrange(base, base + moving.len()) == moving
        }),
{
    let moving = carried(picked, from);
    ordering_keeps_the_pages(picked);
    crate::pages::lemma_ascending_keeps(picked);
    if picked.contains(from) {
        assert(moving.contains(moving.last()));
        assert(picked.contains(moving.last()));
    }
    moved_pages_stand_in_a_row(count, moving, slot);
    crate::pages::lemma_pages_among(moving, count as int);
}

proof fn lemma_targets_countable(v: OrganiseView, page: u32)
    requires
        countable(v.picked),
        page < u32::MAX,
    ensures
        countable(v.targets(page)),
{
    crate::pages::lemma_ascending_keeps(v.picked);
    let all = ascending(v.picked);
    assert forall|i: int| 0 <= i < v.targets(page).len() implies #[trigger] v.targets(page)[i]
        < u32::MAX by {
        if v.picked.contains(page) {
            assert(all.contains(all[i]));
            assert(v.picked.contains(all[i]));
        }
    }
}

/// Picking never picks a page twice.
pub proof fn no_page_is_picked_twice(v: OrganiseView, page: u32, add: bool, range: bool)
    requires
        v.picked.no_duplicates(),
    ensures
        v.with_pick(page, add, range).picked.no_duplicates(),
{
    let after = v.with_pick(page, add, range).picked;
    if !(range && v.anchor is Some) && (add || v.multi) {
        v.picked.index_of_first_ensures(page);
        if let Some(at) = v.picked.index_of_first(page) {
            assert forall|i: int, j: int|
                0 <= i < after.len() && 0 <= j < after.len() && i != j implies after[i]
                != after[j] by {
                let a = if i < at {
                    i
                } else {
                    i + 1
                };
                let b = if j < at {
                    j
                } else {
                    j + 1
                };
                assert(v.picked[a] != v.picked[b]);
            }
        }
    }
}

/// A click picks the page alone; with the key for several it adds the page or takes
/// it out and leaves the others; with the key for a range it picks all from the one
/// that was clicked before to this one.
pub proof fn a_click_picks_what_it_says(v: OrganiseView, page: u32, add: bool, range: bool, p: u32)
    requires
        v.picked.no_duplicates(),
    ensures
        ({
            let after = v.with_pick(page, add, range);
            let ranged = range && v.anchor is Some;
            let from = v.anchor->0;
            &&& ranged ==> (after.picked.contains(p) <==> from <= p <= page || page <= p <= from)
            &&& ranged ==> after.anchor == v.anchor
            &&& !ranged && (add || v.multi) ==> (after.picked.contains(p) <==> if p == page {
                !v.picked.contains(page)
            } else {
                v.picked.contains(p)
            })
            &&& !ranged && !add && !v.multi ==> (after.picked.contains(p) <==> p == page)
            &&& !ranged ==> after.anchor == Some(page)
            &&& after.clipboard == v.clipboard
            &&& after.multi == v.multi
        }),
{
    let after = v.with_pick(page, add, range).picked;
    if range && v.anchor is Some {
        let from = v.anchor->0;
        let lo = if from <= page {
            from
        } else {
            page
        };
        if from <= p <= page || page <= p <= from {
            assert(after[p - lo] == p);
        }
    } else if add || v.multi {
        v.picked.index_of_first_ensures(page);
        match v.picked.index_of_first(page) {
            Some(at) => {
                if v.picked.contains(p) && p != page {
                    let k = choose|k: int| 0 <= k < v.picked.len() && v.picked[k] == p;
                    if k < at {
                        assert(after[k] == p);
                    } else {
                        assert(after[k - 1] == p);
                    }
                }
                if after.contains(p) {
                    let k = choose|k: int| 0 <= k < after.len() && after[k] == p;
                    let was = if k < at {
                        k
                    } else {
                        k + 1
                    };
                    assert(v.picked[was] == p);
                    assert(v.picked[at] == page);
                }
                assert(v.picked.contains(page)) by {
                    assert(v.picked[at] == page);
                }
            },
            None => {
                if v.picked.contains(p) {
                    let k = choose|k: int| 0 <= k < v.picked.len() && v.picked[k] == p;
                    assert(after[k] == p);
                }
                if p == page {
                    assert(after[after.len() - 1] == p);
                }
                if after.contains(p) && p != page {
                    let k = choose|k: int| 0 <= k < after.len() && after[k] == p;
                    assert(v.picked[k] == p);
                }
            },
        }
    } else {
        assert(after[0] == page);
    }
}

/// An action on a picked page is about all that are picked, from the first to the
/// last, and one on another page is about that page alone. So it is when pages are
/// carried.
pub proof fn an_action_is_about_the_picked_pages(v: OrganiseView, page: u32, p: u32)
    ensures
        carried(v.picked, page) == v.targets(page),
        v.picked.contains(page) ==> (v.targets(page).contains(p) <==> v.picked.contains(p))
            && v.targets(page).len() == v.picked.len(),
        !v.picked.contains(page) ==> v.targets(page) == seq![page],
        forall|i: int, j: int|
            0 <= i < j < v.targets(page).len() ==> #[trigger] v.targets(page)[i]
                <= #[trigger] v.targets(page)[j],
{
    crate::pages::lemma_ascending_keeps(v.picked);
    assert(v.picked.contains(p) == ascending(v.picked).contains(p));
}

/// Adding a page and taking it out again leaves what was picked.
pub proof fn adding_a_page_twice_leaves_the_rest(v: OrganiseView, page: u32)
    requires
        !v.picked.contains(page),
    ensures
        v.with_pick(page, true, false).with_pick(page, true, false).picked == v.picked,
{
    v.picked.index_of_first_ensures(page);
    let once = v.picked.push(page);
    once.index_of_first_ensures(page);
    assert(once[once.len() - 1] == page);
    assert(once.contains(page));
    let at = once.index_of_first(page)->0;
    if at < v.picked.len() {
        assert(v.picked[at] == page);
    }
    assert(once.remove(at) == v.picked);
}

/// The pages in the clipboard: those of the grid, else the one page that was
/// copied in the panel of thumbnails.
pub fn clipboard_pages(grid: &Option<Organise>, copied: Option<u32>) -> (r: Vec<u32>)
    ensures
        r@ == match *grid {
            Some(organise) if organise@.clipboard.len() > 0 => organise@.clipboard,
            _ => match copied {
                Some(page) => seq![page],
                None => Seq::empty(),
            },
        },
{
    if let Some(organise) = grid {
        if organise.clipboard.len() > 0 {
            return organise.clipboard.clone();
        }
    }
    let mut out: Vec<u32> = Vec::new();
    if let Some(page) = copied {
        out.push(page);
        assert(out@ == seq![page]);
    }
    out
}

/// What is said after pages were copied.
pub fn copied_pages_status(count: usize) -> (r: String)
    ensures
        r@ == "Скопировано страниц: "@ + decimal_text(count as nat) + " — Ctrl+V вставит"@,
{
    let mut out = "Скопировано страниц: ".to_owned();
    out.append(decimal(count as u64).as_str());
    out.append(" — Ctrl+V вставит");
    out
}

/// What is said after pages were pasted.
pub fn pasted_pages_status(count: usize) -> (r: String)
    ensures
        r@ == if count == 0 {
            "Буфер страниц пуст"@
        } else if count == 1 {
            "Страница вставлена"@
        } else {
            "Вставлено страниц: "@ + decimal_text(count as nat)
        },
{
    if count == 0 {
        return "Буфер страниц пуст".to_owned();
    }
    if count == 1 {
        return "Страница вставлена".to_owned();
    }
    let mut out = "Вставлено страниц: ".to_owned();
    out.append(decimal(count as u64).as_str());
    out
}

/// What is said after pages were moved.
pub fn moved_pages_status(count: usize) -> (r: String)
    ensures
        r@ == if count == 1 {
            "Страница переставлена"@
        } else {
            "Переставлено страниц: "@ + decimal_text(count as nat)
        },
{
    if count == 1 {
        return "Страница переставлена".to_owned();
    }
    let mut out = "Переставлено страниц: ".to_owned();
    out.append(decimal(count as u64).as_str());
    out
}

/// What the bar above the grid says of what is picked.
pub fn picked_label(picked: &Vec<u32>) -> (r: String)
    requires
        countable(picked@),
    ensures
        r@ == if picked@.len() == 0 {
            "страница не выбрана"@
        } else if picked@.len() == 1 {
            "выбрана страница "@ + decimal_text((picked@[0] + 1) as nat)
        } else {
            "выбрано страниц: "@ + decimal_text(picked@.len())
        },
{
    if picked.len() == 0 {
        return "страница не выбрана".to_owned();
    }
    if picked.len() == 1 {
        let mut out = "выбрана страница ".to_owned();
        assert(picked@[0] < u32::MAX);
        out.append(decimal(picked[0] as u64 + 1).as_str());
        return out;
    }
    let mut out = "выбрано страниц: ".to_owned();
    out.append(decimal(picked.len() as u64).as_str());
    out
}

/// What the button that pastes pages says.
pub fn paste_tooltip(copied: usize) -> (r: String)
    ensures
        r@ == if copied == 0 {
            "Буфер страниц пуст"@
        } else {
            "Вставить страниц: "@ + decimal_text(copied as nat) + " (Ctrl+V)"@
        },
{
    if copied == 0 {
        return "Буфер страниц пуст".to_owned();
    }
    let mut out = "Вставить страниц: ".to_owned();
    out.append(decimal(copied as u64).as_str());
    out.append(" (Ctrl+V)");
    out
}

/// Opens the grid of pages, or closes it, and says whether there is an edit to
/// be applied: the grid shows the document as a whole, and no edit can stay
/// open behind it. The keyboard goes to the view either way.
pub fn toggle_organise(viewer: &mut Viewer, grid: &mut Option<Organise>) -> (r: bool)
    ensures
        (*old(grid)) is Some ==> {
            &&& !r
            &&& (*final(grid)) is None
            &&& final(viewer)@ == (ViewerView { focus_root: true, ..old(viewer)@ })
        },
        (*old(grid)) is None ==> {
            &&& r == old(viewer)@.is_touched()
            &&& (*final(grid)) matches Some(opened)
            &&& opened.is_fresh()
            &&& final(viewer)@ == (ViewerView {
                multi: Seq::empty(),
                focus_root: true,
                ..if r {
                    old(viewer)@
                } else {
                    old(viewer)@.unselected()
                }
            })
        },
{
    viewer.focus_root = true;
    if grid.is_some() {
        *grid = None;
        return false;
    }
    let apply = viewer.commit_or_clear();
    viewer.clear_multi();
    *grid = Some(Organise::new());
    apply
}

/// Pages are carried once the cursor is more than eight pixels away, counted across
/// and down together.
pub proof fn pages_are_carried_away_from_the_press(from: Spot, to: Spot)
    ensures
        ({
            let (dx, dy) = (to.x - from.x, to.y - from.y);
            left_the_place(from, to) <==> dx + dy > 8 * POINT || dx - dy > 8 * POINT || dy - dx > 8
                * POINT || -dx - dy > 8 * POINT
        }),
{
}

} // verus!
