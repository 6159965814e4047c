//! Moving, copying, turning and deleting whole pages.
use vstd::prelude::*;
use vstd::relations::{sorted_by, total_ordering};

verus! {

/// An operation on the pages of a document. Pages are counted from one, and
/// after page zero means at the very beginning.
#[derive(Debug, PartialEq, Eq)]
pub enum PageOp {
    Rotate { page_number: u32, clockwise: bool },
    Delete { page_number: u32 },
    /// An empty sheet.
    InsertAfter { page_number: u32 },
    /// All pages of another document.
    InsertDocument { page_number: u32, path: String },
    Duplicate { source: u32, after: u32 },
    Move { from: u32, to: u32 },
}

/// What an operation makes of the list of pages. Of one that brings new pages
/// nothing is said.
pub open spec fn rearranged(order: Seq<u32>, op: PageOp) -> Seq<u32> {
    match op {
        PageOp::Rotate { .. } => order,
        PageOp::Delete { page_number } => order.remove(page_number - 1),
        PageOp::Duplicate { source, after } => order.insert(after as int, order[source - 1]),
        PageOp::Move { from, to } => order.remove(from - 1).insert(to - 1, order[from - 1]),
        _ => arbitrary(),
    }
}

/// What operations, one after another, make of the list of pages.
pub open spec fn rearranged_all(order: Seq<u32>, ops: Seq<PageOp>) -> Seq<u32>
    decreases ops.len(),
{
    if ops.len() == 0 {
        order
    } else {
        rearranged(rearranged_all(order, ops.drop_last()), ops.last())
    }
}

/// The pages of a document, counted from zero.
pub open spec fn all_pages(count: u32) -> Seq<u32> {
    Seq::new(count as nat, |i: int| i as u32)
}

/// The order of page numbers.
pub open spec fn not_after() -> spec_fn(u32, u32) -> bool {
    |a: u32, b: u32| a <= b
}

/// Page numbers in their order.
pub open spec fn ascending(pages: Seq<u32>) -> Seq<u32> {
    pages.sort_by(not_after())
}

/// Whether page numbers grow from each to the next.
pub open spec fn strictly_ascending(pages: Seq<u32>) -> bool {
    forall|i: int, j: int| 0 <= i < j < pages.len() ==> #[trigger] pages[i] < #[trigger] pages[j]
}

/// Whether page numbers do not fall.
pub open spec fn in_order(pages: Seq<u32>) -> bool {
    forall|i: int, j: int| 0 <= i < j < pages.len() ==> #[trigger] pages[i] <= #[trigger] pages[j]
}

/// There is one way to put page numbers in order.
proof fn lemma_ascending(pages: Seq<u32>, sorted: Seq<u32>)
    requires
        in_order(sorted),
        sorted.to_multiset() == pages.to_multiset(),
    ensures
        sorted == ascending(pages),
{
    let leq = not_after();
    assert(total_ordering(leq));
    pages.lemma_sort_by_ensures(leq);
    assert(sorted_by(sorted, leq));
    vstd::seq_lib::lemma_sorted_unique(sorted, ascending(pages), leq);
}

/// What putting page numbers in order does.
pub(crate) proof fn lemma_ascending_keeps(pages: Seq<u32>)
    ensures
        in_order(ascending(pages)),
        ascending(pages).to_multiset() == pages.to_multiset(),
        ascending(pages).len() == pages.len(),
        forall|p: u32| ascending(pages).contains(p) <==> #[trigger] pages.contains(p),
{
    let leq = not_after();
    assert(total_ordering(leq));
    pages.lemma_sort_by_ensures(leq);
    let sorted = ascending(pages);
    assert(in_order(sorted)) by {
        assert forall|i: int, j: int| 0 <= i < j < sorted.len() implies #[trigger] sorted[i]
            <= #[trigger] sorted[j] by {
            assert(leq(sorted[i], sorted[j]));
        }
    }
    broadcast use vstd::seq_lib::group_to_multiset_ensures;

    assert(sorted.len() == sorted.to_multiset().len());
    assert forall|p: u32| sorted.contains(p) <==> #[trigger] pages.contains(p) by {
        assert(sorted.contains(p) <==> sorted.to_multiset().count(p) > 0);
        assert(pages.contains(p) <==> pages.to_multiset().count(p) > 0);
    }
}

/// Putting page numbers in order loses none and adds none.
pub proof fn ordering_keeps_the_pages(pages: Seq<u32>)
    ensures
        in_order(ascending(pages)),
        ascending(pages).to_multiset() == pages.to_multiset(),
        pages.no_duplicates() ==> strictly_ascending(ascending(pages)),
{
    lemma_ascending_keeps(pages);
    if pages.no_duplicates() {
        let sorted = ascending(pages);
        pages.lemma_multiset_has_no_duplicates();
        sorted.lemma_multiset_has_no_duplicates_conv();
    }
}

/// Page numbers in their order.
pub fn sorted_pages(pages: &Vec<u32>) -> (r: Vec<u32>)
    ensures
        r@ == ascending(pages@),
        r@.len() == pages@.len(),
{
    broadcast use vstd::seq_lib::group_to_multiset_ensures;

    let mut out: Vec<u32> = Vec::new();
    let mut i: usize = 0;
    assert(pages@.take(0) == Seq::<u32>::empty());
    assert(out@ == pages@.take(0));
    while i < pages.len()
        invariant
            i <= pages@.len(),
            in_order(out@),
            out@.len() == i,
            out@.to_multiset() == pages@.take(i as int).to_multiset(),
        decreases pages@.len() - i,
    {
        let page: u32 = pages[i];
        let mut at: usize = out.len();
        while at > 0 && out[at - 1] > page
            invariant
                at <= out@.len(),
                forall|k: int| at <= k < out@.len() ==> #[trigger] out@[k] > page,
            decreases at,
        {
            at = at - 1;
        }
        let ghost before = out@;
        out.insert(at, page);
        proof {
            vstd::seq_lib::to_multiset_insert(before, at as int, page);
            assert(pages@.take(i + 1) == pages@.take(i as int).push(page));
            vstd::seq_lib::to_multiset_build(pages@.take(i as int), page);
            assert(out@ == before.insert(at as int, page));
            assert forall|a: int, b: int| 0 <= a < b < out@.len() implies #[trigger] out@[a]
                <= #[trigger] out@[b] by {
                let a0 = if a < at {
                    a
                } else {
                    a - 1
                };
                let b0 = if b < at {
                    b
                } else {
                    b - 1
                };
                if a != at && b != at {
                    assert(before[a0] <= before[b0]);
                } else if a == at {
                    assert(before[b0] > page);
                } else if at > 0 {
                    assert(before[a0] <= before[at - 1]) by {
                        if a0 < at - 1 {
                            assert(before[a0] <= before[at - 1]);
                        }
                    }
                }
            }
        }
        i = i + 1;
    }
    assert(pages@.take(pages@.len() as int) == pages@);
    proof {
        lemma_ascending(pages@, out@);
    }
    out
}

/// The number, counted from one, that a page has after `copies` were put behind
/// the page `after`.
pub open spec fn number_after(page: int, after: int, copies: int) -> int {
    if page >= after {
        page + copies + 1
    } else {
        page + 1
    }
}

/// The operations that copy pages to after a page: the copies lie one after
/// another, and push on the pages behind them.
pub open spec fn copies_of(sources: Seq<u32>, after: u32) -> Seq<PageOp> {
    Seq::new(
        sources.len(),
        |i: int|
            PageOp::Duplicate {
                source: number_after(sources[i] as int, after as int, i) as u32,
                after: (after + i) as u32,
            },
    )
}

/// Whether the numbers of pages leave room to count them from one.
pub open spec fn countable(pages: Seq<u32>) -> bool {
    forall|i: int| 0 <= i < pages.len() ==> #[trigger] pages[i] < u32::MAX
}

/// Whether the numbers of pages leave room for a copy of each.
pub open spec fn copyable(pages: Seq<u32>) -> bool {
    forall|i: int| 0 <= i < pages.len() ==> #[trigger] pages[i] + pages.len() <= u32::MAX
}

/// Copies pages, counted from zero, to after a page, counted from one.
pub fn paste_ops(sources: &Vec<u32>, after: u32) -> (r: Vec<PageOp>)
    requires
        copyable(sources@),
        after + sources@.len() <= u32::MAX,
    ensures
        r@ == copies_of(sources@, after),
{
    let mut ops: Vec<PageOp> = Vec::new();
    let mut i: usize = 0;
    while i < sources.len()
        invariant
            i <= sources@.len(),
            copyable(sources@),
            after + sources@.len() <= u32::MAX,
            ops@ == copies_of(sources@, after).take(i as int),
        decreases sources@.len() - i,
    {
        assert(sources@[i as int] + sources@.len() <= u32::MAX);
        let source: u32 = if sources[i] >= after {
            sources[i] + i as u32 + 1
        } else {
            sources[i] + 1
        };
        ops.push(PageOp::Duplicate { source, after: after + i as u32 });
        i = i + 1;
    }
    assert(copies_of(sources@, after).take(i as int) == copies_of(sources@, after));
    ops
}

/// Pages that are copied to after a place stand there in a row, in the order in
/// which they were copied, and the others stay as they are.
pub proof fn copies_lie_in_a_row(order: Seq<u32>, sources: Seq<u32>, after: u32)
    requires
        after <= order.len(),
        order.len() + sources.len() <= u32::MAX,
        forall|i: int| 0 <= i < sources.len() ==> #[trigger] sources[i] < order.len(),
    ensures
        rearranged_all(order, copies_of(sources, after)) == order.take(after as int) + Seq::new(
            sources.len(),
            |i: int| order[sources[i] as int],
        ) + order.skip(after as int),
    decreases sources.len(),
{
    if sources.len() > 0 {
        let fewer = sources.drop_last();
        assert forall|i: int| 0 <= i < fewer.len() implies #[trigger] fewer[i] < order.len() by {
            assert(fewer[i] == sources[i]);
        }
        copies_lie_in_a_row(order, fewer, after);
        let ops = copies_of(sources, after);
        assert(ops.drop_last() == copies_of(fewer, after));
        let last = sources[sources.len() - 1];
        let before = rearranged_all(order, copies_of(fewer, after));
        let number = number_after(last as int, after as int, fewer.len() as int);
        assert(before[number - 1] == order[last as int]);
    }
}

/// The operations that turn pages.
pub fn rotate_ops(targets: &Vec<u32>, clockwise: bool) -> (r: Vec<PageOp>)
    requires
        countable(targets@),
    ensures
        r@ == Seq::new(
            targets@.len(),
            |i: int| PageOp::Rotate { page_number: (targets@[i] + 1) as u32, clockwise },
        ),
{
    let mut ops: Vec<PageOp> = Vec::new();
    let mut i: usize = 0;
    while i < targets.len()
        invariant
            i <= targets@.len(),
            countable(targets@),
            ops@ == Seq::new(
                i as nat,
                |i: int| PageOp::Rotate { page_number: (targets@[i] + 1) as u32, clockwise },
            ),
        decreases targets@.len() - i,
    {
        assert(targets@[i as int] < u32::MAX);
        ops.push(PageOp::Rotate { page_number: targets[i] + 1, clockwise });
        i = i + 1;
    }
    ops
}

/// The operations that delete pages, from the last to the first: a deletion
/// moves the numbers of those behind it.
pub open spec fn deletions_of(targets: Seq<u32>) -> Seq<PageOp> {
    Seq::new(
        targets.len(),
        |i: int| PageOp::Delete { page_number: (targets[targets.len() - 1 - i] + 1) as u32 },
    )
}

/// Deletes pages that are given in their order.
pub fn delete_ops(targets: &Vec<u32>) -> (r: Vec<PageOp>)
    requires
        countable(targets@),
    ensures
        r@ == deletions_of(targets@),
{
    let mut ops: Vec<PageOp> = Vec::new();
    let mut left: usize = targets.len();
    while left > 0
        invariant
            left <= targets@.len(),
            countable(targets@),
            ops@ == deletions_of(targets@).take(targets@.len() - left),
        decreases left,
    {
        assert(targets@[left - 1] < u32::MAX);
        ops.push(PageOp::Delete { page_number: targets[left - 1] + 1 });
        left = left - 1;
    }
    assert(deletions_of(targets@).take(targets@.len() as int) == deletions_of(targets@));
    ops
}

/// What the first deletions leave.
proof fn lemma_deletions(count: u32, targets: Seq<u32>, done: int)
    requires
        strictly_ascending(targets),
        forall|i: int| 0 <= i < targets.len() ==> #[trigger] targets[i] < count,
        0 <= done <= targets.len(),
    ensures
        ({
            let order = rearranged_all(all_pages(count), deletions_of(targets).take(done));
            let limit = if done == 0 {
                count as int
            } else {
                targets[targets.len() - done] as int
            };
            &&& limit <= order.len()
            &&& forall|i: int| 0 <= i < limit ==> #[trigger] order[i] == i
            &&& strictly_ascending(order)
            &&& forall|p: u32| #[trigger]
                order.contains(p) <==> p < count && !targets.skip(
                    targets.len() - done,
                ).contains(p)
        }),
    decreases done,
{
    let n = targets.len() as int;
    let ops = deletions_of(targets);
    let order = rearranged_all(all_pages(count), ops.take(done));
    if done == 0 {
        assert(order == all_pages(count));
        assert forall|p: u32| #[trigger] order.contains(p) <==> p < count && !targets.skip(
            n,
        ).contains(p) by {
            if p < count {
                assert(order[p as int] == p);
            }
        }
    } else {
        lemma_deletions(count, targets, done - 1);
        let before = rearranged_all(all_pages(count), ops.take(done - 1));
        assert(ops.take(done).drop_last() == ops.take(done - 1));
        let gone = targets[n - done];
        assert(ops.take(done).last() == PageOp::Delete { page_number: (gone + 1) as u32 });
        assert(order == before.remove(gone as int));
        if done > 1 {
            assert(gone < targets[n - done + 1]);
        }
        assert(before[gone as int] == gone);
        lemma_taken_out(before, gone as int);
        assert forall|p: u32| #[trigger] order.contains(p) <==> p < count && !targets.skip(
            n - done,
        ).contains(p) by {
            lemma_skip_one(targets, n - done, p);
            assert(before.contains(p) <==> p < count && !targets.skip(n - done + 1).contains(p));
        }
    }
}

/// One page taken out of an ascending list.
proof fn lemma_taken_out(before: Seq<u32>, at: int)
    requires
        strictly_ascending(before),
        0 <= at < before.len(),
    ensures
        strictly_ascending(before.remove(at)),
        forall|p: u32| #[trigger]
            before.remove(at).contains(p) <==> before.contains(p) && p != before[at],
{
    let after = before.remove(at);
    let gone = before[at];
    assert forall|i: int, j: int| 0 <= i < j < after.len() implies #[trigger] after[i]
        < #[trigger] after[j] by {
        let a = if i < at {
            i
        } else {
            i + 1
        };
        let b = if j < at {
            j
        } else {
            j + 1
        };
        assert(before[a] < before[b]);
    }
    assert forall|p: u32| #[trigger] after.contains(p) <==> before.contains(p) && p != gone by {
        if after.contains(p) {
            let k = choose|k: int| 0 <= k < after.len() && after[k] == p;
            let a = if k < at {
                k
            } else {
                k + 1
            };
            assert(before[a] == p);
            if a < at {
                assert(before[a] < before[at]);
            } else {
                assert(before[at] < before[a]);
            }
        }
        if before.contains(p) && p != gone {
            let k = choose|k: int| 0 <= k < before.len() && before[k] == p;
            if k < at {
                assert(after[k] == p);
            } else {
                assert(after[k - 1] == p);
            }
        }
    }
}

/// The end of a list from one place on, and from the next.
proof fn lemma_skip_one(pages: Seq<u32>, at: int, p: u32)
    requires
        0 <= at < pages.len(),
    ensures
        pages.skip(at).contains(p) <==> p == pages[at] || pages.skip(at + 1).contains(p),
{
    let whole = pages.skip(at);
    let tail = pages.skip(at + 1);
    assert(whole[0] == pages[at]);
    if tail.contains(p) {
        let k = choose|k: int| 0 <= k < tail.len() && tail[k] == p;
        assert(whole[k + 1] == p);
    }
    if whole.contains(p) {
        let k = choose|k: int| 0 <= k < whole.len() && whole[k] == p;
        if k > 0 {
            assert(tail[k - 1] == p);
        }
    }
}

/// Deleting pages leaves the others, in their order.
pub proof fn deleting_leaves_the_other_pages(count: u32, targets: Seq<u32>)
    requires
        strictly_ascending(targets),
        forall|i: int| 0 <= i < targets.len() ==> #[trigger] targets[i] < count,
    ensures
        strictly_ascending(rearranged_all(all_pages(count), deletions_of(targets))),
        forall|p: u32| #[trigger]
            rearranged_all(all_pages(count), deletions_of(targets)).contains(p) <==> p < count
                && !targets.contains(p),
{
    let n = targets.len() as int;
    lemma_deletions(count, targets, n);
    assert(deletions_of(targets).take(n) == deletions_of(targets));
    assert(targets.skip(0) == targets);
}

/// The pages from one to before another, in their order: those among `moving`,
/// or those that are not.
pub open spec fn pages_in(moving: Seq<u32>, among: bool, from: int, to: int) -> Seq<u32>
    decreases to - from,
{
    if to <= from {
        Seq::empty()
    } else {
        let before = pages_in(moving, among, from, to - 1);
        if moving.contains((to - 1) as u32) == among {
            before.push((to - 1) as u32)
        } else {
            before
        }
    }
}

/// The pages from one to before another.
pub open spec fn page_range(from: int, to: int) -> Seq<u32> {
    Seq::new((to - from) as nat, |i: int| (from + i) as u32)
}

/// The list of pages once some were carried to a slot: they stand there
/// together, between those that stay before it and those that stay behind it.
pub open spec fn carried_order(count: u32, moving: Seq<u32>, slot: int) -> Seq<u32> {
    pages_in(moving, false, 0, slot) + pages_in(moving, true, 0, count as int) + pages_in(
        moving,
        false,
        slot,
        count as int,
    )
}

/// How many of the pages before a slot stay there: where the carried ones go.
pub open spec fn staying_before(moving: Seq<u32>, slot: int) -> int {
    pages_in(moving, false, 0, slot).len() as int
}

/// A move, where it moves anything.
pub open spec fn with_move(ops: Seq<PageOp>, at: int, target: int) -> Seq<PageOp> {
    if at == target {
        ops
    } else {
        ops.push(PageOp::Move { from: (at + 1) as u32, to: (target + 1) as u32 })
    }
}

/// The moves of the pages that stand before the slot, from the last down to the
/// page `from`: each goes to before those that went already, and the pages in
/// front of it keep their numbers.
pub open spec fn moves_back(moving: Seq<u32>, slot: int, from: int) -> Seq<PageOp>
    decreases slot - from,
{
    if from >= slot {
        Seq::empty()
    } else {
        let ops = moves_back(moving, slot, from + 1);
        if moving.contains(from as u32) {
            with_move(ops, from, slot - 1 - pages_in(moving, true, from + 1, slot).len())
        } else {
            ops
        }
    }
}

/// The moves of the pages that stand behind the slot, up to before the page
/// `to`: each goes to behind those that went already, and the pages behind it
/// keep their numbers.
pub open spec fn moves_forth(moving: Seq<u32>, slot: int, to: int) -> Seq<PageOp>
    decreases to - slot,
{
    if to <= slot {
        Seq::empty()
    } else {
        let ops = moves_forth(moving, slot, to - 1);
        if moving.contains((to - 1) as u32) {
            with_move(ops, to - 1, slot + pages_in(moving, true, slot, to - 1).len())
        } else {
            ops
        }
    }
}

/// The moves that carry pages to a slot.
pub open spec fn moves_of(count: u32, moving: Seq<u32>, slot: int) -> Seq<PageOp> {
    moves_back(moving, slot, 0) + moves_forth(moving, slot, count as int)
}

/// The first page of a range, and the rest.
proof fn lemma_first_page(moving: Seq<u32>, among: bool, from: int, to: int)
    requires
        from < to,
    ensures
        pages_in(moving, among, from, to) == (if moving.contains(from as u32) == among {
            seq![from as u32]
        } else {
            Seq::empty()
        }) + pages_in(moving, among, from + 1, to),
    decreases to - from,
{
    if from + 1 < to {
        lemma_first_page(moving, among, from, to - 1);
    } else {
        assert(pages_in(moving, among, from, from) == Seq::<u32>::empty());
        assert(pages_in(moving, among, from + 1, to) == Seq::<u32>::empty());
    }
}

/// Two ranges in a row are one.
proof fn lemma_joined_pages(moving: Seq<u32>, among: bool, from: int, mid: int, to: int)
    requires
        from <= mid <= to,
    ensures
        pages_in(moving, among, from, to) == pages_in(moving, among, from, mid) + pages_in(
            moving,
            among,
            mid,
            to,
        ),
    decreases to - mid,
{
    if mid < to {
        lemma_joined_pages(moving, among, from, mid, to - 1);
    } else {
        assert(pages_in(moving, among, mid, to) == Seq::<u32>::empty());
    }
}

/// Every page of a range is either among the moved ones or not.
proof fn lemma_range_split(moving: Seq<u32>, from: int, to: int)
    requires
        from <= to,
    ensures
        pages_in(moving, true, from, to).len() + pages_in(moving, false, from, to).len() == to
            - from,
    decreases to - from,
{
    if from < to {
        lemma_range_split(moving, from, to - 1);
    }
}

/// The list while the pages before the slot are moved, down to the page `from`.
spec fn order_back(count: u32, moving: Seq<u32>, slot: int, from: int) -> Seq<u32> {
    page_range(0, from) + pages_in(moving, false, from, slot) + pages_in(moving, true, from, slot)
        + page_range(slot, count as int)
}

/// The list while the pages behind the slot are moved, up to the page `to`.
spec fn order_forth(count: u32, moving: Seq<u32>, slot: int, to: int) -> Seq<u32> {
    pages_in(moving, false, 0, slot) + pages_in(moving, true, 0, to) + pages_in(
        moving,
        false,
        slot,
        to,
    ) + page_range(to, count as int)
}

/// A page that stands at its number is taken to behind what follows it.
proof fn lemma_taken_back(a: Seq<u32>, page: u32, b: Seq<u32>, c: Seq<u32>)
    ensures
        (a + seq![page] + b + c).remove(a.len() as int).insert((a.len() + b.len()) as int, page)
            == a + b + seq![page] + c,
        (a + seq![page] + b + c)[a.len() as int] == page,
{
    let whole = a + seq![page] + b + c;
    assert(whole[a.len() as int] == page);
    assert(whole.remove(a.len() as int) == a + b + c);
    assert((a + b + c).insert((a.len() + b.len()) as int, page) == a + b + seq![page] + c);
}

/// A page is taken to before what it follows.
proof fn lemma_taken_forth(a: Seq<u32>, b: Seq<u32>, page: u32, c: Seq<u32>)
    ensures
        (a + b + seq![page] + c).remove((a.len() + b.len()) as int).insert(a.len() as int, page)
            == a + seq![page] + b + c,
        (a + b + seq![page] + c)[(a.len() + b.len()) as int] == page,
{
    let whole = a + b + seq![page] + c;
    assert(whole[(a.len() + b.len()) as int] == page);
    assert(whole.remove((a.len() + b.len()) as int) == a + b + c);
    assert((a + b + c).insert(a.len() as int, page) == a + seq![page] + b + c);
}

/// What a move, where it moves anything, makes of a list.
proof fn lemma_with_move(order: Seq<u32>, ops: Seq<PageOp>, at: int, target: int)
    requires
        0 <= at < rearranged_all(order, ops).len(),
        0 <= target < rearranged_all(order, ops).len(),
        rearranged_all(order, ops).len() <= u32::MAX,
    ensures
        rearranged_all(order, with_move(ops, at, target)) == rearranged_all(order, ops).remove(
            at,
        ).insert(target, rearranged_all(order, ops)[at]),
{
    let before = rearranged_all(order, ops);
    if at == target {
        assert(before.remove(at).insert(at, before[at]) == before);
    } else {
        let more = with_move(ops, at, target);
        assert(more.drop_last() == ops);
    }
}

/// Operations after others.
proof fn lemma_rearranged_twice(order: Seq<u32>, a: Seq<PageOp>, b: Seq<PageOp>)
    ensures
        rearranged_all(order, a + b) == rearranged_all(rearranged_all(order, a), b),
    decreases b.len(),
{
    if b.len() == 0 {
        assert(a + b == a);
    } else {
        lemma_rearranged_twice(order, a, b.drop_last());
        assert((a + b).drop_last() == a + b.drop_last());
        assert((a + b).last() == b.last());
    }
}

proof fn lemma_back(count: u32, moving: Seq<u32>, slot: int, from: int)
    requires
        0 <= from <= slot <= count,
    ensures
        rearranged_all(all_pages(count), moves_back(moving, slot, from)) == order_back(
            count,
            moving,
            slot,
            from,
        ),
    decreases slot - from,
{
    if from == slot {
        assert(page_range(0, slot) + page_range(slot, count as int) == all_pages(count));
        assert(order_back(count, moving, slot, slot) == all_pages(count));
    } else {
        lemma_back(count, moving, slot, from + 1);
        lemma_first_page(moving, true, from, slot);
        lemma_first_page(moving, false, from, slot);
        lemma_range_split(moving, from + 1, slot);
        let page = from as u32;
        let a = page_range(0, from);
        let b = pages_in(moving, false, from + 1, slot);
        let goes = pages_in(moving, true, from + 1, slot);
        let rest = page_range(slot, count as int);
        let before = order_back(count, moving, slot, from + 1);
        assert(page_range(0, from + 1) == a + seq![page]);
        let c = goes + rest;
        assert(before == a + seq![page] + b + c);
        let after = order_back(count, moving, slot, from);
        if moving.contains(page) {
            let ops = moves_back(moving, slot, from + 1);
            let target = slot - 1 - goes.len();
            assert(target == a.len() + b.len());
            lemma_with_move(all_pages(count), ops, from, target);
            lemma_taken_back(a, page, b, c);
            assert(pages_in(moving, true, from, slot) == seq![page] + goes);
            assert(pages_in(moving, false, from, slot) == b);
            assert(after == a + b + seq![page] + c);
        } else {
            assert(pages_in(moving, true, from, slot) == goes);
            assert(pages_in(moving, false, from, slot) == seq![page] + b);
            assert(after == before);
        }
    }
}

proof fn lemma_forth(count: u32, moving: Seq<u32>, slot: int, to: int)
    requires
        0 <= slot <= to <= count,
    ensures
        rearranged_all(order_back(count, moving, slot, 0), moves_forth(moving, slot, to))
            == order_forth(count, moving, slot, to),
    decreases to - slot,
{
    let start = order_back(count, moving, slot, 0);
    if to == slot {
        assert(page_range(0, 0) == Seq::<u32>::empty());
        assert(pages_in(moving, false, slot, slot) == Seq::<u32>::empty());
        assert(order_forth(count, moving, slot, slot) == start);
    } else {
        lemma_forth(count, moving, slot, to - 1);
        lemma_range_split(moving, 0, slot);
        lemma_range_split(moving, slot, to - 1);
        lemma_joined_pages(moving, true, 0, slot, to - 1);
        let page = (to - 1) as u32;
        let a = pages_in(moving, false, 0, slot) + pages_in(moving, true, 0, to - 1);
        let b = pages_in(moving, false, slot, to - 1);
        let c = page_range(to, count as int);
        let before = order_forth(count, moving, slot, to - 1);
        assert(page_range(to - 1, count as int) == seq![page] + c);
        assert(before == a + b + seq![page] + c);
        let after = order_forth(count, moving, slot, to);
        if moving.contains(page) {
            let ops = moves_forth(moving, slot, to - 1);
            let target = slot + pages_in(moving, true, slot, to - 1).len();
            assert(a.len() == target);
            assert(a.len() + b.len() == to - 1);
            lemma_with_move(start, ops, to - 1, target);
            lemma_taken_forth(a, b, page, c);
            assert(after == a + seq![page] + b + c);
        } else {
            assert(after == before);
        }
    }
}

/// What the moves make of the list of pages.
proof fn lemma_moves(count: u32, moving: Seq<u32>, slot: int)
    requires
        0 <= slot <= count,
    ensures
        rearranged_all(all_pages(count), moves_of(count, moving, slot)) == carried_order(
            count,
            moving,
            slot,
        ),
{
    lemma_back(count, moving, slot, 0);
    lemma_forth(count, moving, slot, count as int);
    lemma_rearranged_twice(
        all_pages(count),
        moves_back(moving, slot, 0),
        moves_forth(moving, slot, count as int),
    );
    assert(order_forth(count, moving, slot, count as int) == carried_order(count, moving, slot));
}

/// Ascending page numbers are the pages of the document among them.
pub(crate) proof fn lemma_pages_among(moving: Seq<u32>, count: int)
    requires
        strictly_ascending(moving),
        moving.len() > 0 ==> moving.last() < count,
        0 <= count <= u32::MAX,
    ensures
        pages_in(moving, true, 0, count) == moving,
    decreases count,
{
    if count > 0 {
        let page = (count - 1) as u32;
        if moving.contains(page) {
            let k = choose|k: int| 0 <= k < moving.len() && moving[k] == page;
            if k < moving.len() - 1 {
                assert(moving[k] < moving[moving.len() - 1]);
            }
            let head = moving.drop_last();
            assert(strictly_ascending(head));
            if head.len() > 0 {
                assert(moving[head.len() - 1] < moving[moving.len() - 1]);
            }
            lemma_pages_among(head, count - 1);
            assert forall|p: u32| p < page implies #[trigger] moving.contains(p) == head.contains(
                p,
            ) by {
                if moving.contains(p) {
                    let m = choose|m: int| 0 <= m < moving.len() && moving[m] == p;
                    assert(head[m] == p);
                }
                if head.contains(p) {
                    let m = choose|m: int| 0 <= m < head.len() && head[m] == p;
                    assert(moving[m] == p);
                }
            }
            lemma_same_pages(moving, head, true, 0, count - 1);
            assert(head.push(page) == moving);
        } else {
            if moving.len() > 0 {
                assert(moving.contains(moving[moving.len() - 1]));
            }
            lemma_pages_among(moving, count - 1);
        }
    }
}

/// A range of pages depends on which of its pages are moved, and no others.
proof fn lemma_same_pages(a: Seq<u32>, b: Seq<u32>, among: bool, from: int, to: int)
    requires
        0 <= from,
        to <= u32::MAX,
        forall|p: u32| p < to ==> #[trigger] a.contains(p) == b.contains(p),
    ensures
        pages_in(a, among, from, to) == pages_in(b, among, from, to),
    decreases to - from,
{
    if from < to {
        lemma_same_pages(a, b, among, from, to - 1);
        assert(a.contains((to - 1) as u32) == b.contains((to - 1) as u32));
    }
}

/// Pages that are carried to a slot stand there in a row, in their order,
/// between the pages that stay before the slot and those that stay behind it.
pub proof fn moved_pages_stand_in_a_row(count: u32, moving: Seq<u32>, slot: int)
    requires
        strictly_ascending(moving),
        moving.len() > 0 ==> moving.last() < count,
        0 <= slot <= count,
    ensures
        ({
            let order = rearranged_all(all_pages(count), moves_of(count, moving, slot));
            let base = staying_before(moving, slot);
            &&& order == pages_in(moving, false, 0, slot) + moving + pages_in(
                moving,
                false,
                slot,
                count as int,
            )
            &&& order.subrange(base, base + moving.len()) == moving
        }),
{
    lemma_moves(count, moving, slot);
    lemma_pages_among(moving, count as int);
    let order = carried_order(count, moving, slot);
    let base = staying_before(moving, slot);
    assert(order.subrange(base, base + moving.len()) == moving);
}

/// A page is in a range of pages just when it lies there and is moved, or is
/// not.
proof fn lemma_pages_in(moving: Seq<u32>, among: bool, from: int, to: int)
    requires
        0 <= from <= to <= u32::MAX,
    ensures
        strictly_ascending(pages_in(moving, among, from, to)),
        forall|p: u32| #[trigger]
            pages_in(moving, among, from, to).contains(p) <==> from <= p < to && moving.contains(p)
                == among,
    decreases to - from,
{
    let whole = pages_in(moving, among, from, to);
    if from < to {
        let head = pages_in(moving, among, from, to - 1);
        let last = (to - 1) as u32;
        lemma_pages_in(moving, among, from, to - 1);
        if moving.contains(last) == among {
            assert forall|i: int, j: int| 0 <= i < j < whole.len() implies #[trigger] whole[i]
                < #[trigger] whole[j] by {
                if j == head.len() {
                    assert(head.contains(head[i]));
                } else {
                    assert(head[i] < head[j]);
                }
            }
            assert forall|p: u32| #[trigger] whole.contains(p) <==> from <= p < to
                && moving.contains(p) == among by {
                if head.contains(p) {
                    let k = choose|k: int| 0 <= k < head.len() && head[k] == p;
                    assert(whole[k] == p);
                }
                if p == last {
                    assert(whole[head.len() as int] == p);
                }
                if whole.contains(p) && p != last {
                    let k = choose|k: int| 0 <= k < whole.len() && whole[k] == p;
                    assert(head[k] == p);
                }
            }
        }
    }
}

/// Moving pages loses none and adds none.
pub proof fn moving_keeps_the_pages(count: u32, moving: Seq<u32>, slot: int)
    requires
        0 <= slot <= count,
    ensures
        ({
            let order = rearranged_all(all_pages(count), moves_of(count, moving, slot));
            &&& order.len() == count
            &&& order.no_duplicates()
            &&& forall|p: u32| #[trigger] order.contains(p) <==> p < count
        }),
{
    lemma_moves(count, moving, slot);
    let n = count as int;
    let a = pages_in(moving, false, 0, slot);
    let b = pages_in(moving, true, 0, n);
    let c = pages_in(moving, false, slot, n);
    lemma_pages_in(moving, false, 0, slot);
    lemma_pages_in(moving, true, 0, n);
    lemma_pages_in(moving, false, slot, n);
    lemma_range_split(moving, 0, n);
    lemma_joined_pages(moving, false, 0, slot, n);
    let order = a + b + c;
    assert(order == carried_order(count, moving, slot));
    assert forall|i: int, j: int| 0 <= i < j < order.len() implies order[i] != order[j] by {
        lemma_part_of(a, b, c, i);
        lemma_part_of(a, b, c, j);
    }
    assert forall|p: u32| #[trigger] order.contains(p) <==> p < count by {
        if order.contains(p) {
            let k = choose|k: int| 0 <= k < order.len() && order[k] == p;
            lemma_part_of(a, b, c, k);
        }
        if a.contains(p) {
            let k = choose|k: int| 0 <= k < a.len() && a[k] == p;
            assert(order[k] == p);
        }
        if b.contains(p) {
            let k = choose|k: int| 0 <= k < b.len() && b[k] == p;
            assert(order[a.len() + k] == p);
        }
        if c.contains(p) {
            let k = choose|k: int| 0 <= k < c.len() && c[k] == p;
            assert(order[a.len() + b.len() + k] == p);
        }
    }
}

/// Pages that are carried to a slot come behind all others that stood before the
/// slot, and before all others that stood behind it. The carried pages keep their
/// order, and so do the others.
pub proof fn carried_pages_come_to_the_slot(
    count: u32,
    moving: Seq<u32>,
    slot: int,
    i: int,
    j: int,
)
    requires
        0 <= slot <= count,
        0 <= i < j < count,
    ensures
        ({
            let order = rearranged_all(all_pages(count), moves_of(count, moving, slot));
            let p = order[i];
            let q = order[j];
            &&& order.len() == count
            &&& moving.contains(p) == moving.contains(q) ==> p < q
            &&& moving.contains(p) && !moving.contains(q) ==> q >= slot
            &&& !moving.contains(p) && moving.contains(q) ==> p < slot
        }),
{
    moving_keeps_the_pages(count, moving, slot);
    lemma_moves(count, moving, slot);
    let n = count as int;
    let a = pages_in(moving, false, 0, slot);
    let b = pages_in(moving, true, 0, n);
    let c = pages_in(moving, false, slot, n);
    lemma_pages_in(moving, false, 0, slot);
    lemma_pages_in(moving, true, 0, n);
    lemma_pages_in(moving, false, slot, n);
    assert(a + b + c == carried_order(count, moving, slot));
    lemma_part_of(a, b, c, i);
    lemma_part_of(a, b, c, j);
}

/// The part of a list that an entry belongs to.
proof fn lemma_part_of(a: Seq<u32>, b: Seq<u32>, c: Seq<u32>, i: int)
    requires
        0 <= i < a.len() + b.len() + c.len(),
    ensures
        ({
            let entry = (a + b + c)[i];
            &&& i < a.len() ==> entry == a[i] && a.contains(entry)
            &&& a.len() <= i < a.len() + b.len() ==> entry == b[i - a.len()] && b.contains(entry)
            &&& a.len() + b.len() <= i ==> entry == c[i - a.len() - b.len()] && c.contains(entry)
        }),
{
    let entry = (a + b + c)[i];
    if i < a.len() {
        assert(a[i] == entry);
    } else if i < a.len() + b.len() {
        assert(b[i - a.len()] == entry);
    } else {
        assert(c[i - a.len() - b.len()] == entry);
    }
}

/// The carried pages find room behind those that stay before the slot.
pub(crate) proof fn lemma_carried_fit(moving: Seq<u32>, slot: int, count: int)
    requires
        0 <= slot <= count,
    ensures
        staying_before(moving, slot) + pages_in(moving, true, 0, count).len() <= count,
{
    lemma_range_split(moving, 0, count);
    lemma_joined_pages(moving, false, 0, slot, count);
}

/// Whether a page is among others.
pub fn holds_page(pages: &Vec<u32>, page: u32) -> (r: bool)
    ensures
        r == pages@.contains(page),
{
    let mut i: usize = 0;
    while i < pages.len()
        invariant
            i <= pages@.len(),
            forall|k: int| 0 <= k < i ==> #[trigger] pages@[k] != page,
        decreases pages@.len() - i,
    {
        if pages[i] == page {
            return true;
        }
        i = i + 1;
    }
    false
}

/// How many of the first pages are moved.
pub(crate) fn count_moving(moving: &Vec<u32>, to: u32) -> (r: u32)
    ensures
        r == pages_in(moving@, true, 0, to as int).len(),
        to - r == staying_before(moving@, to as int),
        r <= to,
{
    let mut i: u32 = 0;
    let mut n: u32 = 0;
    while i < to
        invariant
            i <= to,
            n <= i,
            n == pages_in(moving@, true, 0, i as int).len(),
        decreases to - i,
    {
        if holds_page(moving, i) {
            n = n + 1;
        }
        i = i + 1;
    }
    proof {
        lemma_range_split(moving@, 0, to as int);
    }
    n
}

/// Carries pages to before the page that stands in the slot. Numbers that no
/// page has are passed over.
///
/// The moves are made one by one, and each shifts the numbers of the pages
/// between its ends. So those from before the slot go first, the last of them
/// in front: the others then still have their own numbers.
pub fn move_ops(count: u32, moving: &Vec<u32>, slot: u32) -> (r: Vec<PageOp>)
    requires
        count < u32::MAX,
        slot <= count,
    ensures
        r@ == moves_of(count, moving@, slot as int),
        rearranged_all(all_pages(count), r@) == carried_order(count, moving@, slot as int),
{
    let mut ops: Vec<PageOp> = Vec::new();
    let mut from: u32 = slot;
    let mut target: u32 = slot;
    while from > 0
        invariant
            from <= slot <= count < u32::MAX,
            target == slot - pages_in(moving@, true, from as int, slot as int).len(),
            from <= target,
            ops@ == moves_back(moving@, slot as int, from as int),
        decreases from,
    {
        from = from - 1;
        proof {
            lemma_first_page(moving@, true, from as int, slot as int);
        }
        if holds_page(moving, from) {
            target = target - 1;
            if from != target {
                ops.push(PageOp::Move { from: from + 1, to: target + 1 });
            }
        }
    }
    let ghost back = ops@;
    let mut to: u32 = slot;
    let mut place: u32 = slot;
    assert(back + moves_forth(moving@, slot as int, slot as int) == back);
    while to < count
        invariant
            slot <= to <= count < u32::MAX,
            place == slot + pages_in(moving@, true, slot as int, to as int).len(),
            place <= to,
            ops@ == back + moves_forth(moving@, slot as int, to as int),
        decreases count - to,
    {
        let ghost before = ops@;
        if holds_page(moving, to) {
            if to != place {
                ops.push(PageOp::Move { from: to + 1, to: place + 1 });
            }
            place = place + 1;
        }
        to = to + 1;
        assert(ops@ == back + moves_forth(moving@, slot as int, to as int));
    }
    proof {
        lemma_moves(count, moving@, slot as int);
    }
    ops
}

} // verus!
