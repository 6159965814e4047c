//! Joining the blocks of a group into one paragraph.
//!
//! Paragraphs are found on a page by their looks, and one is sometimes cut in
//! two. Joining takes the pieces off the page and puts one new paragraph in
//! their common frame; every piece keeps its own font, size and colour.
use crate::block_model::{block_fits, block_runs, model_from_block};
use crate::chars::{byte_len, chars_of_str};
use crate::document::{
    edit_views, read_spans, Block, BlockEdit, BlockErase, BlockRewrite, EditView, RewriteView,
};
use crate::geometry::Rect;
use crate::group::{
    block_index, blocks_of, find_frame, find_page, frames_fit, hull_of, lemma_block_index,
    pages_fit, union_of, MultiTarget, PageBlocks,
};
use crate::rich_text::{
    cells_of, chars_of, lemma_cells_add, lemma_cells_push, lemma_chars_add, lemma_chars_styled,
    lemma_read_spans, lemma_tidied, run_views, spans_of, styled, tidied, valid_runs_are_tidied,
    RichText, Run, RunView,
};
use crate::units::Color;
use vstd::prelude::*;

verus! {

/// Whether a frame is that of a block of the group.
pub open spec fn in_group(targets: Seq<MultiTarget>, bbox: Rect) -> bool {
    exists|i: int| 0 <= i < targets.len() && (#[trigger] targets[i]).bbox == bbox
}

/// Whether a block that is not of the group lies in its frame.
pub open spec fn foreign(blocks: Seq<Block>, targets: Seq<MultiTarget>, frame: Rect) -> bool {
    exists|i: int|
        0 <= i < blocks.len() && (#[trigger] blocks[i]).bbox.touches(frame) && !in_group(
            targets,
            blocks[i].bbox,
        )
}

/// The blocks of the first `count` targets, as indices, those left out that
/// are not on the page.
pub open spec fn chosen(blocks: Seq<Block>, targets: Seq<MultiTarget>, count: int) -> Seq<int>
    decreases count,
{
    if count <= 0 {
        Seq::empty()
    } else {
        let before = chosen(blocks, targets, count - 1);
        let at = block_index(blocks, targets[count - 1].bbox, 0);
        if at < blocks.len() {
            before.push(at)
        } else {
            before
        }
    }
}

/// A block put behind those that stand no lower.
pub open spec fn placed(blocks: Seq<Block>, order: Seq<int>, x: int) -> Seq<int>
    decreases order.len(),
{
    if order.len() == 0 {
        seq![x]
    } else if blocks[order.last()].bbox.top >= blocks[x].bbox.top {
        order.push(x)
    } else {
        placed(blocks, order.drop_last(), x).push(order.last())
    }
}

/// Blocks in the order in which they are read: from the top down.
pub open spec fn reading_order(blocks: Seq<Block>, list: Seq<int>) -> Seq<int>
    decreases list.len(),
{
    if list.len() == 0 {
        Seq::empty()
    } else {
        placed(blocks, reading_order(blocks, list.drop_last()), list.last())
    }
}

/// Runs with a space behind them, for the seam between two pieces.
pub open spec fn spaced(runs: Seq<RunView>) -> Seq<RunView> {
    if runs.len() == 0 {
        runs
    } else {
        let last = runs.last();
        let text = if last.text.len() > 0 && last.text.last() == ' ' {
            last.text
        } else {
            last.text.push(' ')
        };
        runs.drop_last().push(RunView { text, ..last })
    }
}

/// The runs of blocks, one after another with a space between them.
pub open spec fn joined_runs(blocks: Seq<Block>, order: Seq<int>, color: Color) -> Seq<RunView>
    decreases order.len(),
{
    if order.len() == 0 {
        Seq::empty()
    } else {
        let before = joined_runs(blocks, order.drop_last(), color);
        spaced(before) + tidied(cells_of(block_runs(blocks[order.last()].lines@, color)))
    }
}

/// The edits that join blocks, which are in reading order, in a frame.
pub open spec fn join_edits(page: u32, blocks: Seq<Block>, order: Seq<int>, frame: Rect) -> Seq<
    EditView,
> {
    let first = blocks[order[0]];
    let runs = joined_runs(blocks, order, first.dominant.color);
    let erases = Seq::new(
        order.len(),
        |i: int|
            EditView::Erase(
                BlockErase {
                    page_number: (page + 1) as u32,
                    bbox: blocks[order[i]].bbox,
                    owner: blocks[order[i]].mark,
                },
            ),
    );
    erases.push(
        EditView::Rewrite(
            RewriteView {
                page_number: (page + 1) as u32,
                bbox: frame,
                target: Some(frame),
                spans: spans_of(tidied(cells_of(runs)), first.dominant.family@),
                align: first.align,
                line_height: first.leading,
                rotation: 0,
                create: true,
                owner: None,
                char_spacing: None,
                h_scale: None,
                para_spacing: None,
                fill: None,
                style_id: None,
            },
        ),
    )
}

/// What came of joining.
#[derive(Debug)]
pub enum Joined {
    /// There is nothing to join.
    Nothing,
    /// Text that is not of the group lies between its blocks.
    Blocked,
    Edits(Vec<BlockEdit>),
}

/// What comes of joining a group.
pub open spec fn is_joined(
    targets: Seq<MultiTarget>,
    pages: Seq<PageBlocks>,
    outcome: Joined,
) -> bool {
    let page = targets[0].page;
    let known = blocks_of(pages, page);
    let frame = hull_of(targets, targets.len() as int);
    if targets.len() < 2 || known is None {
        outcome is Nothing
    } else {
        let blocks = known->0;
        let order = reading_order(blocks, chosen(blocks, targets, targets.len() as int));
        if foreign(blocks, targets, frame) {
            outcome is Blocked
        } else if order.len() == 0 {
            outcome is Nothing
        } else {
            &&& outcome matches Joined::Edits(edits)
            &&& edit_views(edits@) == join_edits(page, blocks, order, frame)
        }
    }
}

/// Whether blocks can be read, whatever colour is taken for theirs.
pub open spec fn readable(blocks: Seq<Block>) -> bool {
    forall|i: int, color: Color| 0 <= i < blocks.len() ==> #[trigger] block_fits(blocks[i], color)
}

/// Whether the text of joined blocks can be measured.
pub open spec fn joinable(blocks: Seq<Block>, order: Seq<int>) -> bool {
    forall|color: Color|
        byte_len(chars_of(cells_of(#[trigger] joined_runs(blocks, order, color)))) <= usize::MAX
}

/// Whether the blocks of a group can be read and joined.
pub open spec fn join_fits(targets: Seq<MultiTarget>, pages: Seq<PageBlocks>) -> bool {
    &&& pages_fit(targets)
    &&& frames_fit(targets)
    &&& match blocks_of(pages, targets[0].page) {
        Some(blocks) => {
            &&& readable(blocks)
            &&& joinable(
                blocks,
                reading_order(blocks, chosen(blocks, targets, targets.len() as int)),
            )
        },
        None => true,
    }
}

/// Whether a frame is that of a block of the group.
fn is_member(targets: &Vec<MultiTarget>, bbox: Rect) -> (r: bool)
    ensures
        r == in_group(targets@, bbox),
{
    let mut i: usize = 0;
    while i < targets.len()
        invariant
            i <= targets@.len(),
            forall|k: int| 0 <= k < i ==> (#[trigger] targets@[k]).bbox != bbox,
        decreases targets@.len() - i,
    {
        if targets[i].bbox == bbox {
            return true;
        }
        i = i + 1;
    }
    false
}

/// Whether a block that is not of the group lies in its frame.
fn has_foreign(blocks: &Vec<Block>, targets: &Vec<MultiTarget>, frame: Rect) -> (r: bool)
    ensures
        r == foreign(blocks@, targets@, frame),
{
    let mut i: usize = 0;
    while i < blocks.len()
        invariant
            i <= blocks@.len(),
            forall|k: int|
                0 <= k < i ==> !((#[trigger] blocks@[k]).bbox.touches(frame) && !in_group(
                    targets@,
                    blocks@[k].bbox,
                )),
        decreases blocks@.len() - i,
    {
        if blocks[i].bbox.intersects(&frame) && !is_member(targets, blocks[i].bbox) {
            return true;
        }
        i = i + 1;
    }
    false
}

/// Whether indices are those of blocks.
spec fn all_within(order: Seq<int>, count: int) -> bool {
    forall|i: int| 0 <= i < order.len() ==> 0 <= #[trigger] order[i] < count
}

/// A list of indices as numbers.
spec fn as_ints(order: Seq<usize>) -> Seq<int> {
    Seq::new(order.len(), |i: int| order[i] as int)
}

proof fn lemma_placed(blocks: Seq<Block>, order: Seq<int>, x: int)
    requires
        all_within(order, blocks.len() as int),
        0 <= x < blocks.len(),
    ensures
        placed(blocks, order, x).len() == order.len() + 1,
        all_within(placed(blocks, order, x), blocks.len() as int),
    decreases order.len(),
{
    if order.len() > 0 && blocks[order.last()].bbox.top < blocks[x].bbox.top {
        let head = order.drop_last();
        assert(all_within(head, blocks.len() as int)) by {
            assert forall|i: int| 0 <= i < head.len() implies 0 <= #[trigger] head[i]
                < blocks.len() by {
                assert(head[i] == order[i]);
            }
        }
        lemma_placed(blocks, head, x);
        let p = placed(blocks, head, x);
        assert(order.last() == order[order.len() - 1]);
        assert forall|i: int| 0 <= i < p.push(order.last()).len() implies 0 <= #[trigger] p.push(
            order.last(),
        )[i] < blocks.len() by {
            if i < p.len() {
                assert(p.push(order.last())[i] == p[i]);
            }
        }
    }
}

/// Puts a block behind those that stand no lower.
fn place(blocks: &Vec<Block>, order: &mut Vec<usize>, x: usize)
    requires
        all_within(as_ints(old(order)@), blocks@.len() as int),
        x < blocks@.len(),
    ensures
        as_ints(final(order)@) == placed(blocks@, as_ints(old(order)@), x as int),
        all_within(as_ints(final(order)@), blocks@.len() as int),
    decreases old(order)@.len(),
{
    let ghost was = as_ints(order@);
    proof {
        lemma_placed(blocks@, was, x as int);
    }
    let n: usize = order.len();
    if n == 0 {
        order.push(x);
        assert(as_ints(order@) == seq![x as int]);
        return;
    }
    let last: usize = order[n - 1];
    assert(was[n - 1] == last);
    assert(was.last() == last);
    if blocks[last].bbox.top >= blocks[x].bbox.top {
        order.push(x);
        assert(as_ints(order@) == was.push(x as int));
    } else {
        order.pop();
        assert(as_ints(order@) == was.drop_last());
        assert(all_within(as_ints(order@), blocks@.len() as int)) by {
            assert forall|i: int| 0 <= i < was.drop_last().len() implies 0
                <= #[trigger] was.drop_last()[i] < blocks@.len() by {
                assert(was.drop_last()[i] == was[i]);
            }
        }
        place(blocks, order, x);
        let ghost inner = as_ints(order@);
        order.push(last);
        assert(as_ints(order@) == inner.push(last as int));
    }
}

/// The blocks of the group in reading order.
fn read_order(blocks: &Vec<Block>, targets: &Vec<MultiTarget>) -> (r: Vec<usize>)
    ensures
        as_ints(r@) == reading_order(
            blocks@,
            chosen(blocks@, targets@, targets@.len() as int),
        ),
        all_within(as_ints(r@), blocks@.len() as int),
{
    let mut order: Vec<usize> = Vec::new();
    let mut i: usize = 0;
    assert(as_ints(order@) == reading_order(blocks@, chosen(blocks@, targets@, 0)));
    while i < targets.len()
        invariant
            i <= targets@.len(),
            as_ints(order@) == reading_order(blocks@, chosen(blocks@, targets@, i as int)),
            all_within(as_ints(order@), blocks@.len() as int),
        decreases targets@.len() - i,
    {
        let at: usize = find_frame(blocks, targets[i].bbox);
        let ghost before = chosen(blocks@, targets@, i as int);
        if at < blocks.len() {
            assert(before.push(at as int).drop_last() == before);
            place(blocks, &mut order, at);
        }
        i = i + 1;
    }
    order
}

/// Puts a space behind a text that does not end in one.
fn add_space(text: &String) -> (r: String)
    ensures
        r@ == if text@.len() > 0 && text@.last() == ' ' {
            text@
        } else {
            text@.push(' ')
        },
{
    let chars = chars_of_str(text.as_str());
    let n: usize = chars.len();
    let mut out = text.clone();
    if !(n > 0 && chars[n - 1] == ' ') {
        out.append(" ");
        proof {
            reveal_strlit(" ");
        }
        assert(out@ == text@.push(' '));
    }
    out
}

/// The runs of blocks, one after another with a space between them.
fn join_runs(blocks: &Vec<Block>, order: &Vec<usize>, color: Color) -> (r: Vec<Run>)
    requires
        all_within(as_ints(order@), blocks@.len() as int),
        readable(blocks@),
    ensures
        run_views(r@) == joined_runs(blocks@, as_ints(order@), color),
{
    let ghost all = as_ints(order@);
    let mut runs: Vec<Run> = Vec::new();
    let mut i: usize = 0;
    assert(all.take(0) == Seq::<int>::empty());
    while i < order.len()
        invariant
            i <= order@.len(),
            all == as_ints(order@),
            all_within(all, blocks@.len() as int),
            readable(blocks@),
            run_views(runs@) == joined_runs(blocks@, all.take(i as int), color),
        decreases order@.len() - i,
    {
        assert(all.take(i + 1).drop_last() == all.take(i as int));
        assert(all.take(i + 1).last() == all[i as int]);
        let at: usize = order[i];
        assert(0 <= all[i as int] < blocks@.len());
        assert(block_fits(blocks@[at as int], color));
        let text = model_from_block(&blocks[at], color);
        proof {
            valid_runs_are_tidied(text@);
        }
        let ghost before = run_views(runs@);
        if runs.len() > 0 {
            let mut last = runs.pop().unwrap();
            assert(run_views(runs@) == before.drop_last());
            assert(last@ == before.last());
            last.text = add_space(&last.text);
            runs.push(last);
        }
        assert(run_views(runs@) == spaced(before));
        let ghost sewn = run_views(runs@);
        let more = text.runs();
        let ghost added = run_views(more@);
        let mut j: usize = 0;
        while j < more.len()
            invariant
                j <= more@.len(),
                added == run_views(more@),
                run_views(runs@) == sewn + added.take(j as int),
            decreases more@.len() - j,
        {
            let ghost so_far = run_views(runs@);
            runs.push(more[j].clone());
            assert(run_views(runs@) == so_far.push(added[j as int]));
            assert(added.take(j + 1) == added.take(j as int).push(added[j as int]));
            assert(run_views(runs@) == sewn + added.take(j + 1));
            j = j + 1;
        }
        assert(added.take(j as int) == added);
        i = i + 1;
    }
    assert(all.take(all.len() as int) == all);
    runs
}

/// Joins the blocks of a group into one paragraph.
///
/// Nothing happens where fewer than two are selected, and joining is refused
/// where text that is not of the group lies between its blocks.
pub fn join_blocks(targets: &Vec<MultiTarget>, pages: &Vec<PageBlocks>) -> (r: Joined)
    requires
        join_fits(targets@, pages@),
    ensures
        is_joined(targets@, pages@, r),
{
    if targets.len() < 2 {
        return Joined::Nothing;
    }
    let page: u32 = targets[0].page;
    assert(targets@[0].page < u32::MAX);
    let blocks = match find_page(pages, page) {
        Some(blocks) => blocks,
        None => {
            return Joined::Nothing;
        },
    };
    let frame = union_of(targets);
    if has_foreign(blocks, targets, frame) {
        return Joined::Blocked;
    }
    let order = read_order(blocks, targets);
    if order.len() == 0 {
        return Joined::Nothing;
    }
    let ghost ints = as_ints(order@);
    assert(0 <= ints[0] < blocks@.len());
    let first = &blocks[order[0]];
    let color = first.dominant.color;
    let runs = join_runs(blocks, &order, color);
    assert(run_views(runs@) == joined_runs(blocks@, ints, color));
    let text = RichText::from_runs(runs);
    proof {
        valid_runs_are_tidied(text@);
    }
    let mut edits: Vec<BlockEdit> = Vec::new();
    let mut i: usize = 0;
    while i < order.len()
        invariant
            page < u32::MAX,
            i <= order@.len(),
            ints == as_ints(order@),
            all_within(ints, blocks@.len() as int),
            edits@.len() == i,
            forall|k: int|
                0 <= k < i ==> (#[trigger] edits@[k])@ == EditView::Erase(
                    BlockErase {
                        page_number: (page + 1) as u32,
                        bbox: blocks@[ints[k]].bbox,
                        owner: blocks@[ints[k]].mark,
                    },
                ),
        decreases order@.len() - i,
    {
        assert(0 <= ints[i as int] < blocks@.len());
        let block = &blocks[order[i]];
        edits.push(
            BlockEdit::Erase(
                BlockErase { page_number: page + 1, bbox: block.bbox, owner: block.mark },
            ),
        );
        i = i + 1;
    }
    let ghost erases = edit_views(edits@);
    let rewrite = BlockEdit::Rewrite(
        BlockRewrite {
            page_number: page + 1,
            bbox: frame,
            target: Some(frame),
            spans: text.to_spans(first.dominant.family.as_str()),
            align: first.align,
            line_height: first.leading,
            rotation: 0,
            create: true,
            owner: None,
            char_spacing: None,
            h_scale: None,
            para_spacing: None,
            fill: None,
            style_id: None,
        },
    );
    edits.push(rewrite);
    proof {
        assert(edit_views(edits@) == erases.push(rewrite@));
        assert(edit_views(edits@) == join_edits(page, blocks@, ints, frame));
    }
    Joined::Edits(edits)
}

/// Text for the seam between two pieces: what is there gets a space behind it,
/// unless it ends in one or is empty.
proof fn lemma_spaced_text(runs: Seq<RunView>)
    requires
        forall|i: int| 0 <= i < runs.len() ==> (#[trigger] runs[i]).text.len() > 0,
    ensures
        ({
            let text = chars_of(cells_of(runs));
            chars_of(cells_of(spaced(runs))) == if text.len() == 0 || text.last() == ' ' {
                text
            } else {
                text + seq![' ']
            }
        }),
        forall|i: int|
            0 <= i < spaced(runs).len() ==> (#[trigger] spaced(runs)[i]).text.len() > 0,
{
    if runs.len() > 0 {
        let head = runs.drop_last();
        let last = runs.last();
        let after = spaced(runs).last();
        assert(last == runs[runs.len() - 1]);
        assert(runs == head.push(last));
        assert(spaced(runs) == head.push(after));
        lemma_cells_push(head, last);
        lemma_cells_push(head, after);
        lemma_chars_add(cells_of(head), styled(last.text, last.style));
        lemma_chars_add(cells_of(head), styled(after.text, after.style));
        lemma_chars_styled(last.text, last.style);
        lemma_chars_styled(after.text, after.style);
        let before = chars_of(cells_of(head));
        assert((before + last.text).last() == last.text.last());
        assert(before + last.text.push(' ') == before + last.text + seq![' ']);
        assert forall|i: int| 0 <= i < spaced(runs).len() implies (
        #[trigger] spaced(runs)[i]).text.len() > 0 by {
            if i < head.len() {
                assert(spaced(runs)[i] == runs[i]);
            }
        }
    }
}

proof fn lemma_joined_runs(blocks: Seq<Block>, order: Seq<int>, color: Color)
    ensures
        forall|i: int|
            0 <= i < joined_runs(blocks, order, color).len() ==> (#[trigger] joined_runs(
                blocks,
                order,
                color,
            )[i]).text.len() > 0,
    decreases order.len(),
{
    if order.len() > 0 {
        let before = joined_runs(blocks, order.drop_last(), color);
        let cells = cells_of(block_runs(blocks[order.last()].lines@, color));
        lemma_joined_runs(blocks, order.drop_last(), color);
        lemma_spaced_text(before);
        lemma_tidied(cells);
        let all = joined_runs(blocks, order, color);
        assert forall|i: int| 0 <= i < all.len() implies (#[trigger] all[i]).text.len() > 0 by {
            if i < spaced(before).len() {
                assert(all[i] == spaced(before)[i]);
            } else {
                assert(all[i] == tidied(cells)[i - spaced(before).len()]);
            }
        }
    }
}

/// The text of joined blocks is the text of those before the last, a space at the
/// seam, unless there is one or nothing stands before it, and the text of the last.
pub proof fn joined_blocks_are_parted_by_a_space(blocks: Seq<Block>, order: Seq<int>, color: Color)
    requires
        order.len() > 0,
    ensures
        ({
            let before = chars_of(cells_of(joined_runs(blocks, order.drop_last(), color)));
            let after = chars_of(cells_of(joined_runs(blocks, order, color)));
            let last = chars_of(cells_of(block_runs(blocks[order.last()].lines@, color)));
            if before.len() == 0 || before.last() == ' ' {
                after == before + last
            } else {
                after == before + seq![' '] + last
            }
        }),
{
    let before = joined_runs(blocks, order.drop_last(), color);
    let cells = cells_of(block_runs(blocks[order.last()].lines@, color));
    lemma_joined_runs(blocks, order.drop_last(), color);
    lemma_spaced_text(before);
    lemma_tidied(cells);
    lemma_cells_add(spaced(before), tidied(cells));
    lemma_chars_add(cells_of(spaced(before)), cells);
}

/// Whether texts stand in a text one behind another, at the places given.
pub open spec fn stand_in(text: Seq<char>, parts: Seq<Seq<char>>, starts: Seq<int>) -> bool {
    &&& starts.len() == parts.len()
    &&& forall|i: int|
        0 <= i < parts.len() ==> 0 <= #[trigger] starts[i] && starts[i] + parts[i].len()
            <= text.len() && text.subrange(starts[i], starts[i] + parts[i].len()) == parts[i]
    &&& forall|i: int, j: int|
        0 <= i < j < parts.len() ==> #[trigger] starts[i] + parts[i].len() <= #[trigger] starts[j]
}

/// The texts of blocks.
pub open spec fn block_texts(blocks: Seq<Block>, order: Seq<int>, color: Color) -> Seq<Seq<char>> {
    Seq::new(
        order.len(),
        |i: int| chars_of(cells_of(block_runs(blocks[order[i]].lines@, color))),
    )
}

/// The text of every block that is joined stands in the joined text, and in the
/// order of the blocks.
pub proof fn every_block_is_in_the_joined_text(
    blocks: Seq<Block>,
    order: Seq<int>,
    color: Color,
) -> (starts: Seq<int>)
    ensures
        stand_in(
            chars_of(cells_of(joined_runs(blocks, order, color))),
            block_texts(blocks, order, color),
            starts,
        ),
    decreases order.len(),
{
    if order.len() == 0 {
        Seq::empty()
    } else {
        let head = order.drop_last();
        let before = every_block_is_in_the_joined_text(blocks, head, color);
        joined_blocks_are_parted_by_a_space(blocks, order, color);
        let text = chars_of(cells_of(joined_runs(blocks, head, color)));
        let whole = chars_of(cells_of(joined_runs(blocks, order, color)));
        let last = chars_of(cells_of(block_runs(blocks[order.last()].lines@, color)));
        let parts = block_texts(blocks, order, color);
        let fewer = block_texts(blocks, head, color);
        let starts = before.push(whole.len() - last.len());
        assert(parts == fewer.push(last));
        assert forall|i: int| 0 <= i < parts.len() implies 0 <= #[trigger] starts[i] && starts[i]
            + parts[i].len() <= whole.len() && whole.subrange(
            starts[i],
            starts[i] + parts[i].len(),
        ) == parts[i] by {
            if i < fewer.len() {
                assert(starts[i] == before[i]);
                assert(text.subrange(before[i], before[i] + fewer[i].len()) == fewer[i]);
                assert(whole.subrange(before[i], before[i] + fewer[i].len()) == text.subrange(
                    before[i],
                    before[i] + fewer[i].len(),
                ));
            } else {
                assert(whole.subrange(whole.len() - last.len(), whole.len() as int) == last);
            }
        }
        assert forall|i: int, j: int| 0 <= i < j < parts.len() implies #[trigger] starts[i]
            + parts[i].len() <= #[trigger] starts[j] by {
            if j < fewer.len() {
                assert(starts[i] == before[i] && starts[j] == before[j]);
            } else {
                assert(starts[i] == before[i]);
            }
        }
        starts
    }
}

/// Putting blocks in reading order loses none and adds none.
pub proof fn reading_order_keeps_the_blocks(blocks: Seq<Block>, list: Seq<int>)
    ensures
        reading_order(blocks, list).len() == list.len(),
        reading_order(blocks, list).to_multiset() == list.to_multiset(),
    decreases list.len(),
{
    broadcast use vstd::seq_lib::group_to_multiset_ensures;

    if list.len() > 0 {
        let head = list.drop_last();
        reading_order_keeps_the_blocks(blocks, head);
        lemma_placed_keeps(blocks, reading_order(blocks, head), list.last());
        assert(list == head.push(list.last()));
    } else {
        assert(reading_order(blocks, list) == list);
    }
}

proof fn lemma_placed_keeps(blocks: Seq<Block>, order: Seq<int>, x: int)
    ensures
        placed(blocks, order, x).len() == order.len() + 1,
        placed(blocks, order, x).to_multiset() == order.to_multiset().insert(x),
    decreases order.len(),
{
    broadcast use vstd::seq_lib::group_to_multiset_ensures;

    if order.len() == 0 {
        assert(placed(blocks, order, x) == order.push(x));
    } else if blocks[order.last()].bbox.top < blocks[x].bbox.top {
        let head = order.drop_last();
        lemma_placed_keeps(blocks, head, x);
        assert(order == head.push(order.last()));
        assert(head.to_multiset().insert(x).insert(order.last())
            == head.to_multiset().insert(order.last()).insert(x));
    }
}

/// The blocks of a group that are on the page are chosen, each of them, and no
/// other block is.
proof fn lemma_chosen(blocks: Seq<Block>, targets: Seq<MultiTarget>, count: int)
    requires
        0 <= count <= targets.len(),
    ensures
        forall|t: int, b: int|
            0 <= t < count && 0 <= b < blocks.len() && (#[trigger] blocks[b]).bbox == (
            #[trigger] targets[t]).bbox ==> exists|k: int|
                0 <= k < chosen(blocks, targets, count).len() && blocks[#[trigger] chosen(
                    blocks,
                    targets,
                    count,
                )[k]].bbox == targets[t].bbox,
        forall|k: int|
            0 <= k < chosen(blocks, targets, count).len() ==> 0 <= #[trigger] chosen(
                blocks,
                targets,
                count,
            )[k] < blocks.len() && in_group(
                targets,
                blocks[chosen(blocks, targets, count)[k]].bbox,
            ),
    decreases count,
{
    if count > 0 {
        lemma_chosen(blocks, targets, count - 1);
        let before = chosen(blocks, targets, count - 1);
        let all = chosen(blocks, targets, count);
        let bbox = targets[count - 1].bbox;
        let at = block_index(blocks, bbox, 0);
        lemma_block_index(blocks, bbox, 0);
        assert forall|t: int, b: int|
            0 <= t < count && 0 <= b < blocks.len() && (#[trigger] blocks[b]).bbox == (
            #[trigger] targets[t]).bbox implies exists|k: int|
            0 <= k < all.len() && blocks[#[trigger] all[k]].bbox == targets[t].bbox by {
            if t < count - 1 {
                let k = choose|k: int|
                    0 <= k < before.len() && blocks[#[trigger] before[k]].bbox == targets[t].bbox;
                assert(all[k] == before[k]);
            } else {
                assert(at < blocks.len());
                assert(blocks[all[all.len() - 1]].bbox == bbox);
            }
        }
        assert forall|k: int| 0 <= k < all.len() implies 0 <= #[trigger] all[k] < blocks.len()
            && in_group(targets, blocks[all[k]].bbox) by {
            if k < before.len() {
                assert(all[k] == before[k]);
            } else {
                assert(targets[count - 1].bbox == blocks[at].bbox);
            }
        }
    }
}

/// Joining takes every block of the group that is on the page off it, no other,
/// and lays one new block in the frame of the group that reads as all of them:
/// the text of each that goes stands in it, in reading order.
pub proof fn joining_keeps_every_text(
    targets: Seq<MultiTarget>,
    pages: Seq<PageBlocks>,
    edits: Vec<BlockEdit>,
) -> (starts: Seq<int>)
    requires
        is_joined(targets, pages, Joined::Edits(edits)),
        targets[0].page < u32::MAX,
    ensures
        ({
            let page = targets[0].page;
            let blocks = blocks_of(pages, page)->0;
            let views = edit_views(edits@);
            let n = views.len() - 1;
            let order = reading_order(blocks, chosen(blocks, targets, targets.len() as int));
            let color = blocks[order[0]].dominant.color;
            let joined = views[n]->Rewrite_0;
            let frame = hull_of(targets, targets.len() as int);
            &&& targets.len() >= 2
            &&& n == order.len() && n > 0
            &&& forall|i: int|
                0 <= i < n ==> {
                    let erase = (#[trigger] views[i])->Erase_0;
                    &&& views[i] is Erase
                    &&& erase.page_number == page + 1
                    &&& 0 <= order[i] < blocks.len()
                    &&& erase.bbox == blocks[order[i]].bbox
                    &&& erase.owner == blocks[order[i]].mark
                    &&& in_group(targets, erase.bbox)
                }
            &&& forall|i: int, j: int|
                0 <= i <= j < n ==> (#[trigger] views[i])->Erase_0.bbox.top >= (
                #[trigger] views[j])->Erase_0.bbox.top
            &&& forall|t: int, b: int|
                0 <= t < targets.len() && 0 <= b < blocks.len() && (#[trigger] blocks[b]).bbox == (
                #[trigger] targets[t]).bbox ==> exists|i: int|
                    0 <= i < n && (#[trigger] views[i])->Erase_0.bbox == targets[t].bbox
            &&& views[n] is Rewrite
            &&& joined.page_number == page + 1
            &&& joined.create
            &&& joined.bbox == frame
            &&& joined.target == Some(frame)
            &&& joined.align == blocks[order[0]].align
            &&& joined.line_height == blocks[order[0]].leading
            &&& joined.rotation == 0
            &&& read_spans(joined.spans) == chars_of(cells_of(joined_runs(blocks, order, color)))
            &&& stand_in(read_spans(joined.spans), block_texts(blocks, order, color), starts)
        }),
{
    let page = targets[0].page;
    let blocks = blocks_of(pages, page)->0;
    let views = edit_views(edits@);
    let list = chosen(blocks, targets, targets.len() as int);
    let order = reading_order(blocks, list);
    let color = blocks[order[0]].dominant.color;
    let n = views.len() - 1;
    let cells = cells_of(joined_runs(blocks, order, color));
    reading_order_keeps_the_blocks(blocks, list);
    lemma_chosen(blocks, targets, targets.len() as int);
    lemma_same_blocks(order, list);
    lemma_same_blocks(list, order);
    assert forall|i: int| 0 <= i < n implies {
        let erase = (#[trigger] views[i])->Erase_0;
        &&& views[i] is Erase
        &&& erase.page_number == page + 1
        &&& 0 <= order[i] < blocks.len()
        &&& erase.bbox == blocks[order[i]].bbox
        &&& erase.owner == blocks[order[i]].mark
        &&& in_group(targets, erase.bbox)
    } by {
        assert(list.contains(order[i]));
        let k = choose|k: int| 0 <= k < list.len() && list[k] == order[i];
        assert(0 <= list[k] < blocks.len());
    }
    assert forall|i: int, j: int| 0 <= i <= j < n implies (#[trigger] views[i])->Erase_0.bbox.top
        >= (#[trigger] views[j])->Erase_0.bbox.top by {
        reading_goes_from_the_top_down(blocks, list, i, j);
    }
    assert forall|t: int, b: int|
        0 <= t < targets.len() && 0 <= b < blocks.len() && (#[trigger] blocks[b]).bbox == (
        #[trigger] targets[t]).bbox implies exists|i: int|
        0 <= i < n && (#[trigger] views[i])->Erase_0.bbox == targets[t].bbox by {
        let k = choose|k: int|
            0 <= k < list.len() && blocks[#[trigger] list[k]].bbox == targets[t].bbox;
        assert(order.contains(list[k]));
        let i = choose|i: int| 0 <= i < order.len() && order[i] == list[k];
        assert(views[i]->Erase_0.bbox == targets[t].bbox);
    }
    lemma_tidied(cells);
    let family = blocks[order[0]].dominant.family@;
    lemma_read_spans(spans_of(tidied(cells), family), tidied(cells));
    every_block_is_in_the_joined_text(blocks, order, color)
}

proof fn lemma_same_blocks(a: Seq<int>, b: Seq<int>)
    requires
        a.to_multiset() == b.to_multiset(),
    ensures
        forall|i: int| 0 <= i < a.len() ==> b.contains(#[trigger] a[i]),
{
    broadcast use vstd::seq_lib::group_to_multiset_ensures;

    assert forall|i: int| 0 <= i < a.len() implies b.contains(#[trigger] a[i]) by {
        assert(a.contains(a[i]));
        assert(b.to_multiset().count(a[i]) > 0);
    }
}

/// Text of others is never covered: joining is refused just where a block of the
/// page that is not of the group has a point in common with its frame.
pub proof fn text_of_others_is_never_covered(
    targets: Seq<MultiTarget>,
    pages: Seq<PageBlocks>,
    outcome: Joined,
)
    requires
        is_joined(targets, pages, outcome),
        targets.len() >= 2,
        blocks_of(pages, targets[0].page) is Some,
    ensures
        ({
            let blocks = blocks_of(pages, targets[0].page)->0;
            let frame = hull_of(targets, targets.len() as int);
            outcome is Blocked <==> exists|i: int|
                0 <= i < blocks.len() && {
                    let b = (#[trigger] blocks[i]).bbox;
                    &&& b.left <= frame.right && frame.left <= b.right
                    &&& b.bottom <= frame.top && frame.bottom <= b.top
                    &&& forall|k: int| 0 <= k < targets.len() ==> (#[trigger] targets[k]).bbox != b
                }
        }),
{
    let blocks = blocks_of(pages, targets[0].page)->0;
    let frame = hull_of(targets, targets.len() as int);
    assert forall|i: int| 0 <= i < blocks.len() implies ({
        let b = (#[trigger] blocks[i]).bbox;
        &&& b.left <= frame.right && frame.left <= b.right
        &&& b.bottom <= frame.top && frame.bottom <= b.top
        &&& forall|k: int| 0 <= k < targets.len() ==> (#[trigger] targets[k]).bbox != b
    } <==> blocks[i].bbox.touches(frame) && !in_group(targets, blocks[i].bbox)) by {
        let b = blocks[i].bbox;
        if in_group(targets, b) {
            let k = choose|k: int| 0 <= k < targets.len() && (#[trigger] targets[k]).bbox == b;
            assert(targets[k].bbox == b);
        }
    }
}

/// In reading order no block stands below the next.
pub proof fn reading_goes_from_the_top_down(blocks: Seq<Block>, list: Seq<int>, i: int, j: int)
    requires
        0 <= i <= j < reading_order(blocks, list).len(),
    ensures
        blocks[reading_order(blocks, list)[i]].bbox.top >= blocks[reading_order(
            blocks,
            list,
        )[j]].bbox.top,
    decreases list.len(),
{
    let before = reading_order(blocks, list.drop_last());
    assert forall|a: int, b: int| 0 <= a <= b < before.len() implies blocks[#[trigger] before[a]].bbox.top
        >= blocks[#[trigger] before[b]].bbox.top by {
        reading_goes_from_the_top_down(blocks, list.drop_last(), a, b);
    }
    lemma_placed_in_order(blocks, before, list.last());
}

proof fn lemma_placed_in_order(blocks: Seq<Block>, order: Seq<int>, x: int)
    requires
        forall|a: int, b: int|
            0 <= a <= b < order.len() ==> blocks[#[trigger] order[a]].bbox.top
                >= blocks[#[trigger] order[b]].bbox.top,
    ensures
        forall|a: int, b: int|
            0 <= a <= b < placed(blocks, order, x).len() ==> blocks[#[trigger] placed(
                blocks,
                order,
                x,
            )[a]].bbox.top >= blocks[#[trigger] placed(blocks, order, x)[b]].bbox.top,
        forall|a: int|
            0 <= a < placed(blocks, order, x).len() ==> #[trigger] placed(blocks, order, x)[a] == x
                || order.contains(placed(blocks, order, x)[a]),
    decreases order.len(),
{
    let p = placed(blocks, order, x);
    if order.len() == 0 {
    } else if blocks[order.last()].bbox.top >= blocks[x].bbox.top {
        assert forall|a: int, b: int| 0 <= a <= b < p.len() implies blocks[#[trigger] p[a]].bbox.top
            >= blocks[#[trigger] p[b]].bbox.top by {
            if b == order.len() && a < b {
                assert(p[a] == order[a]);
                assert(blocks[order[a]].bbox.top >= blocks[order[order.len() - 1]].bbox.top);
            } else if b < order.len() {
                assert(p[a] == order[a] && p[b] == order[b]);
            }
        }
        assert forall|a: int| 0 <= a < p.len() implies #[trigger] p[a] == x || order.contains(
            p[a],
        ) by {
            if a < order.len() {
                assert(p[a] == order[a]);
            }
        }
    } else {
        let head = order.drop_last();
        assert forall|a: int, b: int| 0 <= a <= b < head.len() implies blocks[#[trigger] head[a]].bbox.top
            >= blocks[#[trigger] head[b]].bbox.top by {
            assert(head[a] == order[a] && head[b] == order[b]);
        }
        lemma_placed_in_order(blocks, head, x);
        let inner = placed(blocks, head, x);
        let last = order.last();
        assert(last == order[order.len() - 1]);
        assert forall|a: int| 0 <= a < inner.len() implies blocks[#[trigger] inner[a]].bbox.top
            >= blocks[last].bbox.top by {
            if inner[a] != x {
                let k = choose|k: int| 0 <= k < head.len() && head[k] == inner[a];
                assert(order[k] == inner[a]);
            }
        }
        assert forall|a: int, b: int| 0 <= a <= b < p.len() implies blocks[#[trigger] p[a]].bbox.top
            >= blocks[#[trigger] p[b]].bbox.top by {
            if b < inner.len() {
                assert(p[a] == inner[a] && p[b] == inner[b]);
            } else if a < inner.len() {
                assert(p[a] == inner[a]);
            }
        }
        assert forall|a: int| 0 <= a < p.len() implies #[trigger] p[a] == x || order.contains(
            p[a],
        ) by {
            if a < inner.len() {
                assert(p[a] == inner[a]);
                if inner[a] != x {
                    let k = choose|k: int| 0 <= k < head.len() && head[k] == inner[a];
                    assert(order[k] == inner[a]);
                }
            } else {
                assert(p[a] == order[order.len() - 1]);
            }
        }
    }
}

} // verus!
