//! Several blocks at once: their common properties, moving, lining up, joining,
//! copying and pasting them.
use crate::block_model::{block_fits, block_runs, model_from_block};
use crate::document::{
    edit_views, plain_rewrite, read_spans, Align, Block, BlockEdit, BlockErase, BlockRewrite,
    BlockTransform, EditView, RewriteView, Script,
};
use crate::geometry::{abs_of, greatest, half, max_of, sane, Rect};
use crate::rich_text::{
    cells_of, chars_of, lemma_read_spans, lemma_style_of_run, lemma_tidied, spans_of, tidied,
    valid_runs_are_tidied, Cell, RichText, StyleChange,
};
use crate::units::{Color, Points, POINT};
use vstd::prelude::*;

verus! {

/// A block of the group: all that an edit of it needs.
#[derive(Clone, Copy, Debug)]
pub struct MultiTarget {
    pub page: u32,
    pub bbox: Rect,
    pub owner: Option<i64>,
    pub size: Points,
    pub line_height: Option<Points>,
    pub align: Align,
}

/// The target that a block makes.
pub open spec fn target_of(page: u32, block: Block) -> MultiTarget {
    MultiTarget {
        page,
        bbox: block.bbox,
        owner: block.mark,
        size: block.dominant.size,
        line_height: block.leading,
        align: block.align,
    }
}

/// The target that a block makes.
pub fn make_target(page: u32, block: &Block) -> (r: MultiTarget)
    ensures
        r == target_of(page, *block),
{
    MultiTarget {
        page,
        bbox: block.bbox,
        owner: block.mark,
        size: block.dominant.size,
        line_height: block.leading,
        align: block.align,
    }
}

/// The blocks that were found on a page.
#[derive(Debug)]
pub struct PageBlocks {
    pub page: u32,
    pub blocks: Vec<Block>,
}

/// The first block, from the `i`-th on, with a frame; the end where none is.
pub open spec fn block_index(blocks: Seq<Block>, bbox: Rect, i: int) -> int
    decreases blocks.len() - i,
{
    if i >= blocks.len() || blocks[i].bbox == bbox {
        i
    } else {
        block_index(blocks, bbox, i + 1)
    }
}

/// The first entry, from the `i`-th on, of a page; the end where none is.
pub open spec fn page_index(pages: Seq<PageBlocks>, page: u32, i: int) -> int
    decreases pages.len() - i,
{
    if i >= pages.len() || pages[i].page == page {
        i
    } else {
        page_index(pages, page, i + 1)
    }
}

/// The blocks that are known of a page.
pub open spec fn blocks_of(pages: Seq<PageBlocks>, page: u32) -> Option<Seq<Block>> {
    let i = page_index(pages, page, 0);
    if i < pages.len() {
        Some(pages[i].blocks@)
    } else {
        None
    }
}

/// The block of a page with a frame.
pub open spec fn block_at(pages: Seq<PageBlocks>, page: u32, bbox: Rect) -> Option<Block> {
    match blocks_of(pages, page) {
        Some(blocks) => {
            let k = block_index(blocks, bbox, 0);
            if k < blocks.len() {
                Some(blocks[k])
            } else {
                None
            }
        },
        None => None,
    }
}

/// The blocks that are known of a page.
pub fn find_page<'a>(pages: &'a Vec<PageBlocks>, page: u32) -> (r: Option<&'a Vec<Block>>)
    ensures
        match r {
            Some(blocks) => blocks_of(pages@, page) == Some(blocks@),
            None => blocks_of(pages@, page) is None,
        },
{
    let mut i: usize = 0;
    while i < pages.len()
        invariant
            i <= pages@.len(),
            page_index(pages@, page, 0) == page_index(pages@, page, i as int),
        decreases pages@.len() - i,
    {
        if pages[i].page == page {
            return Some(&pages[i].blocks);
        }
        i = i + 1;
    }
    None
}

/// The index of the first block with a frame.
pub fn find_frame(blocks: &Vec<Block>, bbox: Rect) -> (r: usize)
    ensures
        r == block_index(blocks@, bbox, 0),
        r <= blocks@.len(),
{
    let mut i: usize = 0;
    while i < blocks.len()
        invariant
            i <= blocks@.len(),
            block_index(blocks@, bbox, 0) == block_index(blocks@, bbox, i as int),
        decreases blocks@.len() - i,
    {
        if blocks[i].bbox == bbox {
            return i;
        }
        i = i + 1;
    }
    i
}

/// The block of a page with a frame.
pub fn find_block<'a>(pages: &'a Vec<PageBlocks>, page: u32, bbox: Rect) -> (r: Option<&'a Block>)
    ensures
        match r {
            Some(block) => block_at(pages@, page, bbox) == Some(*block),
            None => block_at(pages@, page, bbox) is None,
        },
{
    match find_page(pages, page) {
        Some(blocks) => {
            let k: usize = find_frame(blocks, bbox);
            if k < blocks.len() {
                Some(&blocks[k])
            } else {
                None
            }
        },
        None => None,
    }
}

/// A change that is made to every block of a group.
#[derive(Debug)]
pub enum GroupChange {
    Restyle(StyleChange),
    CharSpacing(Points),
    HScale(Points),
    ParaSpacing(Points),
    /// The leading as a multiple of each block's own size.
    Leading(Points),
    Align(Align),
}

/// The last target of a page with a frame.
pub open spec fn last_target(targets: Seq<MultiTarget>, page: u32, bbox: Rect) -> Option<
    MultiTarget,
>
    decreases targets.len(),
{
    if targets.len() == 0 {
        None
    } else if targets.last().page == page && targets.last().bbox == bbox {
        Some(targets.last())
    } else {
        last_target(targets.drop_last(), page, bbox)
    }
}

/// A size of at least a point, multiplied.
pub open spec fn leading_of(size: Points, factor: Points) -> int {
    max_of(size as int, POINT as int) * factor / POINT as int
}

/// The rewrite of one block of a group.
pub open spec fn group_rewrite(
    targets: Seq<MultiTarget>,
    target: MultiTarget,
    block: Block,
    change: GroupChange,
) -> RewriteView {
    let cells = cells_of(block_runs(block.lines@, block.dominant.color));
    let shown = match change {
        GroupChange::Restyle(style) => style.applied_to(cells),
        _ => cells,
    };
    let plain = plain_rewrite(
        target.page,
        target.bbox,
        spans_of(tidied(shown), block.dominant.family@),
        target.align,
        target.line_height,
        block.rotation,
        target.owner,
    );
    match change {
        GroupChange::Restyle(_) => plain,
        GroupChange::CharSpacing(value) => RewriteView { char_spacing: Some(value), ..plain },
        GroupChange::HScale(value) => RewriteView { h_scale: Some(value), ..plain },
        GroupChange::ParaSpacing(value) => RewriteView { para_spacing: Some(value), ..plain },
        GroupChange::Leading(factor) => match last_target(targets, target.page, target.bbox) {
            Some(same) => RewriteView {
                line_height: Some(leading_of(same.size, factor) as i64),
                ..plain
            },
            None => plain,
        },
        GroupChange::Align(align) => RewriteView { align, ..plain },
    }
}

/// The rewrites of the first `count` blocks of a group. Blocks that are not
/// known are passed over.
pub open spec fn group_rewrites(
    targets: Seq<MultiTarget>,
    pages: Seq<PageBlocks>,
    change: GroupChange,
    count: int,
) -> Seq<EditView>
    decreases count,
{
    if count <= 0 {
        Seq::empty()
    } else {
        let before = group_rewrites(targets, pages, change, count - 1);
        let target = targets[count - 1];
        match block_at(pages, target.page, target.bbox) {
            Some(block) => before.push(
                EditView::Rewrite(group_rewrite(targets, target, block, change)),
            ),
            None => before,
        }
    }
}

/// Whether the blocks of a group can be read.
pub open spec fn group_fits(targets: Seq<MultiTarget>, pages: Seq<PageBlocks>) -> bool {
    forall|i: int|
        0 <= i < targets.len() ==> (#[trigger] targets[i]).page < u32::MAX && (block_at(
            pages,
            targets[i].page,
            targets[i].bbox,
        ) matches Some(block) ==> block_fits(block, block.dominant.color))
}

/// Whether the leading of every block can be told.
pub open spec fn leading_fits(targets: Seq<MultiTarget>, change: GroupChange) -> bool {
    change matches GroupChange::Leading(factor) ==> forall|i: int|
        0 <= i < targets.len() ==> i64::MIN <= leading_of((#[trigger] targets[i]).size, factor)
            <= i64::MAX
}

/// The last target of a page with a frame.
fn find_last(targets: &Vec<MultiTarget>, page: u32, bbox: Rect) -> (r: Option<MultiTarget>)
    ensures
        r == last_target(targets@, page, bbox),
        r matches Some(target) ==> targets@.contains(target),
{
    let mut n: usize = targets.len();
    assert(targets@.take(n as int) == targets@);
    while n > 0
        invariant
            n <= targets@.len(),
            last_target(targets@, page, bbox) == last_target(targets@.take(n as int), page, bbox),
        decreases n,
    {
        assert(targets@.take(n as int).drop_last() == targets@.take(n - 1));
        assert(targets@.take(n as int).last() == targets@[n - 1]);
        if targets[n - 1].page == page && targets[n - 1].bbox == bbox {
            return Some(targets[n - 1]);
        }
        n = n - 1;
    }
    None
}

/// A size of at least a point, multiplied.
fn multiply(size: Points, factor: Points) -> (r: Points)
    requires
        i64::MIN <= leading_of(size, factor) <= i64::MAX,
    ensures
        r == leading_of(size, factor),
{
    let least: Points = greatest(size, POINT);
    assert(-0x8000_0000_0000_0000 * 0x7fff_ffff_ffff_ffff <= least * factor
        <= 0x8000_0000_0000_0000 * 0x7fff_ffff_ffff_ffff) by (nonlinear_arith)
        requires
            0 <= least <= 0x7fff_ffff_ffff_ffff,
            -0x8000_0000_0000_0000 <= factor <= 0x7fff_ffff_ffff_ffff,
    ;
    let product: i128 = (least as i128) * (factor as i128);
    crate::text_layout::floor_divide(product) as i64
}

/// The rewrite of a block in its place with the text it is read as.
fn rewrite_in_place(target: &MultiTarget, block: &Block, text: &RichText) -> (r: BlockRewrite)
    requires
        target.page < u32::MAX,
    ensures
        r@ == plain_rewrite(
            target.page,
            target.bbox,
            spans_of(text@.runs, block.dominant.family@),
            target.align,
            target.line_height,
            block.rotation,
            target.owner,
        ),
{
    BlockRewrite {
        page_number: target.page + 1,
        bbox: target.bbox,
        target: Some(target.bbox),
        spans: text.to_spans(block.dominant.family.as_str()),
        align: target.align,
        line_height: target.line_height,
        rotation: block.rotation,
        create: false,
        owner: target.owner,
        char_spacing: None,
        h_scale: None,
        para_spacing: None,
        fill: None,
        style_id: None,
    }
}

/// The rewrites that make a change to every block of a group.
pub fn rewrite_group(
    targets: &Vec<MultiTarget>,
    pages: &Vec<PageBlocks>,
    change: &GroupChange,
) -> (r: Vec<BlockEdit>)
    requires
        group_fits(targets@, pages@),
        leading_fits(targets@, *change),
    ensures
        edit_views(r@) == group_rewrites(targets@, pages@, *change, targets@.len() as int),
{
    let mut edits: Vec<BlockEdit> = Vec::new();
    let mut i: usize = 0;
    while i < targets.len()
        invariant
            group_fits(targets@, pages@),
            leading_fits(targets@, *change),
            i <= targets@.len(),
            edit_views(edits@) == group_rewrites(targets@, pages@, *change, i as int),
        decreases targets@.len() - i,
    {
        let target = targets[i];
        assert(targets@[i as int].page < u32::MAX);
        let ghost before = edit_views(edits@);
        if let Some(block) = find_block(pages, target.page, target.bbox) {
            let mut text = model_from_block(block, block.dominant.color);
            let ghost cells = text@.cells();
            if let GroupChange::Restyle(style) = change {
                text.change_style(style);
                proof {
                    assert(cells.take(0) == Seq::<Cell>::empty());
                    assert(cells.subrange(0, cells.len() as int) == cells);
                    assert(cells.skip(cells.len() as int) == Seq::<Cell>::empty());
                    assert(text@.cells() == style.applied_to(cells));
                }
            }
            proof {
                valid_runs_are_tidied(text@);
            }
            let mut edit = rewrite_in_place(&target, block, &text);
            match change {
                GroupChange::Restyle(_) => {},
                GroupChange::CharSpacing(value) => {
                    edit.char_spacing = Some(*value);
                },
                GroupChange::HScale(value) => {
                    edit.h_scale = Some(*value);
                },
                GroupChange::ParaSpacing(value) => {
                    edit.para_spacing = Some(*value);
                },
                GroupChange::Leading(factor) => {
                    if let Some(same) = find_last(targets, target.page, target.bbox) {
                        proof {
                            let k = choose|k: int| 0 <= k < targets@.len() && targets@[k] == same;
                            assert(i64::MIN <= leading_of(targets@[k].size, *factor) <= i64::MAX);
                        }
                        edit.line_height = Some(multiply(same.size, *factor));
                    }
                },
                GroupChange::Align(align) => {
                    edit.align = *align;
                },
            }
            assert(edit@ == group_rewrite(targets@, target, *block, *change));
            let done = BlockEdit::Rewrite(edit);
            edits.push(done);
            assert(edit_views(edits@) == before.push(done@));
        }
        i = i + 1;
    }
    edits
}

proof fn lemma_page_index(pages: Seq<PageBlocks>, page: u32, i: int)
    requires
        0 <= i <= pages.len(),
    ensures
        i <= page_index(pages, page, i) <= pages.len(),
        page_index(pages, page, i) < pages.len() ==> pages[page_index(pages, page, i)].page == page,
        forall|k: int|
            i <= k < page_index(pages, page, i) ==> (#[trigger] pages[k]).page != page,
    decreases pages.len() - i,
{
    if !(i >= pages.len() || pages[i].page == page) {
        lemma_page_index(pages, page, i + 1);
    }
}

/// Where a frame is found among blocks.
pub(crate) proof fn lemma_block_index(blocks: Seq<Block>, bbox: Rect, i: int)
    requires
        0 <= i <= blocks.len(),
    ensures
        i <= block_index(blocks, bbox, i) <= blocks.len(),
        block_index(blocks, bbox, i) < blocks.len() ==> blocks[block_index(
            blocks,
            bbox,
            i,
        )].bbox == bbox,
        forall|k: int|
            i <= k < block_index(blocks, bbox, i) ==> (#[trigger] blocks[k]).bbox != bbox,
    decreases blocks.len() - i,
{
    if !(i >= blocks.len() || blocks[i].bbox == bbox) {
        lemma_block_index(blocks, bbox, i + 1);
    }
}

/// A block is found by its page and its frame: what is found has both, and where
/// the page is known and has a block with the frame, one is found.
pub proof fn a_block_is_found_by_its_frame(pages: Seq<PageBlocks>, page: u32, bbox: Rect, p: int)
    requires
        0 <= p < pages.len(),
        pages[p].page == page,
        forall|q: int| 0 <= q < p ==> (#[trigger] pages[q]).page != page,
    ensures
        blocks_of(pages, page) == Some(pages[p].blocks@),
        block_at(pages, page, bbox) matches Some(block) ==> block.bbox == bbox
            && pages[p].blocks@.contains(block),
        block_at(pages, page, bbox) is None ==> forall|k: int|
            0 <= k < pages[p].blocks@.len() ==> (#[trigger] pages[p].blocks@[k]).bbox != bbox,
{
    lemma_page_index(pages, page, 0);
    let at = page_index(pages, page, 0);
    if at < p {
        assert(pages[at].page == page);
    } else if p < at {
        assert(pages[p].page != page);
    }
    lemma_block_index(pages[p].blocks@, bbox, 0);
}

/// Of a page of which nothing is known no block is found.
pub proof fn no_block_is_found_on_an_unknown_page(pages: Seq<PageBlocks>, page: u32, bbox: Rect)
    requires
        forall|p: int| 0 <= p < pages.len() ==> (#[trigger] pages[p]).page != page,
    ensures
        blocks_of(pages, page) is None,
        block_at(pages, page, bbox) is None,
{
    lemma_page_index(pages, page, 0);
}

proof fn lemma_last_target(targets: Seq<MultiTarget>, page: u32, bbox: Rect, i: int)
    requires
        0 <= i < targets.len(),
        targets[i].page == page,
        targets[i].bbox == bbox,
    ensures
        last_target(targets, page, bbox) matches Some(same) && targets.contains(same) && same.page
            == page && same.bbox == bbox,
    decreases targets.len(),
{
    if targets.last().page == page && targets.last().bbox == bbox {
        assert(targets[targets.len() - 1] == targets.last());
    } else {
        assert(i < targets.len() - 1);
        assert(targets.drop_last()[i] == targets[i]);
        lemma_last_target(targets.drop_last(), page, bbox, i);
        let same = last_target(targets.drop_last(), page, bbox)->0;
        let k = choose|k: int|
            0 <= k < targets.drop_last().len() && targets.drop_last()[k] == same;
        assert(targets[k] == same);
    }
}

/// A change of a group sets a block anew in its place, with its text as it was:
/// what is changed is changed, and nothing else. The distance of the lines is a
/// multiple of the size of the block, which counts as a point at least.
pub proof fn a_group_change_sets_a_block_in_its_place(
    targets: Seq<MultiTarget>,
    target: MultiTarget,
    block: Block,
    change: GroupChange,
)
    requires
        targets.contains(target),
        target.page < u32::MAX,
        leading_fits(targets, change),
    ensures
        ({
            let edit = group_rewrite(targets, target, block, change);
            &&& edit.page_number == target.page + 1
            &&& edit.bbox == target.bbox
            &&& edit.target == Some(target.bbox)
            &&& edit.owner == target.owner
            &&& edit.rotation == block.rotation
            &&& !edit.create
            &&& edit.fill is None
            &&& edit.style_id is None
            &&& read_spans(edit.spans) == chars_of(
                cells_of(block_runs(block.lines@, block.dominant.color)),
            )
            &&& edit.char_spacing == (if let GroupChange::CharSpacing(value) = change {
                Some(value)
            } else {
                None
            })
            &&& edit.h_scale == (if let GroupChange::HScale(value) = change {
                Some(value)
            } else {
                None
            })
            &&& edit.para_spacing == (if let GroupChange::ParaSpacing(value) = change {
                Some(value)
            } else {
                None
            })
            &&& edit.align == (if let GroupChange::Align(align) = change {
                align
            } else {
                target.align
            })
            &&& !(change is Leading) ==> edit.line_height == target.line_height
            &&& change matches GroupChange::Leading(factor) ==> edit.line_height is Some
                && exists|same: MultiTarget|
                #![trigger targets.contains(same)]
                {
                    let size = if same.size > POINT {
                        same.size
                    } else {
                        POINT
                    };
                    let leading = edit.line_height->0;
                    &&& targets.contains(same)
                    &&& same.page == target.page
                    &&& same.bbox == target.bbox
                    &&& leading * POINT <= size * factor < leading * POINT + POINT
                }
        }),
{
    let cells = cells_of(block_runs(block.lines@, block.dominant.color));
    let shown = match change {
        GroupChange::Restyle(style) => style.applied_to(cells),
        _ => cells,
    };
    lemma_tidied(shown);
    lemma_read_spans(
        spans_of(tidied(shown), block.dominant.family@),
        tidied(shown),
    );
    assert(chars_of(shown) == chars_of(cells));
    let i = choose|i: int| 0 <= i < targets.len() && targets[i] == target;
    lemma_last_target(targets, target.page, target.bbox, i);
    let same = last_target(targets, target.page, target.bbox)->0;
    if let GroupChange::Leading(factor) = change {
        let k = choose|k: int| 0 <= k < targets.len() && targets[k] == same;
        assert(i64::MIN <= leading_of(targets[k].size, factor) <= i64::MAX);
        assert(targets.contains(same));
    }
}

/// A style that is given to a group is had by every piece of every block.
pub proof fn a_group_style_reaches_every_piece(
    targets: Seq<MultiTarget>,
    target: MultiTarget,
    block: Block,
    style: StyleChange,
    i: int,
)
    requires
        0 <= i < group_rewrite(targets, target, block, GroupChange::Restyle(style)).spans.len(),
    ensures
        ({
            let span = group_rewrite(
                targets,
                target,
                block,
                GroupChange::Restyle(style),
            ).spans[i];
            &&& style.size is Some ==> span.size == style.size
            &&& style.color is Some ==> span.color == style.color
            &&& style.bold is Some ==> span.bold == style.bold->0
            &&& style.italic is Some ==> span.italic == style.italic->0
            &&& style.underline is Some ==> span.underline == style.underline->0
            &&& style.family is Some ==> span.font is Some && span.font->0.family
                == style.family->0@
            &&& style.script is Some && style.script->0 != Script::Baseline ==> span.script
                == style.script->0
        }),
{
    let cells = cells_of(block_runs(block.lines@, block.dominant.color));
    let shown = style.applied_to(cells);
    lemma_tidied(shown);
    let runs = tidied(shown);
    assert(runs[i].text.len() > 0);
    let k = lemma_style_of_run(runs, i);
    assert(shown[k].1 == style.applied(cells[k].1));
}

/// Every block of a group that is known is set anew, and nothing else is.
pub proof fn a_group_change_reaches_every_block(
    targets: Seq<MultiTarget>,
    pages: Seq<PageBlocks>,
    change: GroupChange,
    count: int,
    i: int,
)
    requires
        0 <= i < count <= targets.len(),
    ensures
        group_rewrites(targets, pages, change, count).len() <= count,
        block_at(pages, targets[i].page, targets[i].bbox) matches Some(block) ==> group_rewrites(
            targets,
            pages,
            change,
            count,
        ).contains(EditView::Rewrite(group_rewrite(targets, targets[i], block, change))),
        (forall|k: int|
            0 <= k < count ==> block_at(pages, (#[trigger] targets[k]).page, targets[k].bbox)
                is Some) ==> group_rewrites(targets, pages, change, count).len() == count,
    decreases count,
{
    let before = group_rewrites(targets, pages, change, count - 1);
    let all = group_rewrites(targets, pages, change, count);
    let target = targets[count - 1];
    if count > 1 {
        a_group_change_reaches_every_block(
            targets,
            pages,
            change,
            count - 1,
            if i < count - 1 {
                i
            } else {
                0
            },
        );
    }
    if let Some(block) = block_at(pages, targets[i].page, targets[i].bbox) {
        let edit = EditView::Rewrite(group_rewrite(targets, targets[i], block, change));
        if i < count - 1 {
            let k = choose|k: int| 0 <= k < before.len() && before[k] == edit;
            assert(all[k] == edit);
        } else {
            assert(all[all.len() - 1] == edit);
        }
    }
}

/// The turn that a block has on its page.
pub open spec fn turn_of(pages: Seq<PageBlocks>, target: MultiTarget) -> i64 {
    match block_at(pages, target.page, target.bbox) {
        Some(block) => block.rotation,
        None => 0,
    }
}

/// A block of a group put somewhere else.
pub open spec fn moved_edit(
    pages: Seq<PageBlocks>,
    target: MultiTarget,
    to: Rect,
    color: Option<Color>,
) -> EditView {
    EditView::Transform(
        BlockTransform {
            page_number: (target.page + 1) as u32,
            bbox: target.bbox,
            target: to,
            rotation: turn_of(pages, target),
            color,
            owner: target.owner,
        },
    )
}

/// A block of a group put somewhere else.
fn move_edit(pages: &Vec<PageBlocks>, target: &MultiTarget, to: Rect, color: Option<Color>) -> (r:
    BlockEdit)
    requires
        target.page < u32::MAX,
    ensures
        r@ == moved_edit(pages@, *target, to, color),
{
    let rotation: i64 = match find_block(pages, target.page, target.bbox) {
        Some(block) => block.rotation,
        None => 0,
    };
    BlockEdit::Transform(
        BlockTransform {
            page_number: target.page + 1,
            bbox: target.bbox,
            target: to,
            rotation,
            color,
            owner: target.owner,
        },
    )
}

/// A block of a group that is put somewhere else is taken where it stands, goes
/// there as it is turned, and gets a colour where one is given.
pub proof fn a_block_goes_where_it_is_put(
    pages: Seq<PageBlocks>,
    target: MultiTarget,
    dx: int,
    dy: int,
    color: Option<Color>,
)
    requires
        target.page < u32::MAX,
        target.bbox.is_near(),
        -crate::geometry::LIMIT <= dx <= crate::geometry::LIMIT,
        -crate::geometry::LIMIT <= dy <= crate::geometry::LIMIT,
    ensures
        ({
            let edit = moved_edit(pages, target, shifted(target.bbox, dx, dy), color);
            let to = edit->Transform_0;
            &&& edit is Transform
            &&& to.page_number == target.page + 1
            &&& to.bbox == target.bbox
            &&& to.owner == target.owner
            &&& to.color == color
            &&& to.target.left == target.bbox.left + dx
            &&& to.target.right == target.bbox.right + dx
            &&& to.target.top == target.bbox.top + dy
            &&& to.target.bottom == target.bbox.bottom + dy
            &&& block_at(pages, target.page, target.bbox) matches Some(block) ==> to.rotation
                == block.rotation
            &&& block_at(pages, target.page, target.bbox) is None ==> to.rotation == 0
        }),
{
}

/// Whether the pages of a group can be counted from one.
pub open spec fn pages_fit(targets: Seq<MultiTarget>) -> bool {
    forall|i: int| 0 <= i < targets.len() ==> (#[trigger] targets[i]).page < u32::MAX
}

/// Whether the frames of a group lie on their pages.
pub open spec fn frames_fit(targets: Seq<MultiTarget>) -> bool {
    forall|i: int| 0 <= i < targets.len() ==> (#[trigger] targets[i]).bbox.is_near()
}

/// Gives every block of a group a colour, without setting it anew.
pub fn recolor_group(targets: &Vec<MultiTarget>, pages: &Vec<PageBlocks>, color: Color) -> (r: Vec<
    BlockEdit,
>)
    requires
        pages_fit(targets@),
    ensures
        edit_views(r@) == Seq::new(
            targets@.len(),
            |i: int| moved_edit(pages@, targets@[i], targets@[i].bbox, Some(color)),
        ),
{
    let mut edits: Vec<BlockEdit> = Vec::new();
    let mut i: usize = 0;
    while i < targets.len()
        invariant
            pages_fit(targets@),
            i <= targets@.len(),
            edits@.len() == i,
            forall|k: int|
                0 <= k < i ==> (#[trigger] edits@[k])@ == moved_edit(
                    pages@,
                    targets@[k],
                    targets@[k].bbox,
                    Some(color),
                ),
        decreases targets@.len() - i,
    {
        assert(targets@[i as int].page < u32::MAX);
        edits.push(move_edit(pages, &targets[i], targets[i].bbox, Some(color)));
        i = i + 1;
    }
    edits
}

/// Takes every block of a group off its page.
pub fn erase_group(targets: &Vec<MultiTarget>) -> (r: Vec<BlockEdit>)
    requires
        pages_fit(targets@),
    ensures
        edit_views(r@) == Seq::new(
            targets@.len(),
            |i: int|
                EditView::Erase(
                    BlockErase {
                        page_number: (targets@[i].page + 1) as u32,
                        bbox: targets@[i].bbox,
                        owner: targets@[i].owner,
                    },
                ),
        ),
        r@.len() == targets@.len(),
        forall|i: int|
            0 <= i < r@.len() ==> {
                let erase = (#[trigger] r@[i])@->Erase_0;
                &&& r@[i]@ is Erase
                &&& erase.page_number - 1 == targets@[i].page
                &&& erase.bbox == targets@[i].bbox
                &&& erase.owner == targets@[i].owner
            },
{
    let mut edits: Vec<BlockEdit> = Vec::new();
    let mut i: usize = 0;
    while i < targets.len()
        invariant
            pages_fit(targets@),
            i <= targets@.len(),
            edits@.len() == i,
            forall|k: int|
                0 <= k < i ==> (#[trigger] edits@[k])@ == EditView::Erase(
                    BlockErase {
                        page_number: (targets@[k].page + 1) as u32,
                        bbox: targets@[k].bbox,
                        owner: targets@[k].owner,
                    },
                ),
        decreases targets@.len() - i,
    {
        assert(targets@[i as int].page < u32::MAX);
        edits.push(
            BlockEdit::Erase(
                BlockErase {
                    page_number: targets[i].page + 1,
                    bbox: targets[i].bbox,
                    owner: targets[i].owner,
                },
            ),
        );
        i = i + 1;
    }
    edits
}

/// A rectangle moved as a whole.
pub open spec fn shifted(r: Rect, dx: int, dy: int) -> Rect {
    Rect {
        left: (r.left + dx) as i64,
        bottom: (r.bottom + dy) as i64,
        right: (r.right + dx) as i64,
        top: (r.top + dy) as i64,
    }
}

/// Moves a group, `dy` upwards. A shift of less than half a point either way
/// is none.
pub fn shift_group(
    targets: &Vec<MultiTarget>,
    pages: &Vec<PageBlocks>,
    dx: Points,
    dy: Points,
) -> (r: Vec<BlockEdit>)
    requires
        pages_fit(targets@),
        frames_fit(targets@),
        sane(dx),
        sane(dy),
    ensures
        2 * abs_of(dx as int) < POINT && 2 * abs_of(dy as int) < POINT ==> r@.len() == 0,
        2 * abs_of(dx as int) >= POINT || 2 * abs_of(dy as int) >= POINT ==> edit_views(r@)
            == Seq::new(
            targets@.len(),
            |i: int|
                moved_edit(
                    pages@,
                    targets@[i],
                    shifted(targets@[i].bbox, dx as int, dy as int),
                    None,
                ),
        ),
{
    let mut edits: Vec<BlockEdit> = Vec::new();
    let least: Points = POINT / 2;
    if -least < dx && dx < least && -least < dy && dy < least {
        return edits;
    }
    let mut i: usize = 0;
    while i < targets.len()
        invariant
            pages_fit(targets@),
            frames_fit(targets@),
            sane(dx),
            sane(dy),
            i <= targets@.len(),
            edits@.len() == i,
            forall|k: int|
                0 <= k < i ==> (#[trigger] edits@[k])@ == moved_edit(
                    pages@,
                    targets@[k],
                    shifted(targets@[k].bbox, dx as int, dy as int),
                    None,
                ),
        decreases targets@.len() - i,
    {
        assert(targets@[i as int].page < u32::MAX);
        assert(targets@[i as int].bbox.is_near());
        let to = targets[i].bbox.shifted(dx, dy);
        edits.push(move_edit(pages, &targets[i], to, None));
        i = i + 1;
    }
    edits
}

/// The smallest rectangle around the first `count` blocks of a group.
pub open spec fn hull_of(targets: Seq<MultiTarget>, count: int) -> Rect
    decreases count,
{
    if count <= 1 {
        targets[0].bbox
    } else {
        hull_of(targets, count - 1).hull(targets[count - 1].bbox)
    }
}

/// The smallest rectangle around a group.
pub(crate) fn union_of(targets: &Vec<MultiTarget>) -> (r: Rect)
    requires
        targets@.len() > 0,
        frames_fit(targets@),
    ensures
        r == hull_of(targets@, targets@.len() as int),
        r.is_near(),
{
    let mut frame = targets[0].bbox;
    let mut i: usize = 1;
    assert(targets@[0].bbox.is_near());
    while i < targets.len()
        invariant
            1 <= i <= targets@.len(),
            frames_fit(targets@),
            frame == hull_of(targets@, i as int),
            frame.is_near(),
        decreases targets@.len() - i,
    {
        assert(targets@[i as int].bbox.is_near());
        frame = frame.union(&targets[i].bbox);
        i = i + 1;
    }
    frame
}

/// The frame of a group is the smallest around its blocks: it holds every one of
/// them, and each of its edges is that of one.
pub proof fn the_frame_of_a_group_is_the_smallest(targets: Seq<MultiTarget>, count: int, i: int)
    requires
        0 <= i < count <= targets.len(),
    ensures
        ({
            let frame = hull_of(targets, count);
            let b = targets[i].bbox;
            &&& frame.left <= b.left
            &&& frame.bottom <= b.bottom
            &&& b.right <= frame.right
            &&& b.top <= frame.top
            &&& exists|k: int| 0 <= k < count && (#[trigger] targets[k]).bbox.left == frame.left
            &&& exists|k: int|
                0 <= k < count && (#[trigger] targets[k]).bbox.bottom == frame.bottom
            &&& exists|k: int| 0 <= k < count && (#[trigger] targets[k]).bbox.right == frame.right
            &&& exists|k: int| 0 <= k < count && (#[trigger] targets[k]).bbox.top == frame.top
        }),
    decreases count,
{
    if count == 1 {
        assert(targets[0].bbox == hull_of(targets, 1));
    } else {
        the_frame_of_a_group_is_the_smallest(
            targets,
            count - 1,
            if i < count - 1 {
                i
            } else {
                0
            },
        );
        let before = hull_of(targets, count - 1);
        let frame = hull_of(targets, count);
        let b = targets[count - 1].bbox;
        assert(frame.left == before.left || frame.left == b.left);
        assert(frame.bottom == before.bottom || frame.bottom == b.bottom);
        assert(frame.right == before.right || frame.right == b.right);
        assert(frame.top == before.top || frame.top == b.top);
        let l = choose|k: int|
            0 <= k < count - 1 && (#[trigger] targets[k]).bbox.left == before.left;
        let o = choose|k: int|
            0 <= k < count - 1 && (#[trigger] targets[k]).bbox.bottom == before.bottom;
        let r = choose|k: int|
            0 <= k < count - 1 && (#[trigger] targets[k]).bbox.right == before.right;
        let t = choose|k: int| 0 <= k < count - 1 && (#[trigger] targets[k]).bbox.top == before.top;
        assert(targets[l].bbox.left == before.left && targets[o].bbox.bottom == before.bottom);
        assert(targets[r].bbox.right == before.right && targets[t].bbox.top == before.top);
    }
}

/// What the blocks of a group are lined up by.
#[derive(Clone, Copy, Debug, PartialEq, Eq, Structural)]
pub enum LineUp {
    Lefts,
    CentresAcross,
    Rights,
    Tops,
    CentresAlong,
    Bottoms,
}

/// How far a block has to go to be level with its group.
pub open spec fn level(mode: LineUp, frame: Rect, b: Rect) -> (int, int) {
    match mode {
        LineUp::Lefts => (frame.left - b.left, 0),
        LineUp::CentresAcross => ((frame.left + frame.right - b.left - b.right) / 2, 0),
        LineUp::Rights => (frame.right - b.right, 0),
        LineUp::Tops => (0, frame.top - b.top),
        LineUp::CentresAlong => (0, (frame.top + frame.bottom - b.top - b.bottom) / 2),
        LineUp::Bottoms => (0, frame.bottom - b.bottom),
    }
}

/// Whether a shift is too small to be seen: less than a hundredth of a point.
pub open spec fn unseen(dx: int, dy: int) -> bool {
    100 * abs_of(dx) < POINT && 100 * abs_of(dy) < POINT
}

/// The moves that line up the first `count` blocks of a group.
pub open spec fn line_ups(
    targets: Seq<MultiTarget>,
    pages: Seq<PageBlocks>,
    mode: LineUp,
    frame: Rect,
    count: int,
) -> Seq<EditView>
    decreases count,
{
    if count <= 0 {
        Seq::empty()
    } else {
        let before = line_ups(targets, pages, mode, frame, count - 1);
        let target = targets[count - 1];
        let (dx, dy) = level(mode, frame, target.bbox);
        if unseen(dx, dy) {
            before
        } else {
            before.push(moved_edit(pages, target, shifted(target.bbox, dx, dy), None))
        }
    }
}

/// Lines the blocks of a group up by their common frame. One block alone is
/// left where it is.
pub fn line_up_group(targets: &Vec<MultiTarget>, pages: &Vec<PageBlocks>, mode: LineUp) -> (r: Vec<
    BlockEdit,
>)
    requires
        pages_fit(targets@),
        frames_fit(targets@),
    ensures
        targets@.len() < 2 ==> r@.len() == 0,
        targets@.len() >= 2 ==> edit_views(r@) == line_ups(
            targets@,
            pages@,
            mode,
            hull_of(targets@, targets@.len() as int),
            targets@.len() as int,
        ),
{
    let mut edits: Vec<BlockEdit> = Vec::new();
    if targets.len() < 2 {
        return edits;
    }
    let frame = union_of(targets);
    let mut i: usize = 0;
    while i < targets.len()
        invariant
            pages_fit(targets@),
            frames_fit(targets@),
            frame.is_near(),
            i <= targets@.len(),
            edit_views(edits@) == line_ups(targets@, pages@, mode, frame, i as int),
        decreases targets@.len() - i,
    {
        let b = targets[i].bbox;
        assert(targets@[i as int].page < u32::MAX);
        assert(targets@[i as int].bbox.is_near());
        let (dx, dy): (i64, i64) = match mode {
            LineUp::Lefts => (frame.left - b.left, 0),
            LineUp::CentresAcross => (half(frame.left + frame.right - b.left - b.right), 0),
            LineUp::Rights => (frame.right - b.right, 0),
            LineUp::Tops => (0, frame.top - b.top),
            LineUp::CentresAlong => (0, half(frame.top + frame.bottom - b.top - b.bottom)),
            LineUp::Bottoms => (0, frame.bottom - b.bottom),
        };
        assert((dx as int, dy as int) == level(mode, frame, b));
        let ghost before = edit_views(edits@);
        let small = 100 * dx < POINT && 100 * dx > -POINT && 100 * dy < POINT && 100 * dy > -POINT;
        if !small {
            let edit = move_edit(pages, &targets[i], b.shifted(dx, dy), None);
            edits.push(edit);
            assert(edit_views(edits@) == before.push(edit@));
        }
        i = i + 1;
    }
    edits
}

/// A block that was lined up is level with its group: its edge is where the
/// group's is, and its middle is, but for half of the smallest length.
pub proof fn lined_up_edges_meet(mode: LineUp, frame: Rect, b: Rect)
    requires
        frame.is_near(),
        b.is_near(),
    ensures
        ({
            let (dx, dy) = level(mode, frame, b);
            let to = shifted(b, dx, dy);
            &&& mode == LineUp::Lefts ==> to.left == frame.left
            &&& mode == LineUp::Rights ==> to.right == frame.right
            &&& mode == LineUp::Tops ==> to.top == frame.top
            &&& mode == LineUp::Bottoms ==> to.bottom == frame.bottom
            &&& mode == LineUp::CentresAcross ==> 0 <= (frame.left + frame.right) - (to.left
                + to.right) <= 1
            &&& mode == LineUp::CentresAlong ==> 0 <= (frame.top + frame.bottom) - (to.top
                + to.bottom) <= 1
            &&& to.right - to.left == b.right - b.left
            &&& to.top - to.bottom == b.top - b.bottom
        }),
{
}

/// Whether a block is level with a frame: an edge is where that of the frame is, or
/// its middle is, but for half of the smallest length.
pub open spec fn is_level(mode: LineUp, frame: Rect, b: Rect) -> bool {
    match mode {
        LineUp::Lefts => b.left == frame.left,
        LineUp::CentresAcross => 0 <= (frame.left + frame.right) - (b.left + b.right) <= 1,
        LineUp::Rights => b.right == frame.right,
        LineUp::Tops => b.top == frame.top,
        LineUp::CentresAlong => 0 <= (frame.top + frame.bottom) - (b.top + b.bottom) <= 1,
        LineUp::Bottoms => b.bottom == frame.bottom,
    }
}

/// Every block of a group is level with it after it was lined up: one that was not,
/// to a hundredth of a point, is moved, along one axis, and no other is.
pub proof fn lining_up_makes_every_block_level(
    targets: Seq<MultiTarget>,
    pages: Seq<PageBlocks>,
    mode: LineUp,
    frame: Rect,
    count: int,
    i: int,
)
    requires
        0 <= i < count <= targets.len(),
        pages_fit(targets),
        frames_fit(targets),
        frame.is_near(),
    ensures
        ({
            let edits = line_ups(targets, pages, mode, frame, count);
            let across = mode == LineUp::Lefts || mode == LineUp::CentresAcross || mode
                == LineUp::Rights;
            let b = targets[i].bbox;
            let near = |a: int, c: int| -POINT < 100 * (a - c) < POINT;
            ||| mode == LineUp::Lefts && near(b.left as int, frame.left as int)
            ||| mode == LineUp::Rights && near(b.right as int, frame.right as int)
            ||| mode == LineUp::Tops && near(b.top as int, frame.top as int)
            ||| mode == LineUp::Bottoms && near(b.bottom as int, frame.bottom as int)
            ||| mode == LineUp::CentresAcross && -2 * POINT < 100 * ((frame.left + frame.right) - (
            b.left + b.right)) < 2 * POINT + 100
            ||| mode == LineUp::CentresAlong && -2 * POINT < 100 * ((frame.top + frame.bottom) - (
            b.top + b.bottom)) < 2 * POINT + 100
            ||| exists|k: int|
                0 <= k < edits.len() && (#[trigger] edits[k]) is Transform && {
                    let edit = edits[k]->Transform_0;
                    &&& edit.page_number == targets[i].page + 1
                    &&& edit.bbox == b
                    &&& is_level(mode, frame, edit.target)
                    &&& edit.target.right - edit.target.left == b.right - b.left
                    &&& edit.target.top - edit.target.bottom == b.top - b.bottom
                    &&& across ==> edit.target.top == b.top
                    &&& !across ==> edit.target.left == b.left
                }
        }),
{
    let all = line_ups(targets, pages, mode, frame, count);
    let b = targets[i].bbox;
    assert(b.is_near());
    assert(targets[i].page < u32::MAX);
    let (dx, dy) = level(mode, frame, b);
    if !unseen(dx, dy) {
        lemma_lined_up(targets, pages, mode, frame, count, i);
        lined_up_edges_meet(mode, frame, b);
        let edit = moved_edit(pages, targets[i], shifted(b, dx, dy), None);
        let k = choose|k: int| 0 <= k < all.len() && all[k] == edit;
        assert(all[k] is Transform);
    }
}

proof fn lemma_lined_up(
    targets: Seq<MultiTarget>,
    pages: Seq<PageBlocks>,
    mode: LineUp,
    frame: Rect,
    count: int,
    i: int,
)
    requires
        0 <= i < count <= targets.len(),
        !unseen(
            level(mode, frame, targets[i].bbox).0,
            level(mode, frame, targets[i].bbox).1,
        ),
    ensures
        ({
            let (dx, dy) = level(mode, frame, targets[i].bbox);
            line_ups(targets, pages, mode, frame, count).contains(
                moved_edit(pages, targets[i], shifted(targets[i].bbox, dx, dy), None),
            )
        }),
    decreases count,
{
    let before = line_ups(targets, pages, mode, frame, count - 1);
    let all = line_ups(targets, pages, mode, frame, count);
    let (dx, dy) = level(mode, frame, targets[i].bbox);
    let edit = moved_edit(pages, targets[i], shifted(targets[i].bbox, dx, dy), None);
    if i < count - 1 {
        lemma_lined_up(targets, pages, mode, frame, count - 1, i);
        let k = choose|k: int| 0 <= k < before.len() && before[k] == edit;
        assert(all[k] == edit);
    } else {
        assert(all[all.len() - 1] == edit);
    }
}

/// The size that all blocks of a group show, if it is one.
pub open spec fn common_size(targets: Seq<MultiTarget>) -> Option<int> {
    if targets.len() > 0 && forall|i: int|
        0 <= i < targets.len() ==> crate::block_model::shown_size((#[trigger] targets[i]).size)
            == crate::block_model::shown_size(targets[0].size) {
        Some(crate::block_model::shown_size(targets[0].size))
    } else {
        None
    }
}

/// The size that all blocks of a group show; none where they differ.
pub fn shared_size(targets: &Vec<MultiTarget>) -> (r: Option<Points>)
    requires
        forall|i: int|
            0 <= i < targets@.len() ==> -crate::block_model::READABLE <= (#[trigger] targets@[i]).size
                <= crate::block_model::READABLE,
    ensures
        match r {
            Some(size) => common_size(targets@) == Some(size as int),
            None => common_size(targets@) is None,
        },
{
    if targets.len() == 0 {
        return None;
    }
    assert(-crate::block_model::READABLE <= targets@[0].size <= crate::block_model::READABLE);
    let first: Points = crate::block_model::seeded_size(targets[0].size);
    let mut i: usize = 1;
    while i < targets.len()
        invariant
            1 <= i <= targets@.len(),
            first == crate::block_model::shown_size(targets@[0].size),
            forall|k: int|
                0 <= k < targets@.len() ==> -crate::block_model::READABLE <= (
                #[trigger] targets@[k]).size <= crate::block_model::READABLE,
            forall|k: int|
                0 <= k < i ==> crate::block_model::shown_size((#[trigger] targets@[k]).size)
                    == first,
        decreases targets@.len() - i,
    {
        assert(-crate::block_model::READABLE <= targets@[i as int].size
            <= crate::block_model::READABLE);
        if crate::block_model::seeded_size(targets[i].size) != first {
            return None;
        }
        i = i + 1;
    }
    Some(first)
}

/// The alignment of all blocks of a group, if it is one.
pub open spec fn common_align(targets: Seq<MultiTarget>) -> Option<Align> {
    if targets.len() > 0 && forall|i: int|
        0 <= i < targets.len() ==> (#[trigger] targets[i]).align == targets[0].align {
        Some(targets[0].align)
    } else {
        None
    }
}

/// The alignment of all blocks of a group; none where they differ.
pub fn shared_align(targets: &Vec<MultiTarget>) -> (r: Option<Align>)
    ensures
        r == common_align(targets@),
{
    if targets.len() == 0 {
        return None;
    }
    let first = targets[0].align;
    let mut i: usize = 1;
    while i < targets.len()
        invariant
            1 <= i <= targets@.len(),
            first == targets@[0].align,
            forall|k: int| 0 <= k < i ==> (#[trigger] targets@[k]).align == first,
        decreases targets@.len() - i,
    {
        if targets[i].align != first {
            return None;
        }
        i = i + 1;
    }
    Some(first)
}

/// What the panel shows of a group is what all its blocks have: a size or an alignment
/// is shown where every block has it, and none where two differ.
pub proof fn a_group_shows_what_all_blocks_have(targets: Seq<MultiTarget>, i: int, j: int)
    requires
        0 <= i < targets.len(),
        0 <= j < targets.len(),
    ensures
        common_align(targets) is Some ==> common_align(targets) == Some(targets[i].align),
        targets[i].align != targets[j].align ==> common_align(targets) is None,
        (forall|k: int| 0 <= k < targets.len() ==> (#[trigger] targets[k]).align == targets[i].align)
            ==> common_align(targets) is Some,
        common_size(targets) is Some ==> common_size(targets) == Some(
            crate::block_model::shown_size(targets[i].size),
        ),
        crate::block_model::shown_size(targets[i].size) != crate::block_model::shown_size(
            targets[j].size,
        ) ==> common_size(targets) is None,
        (forall|k: int| 0 <= k < targets.len() ==> (#[trigger] targets[k]).size == targets[i].size)
            ==> common_size(targets) is Some,
{
}

} // verus!
