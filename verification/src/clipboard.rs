//! Copying blocks and pasting them, on the same page, on another one or in
//! another document.
use crate::block_model::{block_runs, model_from_block};
use crate::chars::byte_len;
use crate::document::{
    edit_views, opt_chars, plain_request, read_spans, span_views, Align, Block, BlockEdit,
    BlockRewrite, EditView, FontRequest, RewriteView, Script, SpanView, StyledSpan,
};
use crate::edits::Selection;
use crate::geometry::Rect;
use crate::group::{
    block_at, find_block, group_fits, make_target, shifted, target_of, MultiTarget, PageBlocks,
};
use crate::numerals::{decimal, decimal_text};
use crate::paths::{same_way, way};
use crate::rich_text::{
    cells_of, chars_of, lemma_read_spans, lemma_tidied, run_views, span_of, spans_of, tidied,
    valid_runs_are_tidied, RichText, Run, RunView,
};
use crate::units::{Points, POINT};
use vstd::prelude::*;

verus! {

/// All that is needed to lay out a copy of a block.
#[derive(Debug)]
pub struct CopiedBlock {
    pub runs: Vec<Run>,
    pub bbox: Rect,
    pub line_height: Option<Points>,
    pub align: Align,
    pub rotation: i64,
    pub base_family: String,
    pub page: u32,
}

/// What a [`CopiedBlock`] says.
#[verifier::ext_equal]
pub struct CopyView {
    pub runs: Seq<RunView>,
    pub bbox: Rect,
    pub line_height: Option<Points>,
    pub align: Align,
    pub rotation: i64,
    pub base_family: Seq<char>,
    pub page: u32,
}

impl View for CopiedBlock {
    type V = CopyView;

    open spec fn view(&self) -> CopyView {
        CopyView {
            runs: run_views(self.runs@),
            bbox: self.bbox,
            line_height: self.line_height,
            align: self.align,
            rotation: self.rotation,
            base_family: self.base_family@,
            page: self.page,
        }
    }
}

/// What a list of copies says.
pub open spec fn copy_views(blocks: Seq<CopiedBlock>) -> Seq<CopyView> {
    Seq::new(blocks.len(), |i: int| blocks[i]@)
}

/// A copy of runs.
fn copy_runs(runs: &[Run]) -> (r: Vec<Run>)
    ensures
        run_views(r@) == run_views(runs@),
{
    let mut out: Vec<Run> = Vec::new();
    let mut i: usize = 0;
    while i < runs.len()
        invariant
            i <= runs@.len(),
            out@.len() == i,
            forall|k: int| 0 <= k < i ==> #[trigger] out@[k] == runs@[k],
        decreases runs@.len() - i,
    {
        out.push(runs[i].clone());
        i = i + 1;
    }
    out
}

impl Clone for CopiedBlock {
    fn clone(&self) -> (r: CopiedBlock)
        ensures
            r@ == self@,
    {
        CopiedBlock {
            runs: copy_runs(self.runs.as_slice()),
            bbox: self.bbox,
            line_height: self.line_height,
            align: self.align,
            rotation: self.rotation,
            base_family: self.base_family.clone(),
            page: self.page,
        }
    }
}

/// The copied blocks, one list for the whole program, with the document that
/// they come from.
#[derive(Debug)]
pub struct Clipboard {
    source: Option<String>,
    blocks: Vec<CopiedBlock>,
}

/// What a [`Clipboard`] holds.
#[verifier::ext_equal]
pub struct ClipboardView {
    pub source: Option<Seq<char>>,
    pub blocks: Seq<CopyView>,
}

impl View for Clipboard {
    type V = ClipboardView;

    closed spec fn view(&self) -> ClipboardView {
        ClipboardView { source: opt_chars(self.source), blocks: copy_views(self.blocks@) }
    }
}

impl Default for Clipboard {
    fn default() -> (r: Clipboard)
        ensures
            r@ == (ClipboardView { source: None, blocks: Seq::empty() }),
    {
        Clipboard { source: None, blocks: Vec::new() }
    }
}

impl Clipboard {
    /// Puts blocks of a document in.
    pub fn store(&mut self, source: &str, blocks: Vec<CopiedBlock>)
        ensures
            final(self)@ == (ClipboardView {
                source: Some(source@),
                blocks: copy_views(blocks@),
            }),
    {
        self.source = Some(source.to_owned());
        self.blocks = blocks;
    }

    /// The blocks, and whether they were copied in this very document.
    pub fn take(&self, current: &str) -> (r: (bool, Vec<CopiedBlock>))
        ensures
            r.0 == (self@.source matches Some(source) && way(source) == way(current@)),
            copy_views(r.1@) == self@.blocks,
    {
        let same = match &self.source {
            Some(source) => same_way(source.as_str(), current),
            None => false,
        };
        let mut out: Vec<CopiedBlock> = Vec::new();
        let mut i: usize = 0;
        while i < self.blocks.len()
            invariant
                i <= self.blocks@.len(),
                out@.len() == i,
                forall|k: int| 0 <= k < i ==> (#[trigger] out@[k])@ == self.blocks@[k]@,
            decreases self.blocks@.len() - i,
        {
            out.push(self.blocks[i].clone());
            i = i + 1;
        }
        assert(copy_views(out@) == self@.blocks);
        (same, out)
    }

    /// Whether there is nothing to paste.
    pub fn clipboard_is_empty(&self) -> (r: bool)
        ensures
            r == (self@.blocks.len() == 0),
    {
        self.blocks.len() == 0
    }
}

/// The copies of the first `count` blocks of a group. Blocks that are not known
/// are passed over.
pub open spec fn copies(
    targets: Seq<MultiTarget>,
    pages: Seq<PageBlocks>,
    count: int,
) -> Seq<CopyView>
    decreases count,
{
    if count <= 0 {
        Seq::empty()
    } else {
        let before = copies(targets, pages, count - 1);
        let target = targets[count - 1];
        match block_at(pages, target.page, target.bbox) {
            Some(block) => before.push(
                CopyView {
                    runs: tidied(cells_of(block_runs(block.lines@, block.dominant.color))),
                    bbox: block.bbox,
                    line_height: block.leading,
                    align: block.align,
                    rotation: block.rotation,
                    base_family: block.dominant.family@,
                    page: target.page,
                },
            ),
            None => before,
        }
    }
}

/// Copies the blocks of a group as they stand on their pages.
pub fn copy_group(targets: &Vec<MultiTarget>, pages: &Vec<PageBlocks>) -> (r: Vec<CopiedBlock>)
    requires
        group_fits(targets@, pages@),
    ensures
        copy_views(r@) == copies(targets@, pages@, targets@.len() as int),
{
    let mut out: Vec<CopiedBlock> = Vec::new();
    let mut i: usize = 0;
    while i < targets.len()
        invariant
            group_fits(targets@, pages@),
            i <= targets@.len(),
            copy_views(out@) == copies(targets@, pages@, i as int),
        decreases targets@.len() - i,
    {
        let target = targets[i];
        assert(targets@[i as int].page < u32::MAX);
        let ghost before = copy_views(out@);
        if let Some(block) = find_block(pages, target.page, target.bbox) {
            let text = model_from_block(block, block.dominant.color);
            proof {
                valid_runs_are_tidied(text@);
            }
            let copy = CopiedBlock {
                runs: copy_runs(text.runs()),
                bbox: block.bbox,
                line_height: block.leading,
                align: block.align,
                rotation: block.rotation,
                base_family: block.dominant.family.clone(),
                page: target.page,
            };
            out.push(copy);
            assert(copy_views(out@) == before.push(copy@));
        }
        i = i + 1;
    }
    out
}

/// Copies the block that is being edited, as it looks now.
pub fn copy_selection(selection: &Selection, text: &RichText) -> (r: CopiedBlock)
    ensures
        r@ == (CopyView {
            runs: text@.runs,
            bbox: selection.frame,
            line_height: selection.line_height,
            align: selection.align,
            rotation: selection.rotation,
            base_family: selection.family@,
            page: selection.page,
        }),
{
    CopiedBlock {
        runs: copy_runs(text.runs()),
        bbox: selection.frame,
        line_height: selection.line_height,
        align: selection.align,
        rotation: selection.rotation,
        base_family: selection.family.clone(),
        page: selection.page,
    }
}

/// How far a copy is moved so that it does not cover its original.
pub const PASTE_SHIFT: i64 = 12 * 0x100_0000;

/// Whether something on the clipboard was copied on this very page.
pub open spec fn from_here(blocks: Seq<CopyView>, same_document: bool, page: u32) -> bool {
    same_document && exists|i: int| 0 <= i < blocks.len() && (#[trigger] blocks[i]).page == page
}

/// How far copies are moved to the right and down.
pub open spec fn paste_shift(blocks: Seq<CopyView>, same_document: bool, page: u32) -> int {
    if from_here(blocks, same_document, page) {
        PASTE_SHIFT as int
    } else {
        0
    }
}

/// Where a copy goes.
pub open spec fn paste_place(
    blocks: Seq<CopyView>,
    same_document: bool,
    page: u32,
    bbox: Rect,
) -> Rect {
    let shift = paste_shift(blocks, same_document, page);
    shifted(bbox, shift, -shift)
}

/// The span of a run of a copy.
///
/// The fonts of a page are known by name on that page only. Anywhere else the
/// font is asked for by the name of its family.
pub open spec fn pasted_span(run: RunView, base: Seq<char>, at_home: bool) -> SpanView {
    let span = span_of(run, base);
    if at_home || span.font is Some {
        span
    } else {
        let family = match run.style.document_family {
            Some(family) => family,
            None => base,
        };
        SpanView {
            font: Some(plain_request(family, span.bold, span.italic)),
            page_family: None,
            ..span
        }
    }
}

/// The edit that lays out a copy.
pub open spec fn paste_edit(
    blocks: Seq<CopyView>,
    same_document: bool,
    page: u32,
    block: CopyView,
) -> EditView {
    let to = paste_place(blocks, same_document, page, block.bbox);
    let runs = tidied(cells_of(block.runs));
    let at_home = same_document && block.page == page;
    EditView::Rewrite(
        RewriteView {
            page_number: (page + 1) as u32,
            bbox: to,
            target: Some(to),
            spans: Seq::new(
                runs.len(),
                |i: int| pasted_span(runs[i], block.base_family, at_home),
            ),
            align: block.align,
            line_height: block.line_height,
            rotation: block.rotation,
            create: true,
            owner: None,
            char_spacing: None,
            h_scale: None,
            para_spacing: None,
            fill: None,
            style_id: None,
        },
    )
}

/// Whether copies can be laid out.
pub open spec fn paste_fits(blocks: Seq<CopyView>) -> bool {
    forall|i: int|
        0 <= i < blocks.len() ==> (#[trigger] blocks[i]).bbox.is_near() && byte_len(
            chars_of(cells_of(blocks[i].runs)),
        ) <= usize::MAX
}

/// Whether something on the clipboard was copied on this very page.
fn copied_here(blocks: &Vec<CopiedBlock>, same_document: bool, page: u32) -> (r: bool)
    ensures
        r == from_here(copy_views(blocks@), same_document, page),
{
    let ghost views = copy_views(blocks@);
    if !same_document {
        return false;
    }
    let mut i: usize = 0;
    while i < blocks.len()
        invariant
            same_document,
            i <= blocks@.len(),
            views == copy_views(blocks@),
            forall|k: int| 0 <= k < i ==> (#[trigger] views[k]).page != page,
        decreases blocks@.len() - i,
    {
        if blocks[i].page == page {
            assert(views[i as int].page == page);
            return true;
        }
        i = i + 1;
    }
    false
}

/// The spans of a copy.
fn pasted_spans(text: &RichText, base: &str, at_home: bool) -> (r: Vec<StyledSpan>)
    ensures
        span_views(r@) == Seq::new(
            text@.runs.len(),
            |i: int| pasted_span(text@.runs[i], base@, at_home),
        ),
{
    let runs = text.runs();
    let plain = text.to_spans(base);
    let mut out: Vec<StyledSpan> = Vec::new();
    let mut i: usize = 0;
    assert(span_views(plain@).len() == text@.runs.len());
    while i < runs.len()
        invariant
            run_views(runs@) == text@.runs,
            span_views(plain@) == spans_of(text@.runs, base@),
            plain@.len() == runs@.len(),
            i <= runs@.len(),
            out@.len() == i,
            forall|k: int|
                0 <= k < i ==> (#[trigger] out@[k])@ == pasted_span(text@.runs[k], base@, at_home),
        decreases runs@.len() - i,
    {
        assert(span_views(plain@)[i as int] == plain@[i as int]@);
        assert(text@.runs[i as int] == runs@[i as int]@);
        let mut span = plain[i].clone();
        if !at_home && span.font.is_none() {
            let family = match &runs[i].style.document_family {
                Some(family) => family.as_str(),
                None => base,
            };
            span.font = Some(FontRequest::new(family, span.bold, span.italic));
            span.page_family = None;
        }
        assert(span@ == pasted_span(text@.runs[i as int], base@, at_home));
        out.push(span);
        i = i + 1;
    }
    assert(span_views(out@) == Seq::new(
        text@.runs.len(),
        |i: int| pasted_span(text@.runs[i], base@, at_home),
    ));
    out
}

/// Lays out copies on a page: the edits, and where each copy is to be found.
///
/// On the page that they were copied from they are moved a little, so that
/// they do not cover their originals. They keep their places relative to each
/// other.
pub fn paste_blocks(blocks: &Vec<CopiedBlock>, same_document: bool, page: u32) -> (r: (
    Vec<BlockEdit>,
    Vec<Rect>,
))
    requires
        paste_fits(copy_views(blocks@)),
        page < u32::MAX,
    ensures
        ({
            let views = copy_views(blocks@);
            &&& edit_views(r.0@) == Seq::new(
                views.len(),
                |i: int| paste_edit(views, same_document, page, views[i]),
            )
            &&& r.1@ == Seq::new(
                views.len(),
                |i: int| paste_place(views, same_document, page, views[i].bbox),
            )
        }),
{
    let ghost views = copy_views(blocks@);
    let shift: Points = if copied_here(blocks, same_document, page) {
        PASTE_SHIFT
    } else {
        0
    };
    let mut edits: Vec<BlockEdit> = Vec::new();
    let mut places: Vec<Rect> = Vec::new();
    let mut i: usize = 0;
    while i < blocks.len()
        invariant
            i <= blocks@.len(),
            page < u32::MAX,
            views == copy_views(blocks@),
            paste_fits(views),
            shift == paste_shift(views, same_document, page),
            0 <= shift <= PASTE_SHIFT,
            edits@.len() == i,
            places@.len() == i,
            forall|k: int|
                0 <= k < i ==> (#[trigger] edits@[k])@ == paste_edit(
                    views,
                    same_document,
                    page,
                    views[k],
                ),
            forall|k: int|
                0 <= k < i ==> #[trigger] places@[k] == paste_place(
                    views,
                    same_document,
                    page,
                    views[k].bbox,
                ),
        decreases blocks@.len() - i,
    {
        let block = &blocks[i];
        assert(views[i as int] == block@);
        assert(views[i as int].bbox.is_near());
        let to = block.bbox.shifted(shift, -shift);
        assert(to == paste_place(views, same_document, page, block.bbox));
        let text = RichText::from_runs(copy_runs(block.runs.as_slice()));
        proof {
            valid_runs_are_tidied(text@);
        }
        let at_home = same_document && block.page == page;
        let edit = BlockRewrite {
            page_number: page + 1,
            bbox: to,
            target: Some(to),
            spans: pasted_spans(&text, block.base_family.as_str(), at_home),
            align: block.align,
            line_height: block.line_height,
            rotation: block.rotation,
            create: true,
            owner: None,
            char_spacing: None,
            h_scale: None,
            para_spacing: None,
            fill: None,
            style_id: None,
        };
        assert(edit@ == paste_edit(views, same_document, page, block@)->Rewrite_0);
        edits.push(BlockEdit::Rewrite(edit));
        places.push(to);
        i = i + 1;
    }
    (edits, places)
}

/// Every copy is laid on the page that is shown, as a new block: the page is counted
/// from one, the block stands at the place that is told for it, reads as the text
/// that was copied and is set as its original was.
pub proof fn copies_are_laid_on_the_page(
    blocks: Seq<CopyView>,
    same_document: bool,
    page: u32,
    i: int,
)
    requires
        page < u32::MAX,
        0 <= i < blocks.len(),
    ensures
        ({
            let edit = paste_edit(blocks, same_document, page, blocks[i]);
            let copy = edit->Rewrite_0;
            let place = paste_place(blocks, same_document, page, blocks[i].bbox);
            &&& edit is Rewrite
            &&& copy.page_number == page + 1
            &&& copy.target == Some(place)
            &&& copy.bbox == place
            &&& copy.create
            &&& read_spans(copy.spans) == chars_of(cells_of(blocks[i].runs))
            &&& copy.align == blocks[i].align
            &&& copy.line_height == blocks[i].line_height
            &&& copy.rotation == blocks[i].rotation
            &&& copy.owner is None
            &&& copy.style_id is None
        }),
{
    let runs = tidied(cells_of(blocks[i].runs));
    lemma_tidied(cells_of(blocks[i].runs));
    let edit = paste_edit(blocks, same_document, page, blocks[i])->Rewrite_0;
    assert forall|k: int| 0 <= k < runs.len() implies (#[trigger] edit.spans[k]).text
        == runs[k].text by {}
    lemma_read_spans(edit.spans, runs);
}

/// Copies stand where they stood; where any of them was copied on this very page,
/// all are moved by twelve points to the right and down.
pub proof fn copies_are_moved_off_their_originals(
    blocks: Seq<CopyView>,
    same_document: bool,
    page: u32,
    i: int,
)
    requires
        paste_fits(blocks),
        0 <= i < blocks.len(),
    ensures
        ({
            let place = paste_place(blocks, same_document, page, blocks[i].bbox);
            let here = same_document && exists|k: int|
                0 <= k < blocks.len() && (#[trigger] blocks[k]).page == page;
            let shift = if here {
                12 * POINT
            } else {
                0
            };
            &&& place.left == blocks[i].bbox.left + shift
            &&& place.right == blocks[i].bbox.right + shift
            &&& place.top == blocks[i].bbox.top - shift
            &&& place.bottom == blocks[i].bbox.bottom - shift
        }),
{
    assert(blocks[i].bbox.is_near());
}

/// The look of a copy is that of its runs. On the page of its original it keeps
/// the fonts of that page; anywhere else every piece asks for its family by name.
pub proof fn copies_keep_their_look(
    blocks: Seq<CopyView>,
    same_document: bool,
    page: u32,
    i: int,
    k: int,
)
    requires
        0 <= i < blocks.len(),
        0 <= k < tidied(cells_of(blocks[i].runs)).len(),
    ensures
        ({
            let span = paste_edit(blocks, same_document, page, blocks[i])->Rewrite_0.spans[k];
            let style = tidied(cells_of(blocks[i].runs))[k].style;
            let here = same_document && blocks[i].page == page;
            let changed = style.bold != style.document_bold || style.italic
                != style.document_italic;
            &&& span.bold == style.bold
            &&& span.italic == style.italic
            &&& span.underline == style.underline
            &&& style.size is Some ==> span.size == style.size
            &&& style.size is None ==> span.size == style.document_size
            &&& style.color is Some ==> span.color == style.color
            &&& style.color is None ==> span.color == style.document_color
            &&& style.script != Script::Baseline ==> span.script == style.script
            &&& style.script == Script::Baseline ==> span.script == style.document_script
            &&& here && style.family is None && !changed ==> span.font is None && span.page_family
                == style.document_family
            &&& style.family is Some ==> span.font is Some && span.font->0.family
                == style.family->0
            &&& style.family is None && (!here || changed) ==> {
                &&& span.font is Some
                &&& span.page_family is None
                &&& style.document_family is Some ==> span.font->0.family
                    == style.document_family->0
                &&& style.document_family is None ==> span.font->0.family == blocks[i].base_family
            }
            &&& span.font is Some ==> span.font->0.bold == style.bold && span.font->0.italic
                == style.italic && span.font->0.face is None
        }),
{
}

/// Every block of a group that is known is copied, with its text and its place,
/// and nothing else is.
pub proof fn every_known_block_is_copied(
    targets: Seq<MultiTarget>,
    pages: Seq<PageBlocks>,
    count: int,
    i: int,
)
    requires
        0 <= i < count <= targets.len(),
    ensures
        copies(targets, pages, count).len() <= count,
        (forall|k: int|
            0 <= k < count ==> block_at(pages, (#[trigger] targets[k]).page, targets[k].bbox)
                is Some) ==> {
            let block = block_at(pages, targets[i].page, targets[i].bbox)->0;
            let copy = copies(targets, pages, count)[i];
            &&& copies(targets, pages, count).len() == count
            &&& copy.page == targets[i].page
            &&& copy.bbox == block.bbox
            &&& chars_of(cells_of(copy.runs)) == chars_of(
                cells_of(block_runs(block.lines@, block.dominant.color)),
            )
            &&& copy.align == block.align
            &&& copy.line_height == block.leading
            &&& copy.rotation == block.rotation
            &&& copy.base_family == block.dominant.family@
        },
        block_at(pages, targets[i].page, targets[i].bbox) matches Some(block) ==> exists|k: int|
            0 <= k < copies(targets, pages, count).len() && (#[trigger] copies(
                targets,
                pages,
                count,
            )[k]).bbox == block.bbox && copies(targets, pages, count)[k].page == targets[i].page,
    decreases count,
{
    let target = targets[count - 1];
    let all = copies(targets, pages, count);
    let before = copies(targets, pages, count - 1);
    if count > 1 {
        every_known_block_is_copied(
            targets,
            pages,
            count - 1,
            if i < count - 1 {
                i
            } else {
                0
            },
        );
    }
    if let Some(block) = block_at(pages, target.page, target.bbox) {
        lemma_tidied(cells_of(block_runs(block.lines@, block.dominant.color)));
        assert(all == before.push(all[all.len() - 1]));
        if i == count - 1 {
            assert(all[all.len() - 1].bbox == block.bbox);
        }
    }
    if i < count - 1 {
        if let Some(block) = block_at(pages, targets[i].page, targets[i].bbox) {
            let k = choose|k: int|
                0 <= k < before.len() && (#[trigger] before[k]).bbox == block.bbox
                    && before[k].page == targets[i].page;
            assert(all[k] == before[k]);
        }
    }
}

/// Copies keep their places relative to each other.
pub proof fn copies_keep_together(
    blocks: Seq<CopyView>,
    same_document: bool,
    page: u32,
    i: int,
    j: int,
)
    requires
        paste_fits(blocks),
        0 <= i < blocks.len(),
        0 <= j < blocks.len(),
    ensures
        ({
            let a = paste_place(blocks, same_document, page, blocks[i].bbox);
            let b = paste_place(blocks, same_document, page, blocks[j].bbox);
            &&& a.left - b.left == blocks[i].bbox.left - blocks[j].bbox.left
            &&& a.top - b.top == blocks[i].bbox.top - blocks[j].bbox.top
            &&& a.right - a.left == blocks[i].bbox.right - blocks[i].bbox.left
        }),
{
    assert(blocks[i].bbox.is_near() && blocks[j].bbox.is_near());
}

/// A copy on the page of its original does not cover it, and away from that
/// page no font is asked for by a name that only that page knows.
pub proof fn copies_stand_on_their_own(
    blocks: Seq<CopyView>,
    same_document: bool,
    page: u32,
    i: int,
    k: int,
)
    requires
        paste_fits(blocks),
        0 <= i < blocks.len(),
        0 <= k < tidied(cells_of(blocks[i].runs)).len(),
    ensures
        same_document && blocks[i].page == page ==> paste_place(
            blocks,
            same_document,
            page,
            blocks[i].bbox,
        ).left > blocks[i].bbox.left,
        !(same_document && blocks[i].page == page) ==> paste_edit(
            blocks,
            same_document,
            page,
            blocks[i],
        )->Rewrite_0.spans[k].page_family is None,
{
    assert(blocks[i].bbox.is_near());
}

/// The distance of the centres of two rectangles: the square of its double.
pub open spec fn apart(a: Rect, b: Rect) -> int {
    let dx = (a.left + a.right) - (b.left + b.right);
    let dy = (a.bottom + a.top) - (b.bottom + b.top);
    dx * dx + dy * dy
}

/// How near to its place a copy lies: within eight points.
pub const PASTE_MATCH: i64 = 8 * 0x100_0000;

/// Whether a block was taken already.
pub open spec fn taken(found: Seq<MultiTarget>, bbox: Rect) -> bool {
    exists|i: int| 0 <= i < found.len() && (#[trigger] found[i]).bbox == bbox
}

/// The free block among the first `count` that is nearest to a place.
pub open spec fn nearest_free(
    blocks: Seq<Block>,
    found: Seq<MultiTarget>,
    place: Rect,
    count: int,
) -> Option<int>
    decreases count,
{
    if count <= 0 {
        None
    } else {
        let before = nearest_free(blocks, found, place, count - 1);
        let last = count - 1;
        if taken(found, blocks[last].bbox) {
            before
        } else {
            match before {
                Some(best) => if apart(blocks[last].bbox, place) < apart(
                    blocks[best].bbox,
                    place,
                ) {
                    Some(last)
                } else {
                    before
                },
                None => Some(last),
            }
        }
    }
}

/// The block that a copy at a place became; none while it has not come.
pub open spec fn landed(blocks: Seq<Block>, found: Seq<MultiTarget>, place: Rect) -> Option<int> {
    match nearest_free(blocks, found, place, blocks.len() as int) {
        Some(best) => if apart(blocks[best].bbox, place) <= 4 * PASTE_MATCH * PASTE_MATCH {
            Some(best)
        } else {
            None
        },
        None => None,
    }
}

/// The blocks that the first `count` copies became; none while one of them has
/// not come.
pub open spec fn landings(
    page: u32,
    blocks: Seq<Block>,
    places: Seq<Rect>,
    count: int,
) -> Option<Seq<MultiTarget>>
    decreases count,
{
    if count <= 0 {
        Some(Seq::empty())
    } else {
        match landings(page, blocks, places, count - 1) {
            Some(found) => match landed(blocks, found, places[count - 1]) {
                Some(best) => Some(found.push(target_of(page, blocks[best]))),
                None => None,
            },
            None => None,
        }
    }
}

/// The squared distance of the centres of two rectangles, doubled.
fn distance(a: &Rect, b: &Rect) -> (r: i128)
    requires
        a.is_near(),
        b.is_near(),
    ensures
        r == apart(*a, *b),
        0 <= r,
{
    let dx: i128 = (a.left as i128 + a.right as i128) - (b.left as i128 + b.right as i128);
    let dy: i128 = (a.bottom as i128 + a.top as i128) - (b.bottom as i128 + b.top as i128);
    assert(0 <= dx * dx <= 0x80_0000_0000_0000 * 0x80_0000_0000_0000) by (nonlinear_arith)
        requires
            -0x80_0000_0000_0000 <= dx <= 0x80_0000_0000_0000,
    ;
    assert(0 <= dy * dy <= 0x80_0000_0000_0000 * 0x80_0000_0000_0000) by (nonlinear_arith)
        requires
            -0x80_0000_0000_0000 <= dy <= 0x80_0000_0000_0000,
    ;
    dx * dx + dy * dy
}

/// Whether a block was taken already.
fn is_taken(found: &Vec<MultiTarget>, bbox: Rect) -> (r: bool)
    ensures
        r == taken(found@, bbox),
{
    let mut i: usize = 0;
    while i < found.len()
        invariant
            i <= found@.len(),
            forall|k: int| 0 <= k < i ==> (#[trigger] found@[k]).bbox != bbox,
        decreases found@.len() - i,
    {
        if found[i].bbox == bbox {
            return true;
        }
        i = i + 1;
    }
    false
}

/// Whether all frames of blocks lie on their page.
pub open spec fn blocks_near(blocks: Seq<Block>) -> bool {
    forall|i: int| 0 <= i < blocks.len() ==> (#[trigger] blocks[i]).bbox.is_near()
}

/// The block that a copy at a place became.
fn find_landed(blocks: &Vec<Block>, found: &Vec<MultiTarget>, place: Rect) -> (r: Option<usize>)
    requires
        blocks_near(blocks@),
        place.is_near(),
    ensures
        match r {
            Some(best) => landed(blocks@, found@, place) == Some(best as int) && best
                < blocks@.len(),
            None => landed(blocks@, found@, place) is None,
        },
{
    let mut best: Option<usize> = None;
    let mut i: usize = 0;
    while i < blocks.len()
        invariant
            blocks_near(blocks@),
            place.is_near(),
            i <= blocks@.len(),
            match best {
                Some(k) => k < i && nearest_free(blocks@, found@, place, i as int) == Some(
                    k as int,
                ),
                None => nearest_free(blocks@, found@, place, i as int) is None,
            },
        decreases blocks@.len() - i,
    {
        assert(blocks@[i as int].bbox.is_near());
        if !is_taken(found, blocks[i].bbox) {
            best = match best {
                Some(k) => {
                    assert(blocks@[k as int].bbox.is_near());
                    if distance(&blocks[i].bbox, &place) < distance(&blocks[k].bbox, &place) {
                        Some(i)
                    } else {
                        Some(k)
                    }
                },
                None => Some(i),
            };
        }
        i = i + 1;
    }
    match best {
        Some(k) => {
            assert(blocks@[k as int].bbox.is_near());
            let reach: i128 = 4 * (PASTE_MATCH as i128) * (PASTE_MATCH as i128);
            if distance(&blocks[k].bbox, &place) <= reach {
                Some(k)
            } else {
                None
            }
        },
        None => None,
    }
}

/// The blocks that pasted copies became, once all have come.
///
/// A pasted block lies almost where it was asked for, but not to the letter,
/// so it is looked for by the nearest centre. A list of blocks from before the
/// paste is known by having nothing there.
pub fn select_pasted(page: u32, blocks: &Vec<Block>, places: &Vec<Rect>) -> (r: Option<
    Vec<MultiTarget>,
>)
    requires
        blocks_near(blocks@),
        forall|i: int| 0 <= i < places@.len() ==> (#[trigger] places@[i]).is_near(),
    ensures
        match r {
            Some(found) => landings(page, blocks@, places@, places@.len() as int) == Some(found@),
            None => landings(page, blocks@, places@, places@.len() as int) is None,
        },
{
    let mut found: Vec<MultiTarget> = Vec::new();
    let mut i: usize = 0;
    while i < places.len()
        invariant
            blocks_near(blocks@),
            forall|k: int| 0 <= k < places@.len() ==> (#[trigger] places@[k]).is_near(),
            i <= places@.len(),
            landings(page, blocks@, places@, i as int) == Some(found@),
        decreases places@.len() - i,
    {
        assert(places@[i as int].is_near());
        match find_landed(blocks, &found, places[i]) {
            Some(best) => {
                found.push(make_target(page, &blocks[best]));
            },
            None => {
                proof {
                    lemma_no_landing(page, blocks@, places@, i + 1, places@.len() as int);
                }
                return None;
            },
        }
        i = i + 1;
    }
    Some(found)
}

/// Where one copy has not come, not all have.
proof fn lemma_no_landing(page: u32, blocks: Seq<Block>, places: Seq<Rect>, k: int, count: int)
    requires
        0 <= k <= count,
        landings(page, blocks, places, k) is None,
    ensures
        landings(page, blocks, places, count) is None,
    decreases count,
{
    if k < count {
        lemma_no_landing(page, blocks, places, k, count - 1);
    }
}

/// What is said when so many blocks were copied.
pub open spec fn copied_text(count: nat) -> Seq<char> {
    if count == 1 {
        "Блок скопирован — Ctrl+V вставит копию"@
    } else {
        "Скопировано блоков: "@ + decimal_text(count) + " — Ctrl+V вставит копии"@
    }
}

/// What is said when so many blocks were copied.
pub fn copied_status(count: usize) -> (r: String)
    ensures
        r@ == copied_text(count as nat),
{
    if count == 1 {
        "Блок скопирован — Ctrl+V вставит копию".to_owned()
    } else {
        "Скопировано блоков: ".to_owned().concat(decimal(count as u64).as_str()).concat(
            " — Ctrl+V вставит копии",
        )
    }
}

/// What is said when so many copies were found.
pub open spec fn pasted_text(count: nat) -> Seq<char> {
    if count == 1 {
        "Копия вставлена и выделена — тяните её на место"@
    } else {
        "Вставлено блоков: "@ + decimal_text(count) + " — выделены, тяните на место"@
    }
}

/// What is said when so many copies were found.
pub fn pasted_status(count: usize) -> (r: String)
    ensures
        r@ == pasted_text(count as nat),
{
    if count == 1 {
        "Копия вставлена и выделена — тяните её на место".to_owned()
    } else {
        "Вставлено блоков: ".to_owned().concat(decimal(count as u64).as_str()).concat(
            " — выделены, тяните на место",
        )
    }
}

proof fn lemma_nearest_free(blocks: Seq<Block>, found: Seq<MultiTarget>, place: Rect, count: int)
    requires
        0 <= count <= blocks.len(),
    ensures
        match nearest_free(blocks, found, place, count) {
            Some(best) => {
                &&& 0 <= best < count
                &&& !taken(found, blocks[best].bbox)
                &&& forall|k: int|
                    0 <= k < count && !taken(found, (#[trigger] blocks[k]).bbox) ==> apart(
                        blocks[best].bbox,
                        place,
                    ) <= apart(blocks[k].bbox, place)
            },
            None => forall|k: int| 0 <= k < count ==> taken(found, (#[trigger] blocks[k]).bbox),
        },
    decreases count,
{
    if count > 0 {
        lemma_nearest_free(blocks, found, place, count - 1);
    }
}

/// A copy is found within eight points of where it was put: the centres of its
/// frame and of the place are no farther apart, by Pythagoras. As many blocks
/// are found as there are places, no frame twice, and each is a block of the
/// page.
pub proof fn a_copy_is_found_near_its_place(
    page: u32,
    blocks: Seq<Block>,
    places: Seq<Rect>,
    count: int,
    i: int,
)
    requires
        0 <= i < count <= places.len(),
        landings(page, blocks, places, count) is Some,
    ensures
        ({
            let found = landings(page, blocks, places, count)->0;
            let lies = found[i].bbox;
            let to = places[i];
            let across = (lies.left + lies.right) - (to.left + to.right);
            let down = (lies.top + lies.bottom) - (to.top + to.bottom);
            &&& found.len() == count
            &&& found[i].page == page
            &&& across * across + down * down <= (2 * 8 * POINT) * (2 * 8 * POINT)
            &&& forall|j: int| 0 <= j < i ==> (#[trigger] found[j]).bbox != lies
            &&& exists|k: int| 0 <= k < blocks.len() && (#[trigger] blocks[k]).bbox == lies
        }),
    decreases count,
{
    let before = landings(page, blocks, places, count - 1)->0;
    lemma_landings(page, blocks, places, count - 1);
    if i < count - 1 {
        a_copy_is_found_near_its_place(page, blocks, places, count - 1, i);
    } else {
        lemma_nearest_free(blocks, before, places[i], blocks.len() as int);
        let best = landed(blocks, before, places[i])->0;
        assert(4 * PASTE_MATCH * PASTE_MATCH == (2 * 8 * POINT) * (2 * 8 * POINT)) by (nonlinear_arith)
            requires
                PASTE_MATCH == 8 * POINT,
        ;
        let found = before.push(target_of(page, blocks[best]));
        assert(landings(page, blocks, places, count)->0 == found);
        assert(blocks[best].bbox == found[i].bbox);
        assert forall|j: int| 0 <= j < i implies (#[trigger] found[j]).bbox != found[i].bbox by {
            assert(before[j].bbox == found[j].bbox);
        }
    }
}

proof fn lemma_landings(page: u32, blocks: Seq<Block>, places: Seq<Rect>, count: int)
    requires
        0 <= count,
    ensures
        landings(page, blocks, places, count) matches Some(found) ==> found.len() == count,
    decreases count,
{
    if count > 0 {
        lemma_landings(page, blocks, places, count - 1);
    }
}

/// A single copy is looked for among all blocks: the nearest is found, and
/// none only where none lies within eight points.
pub proof fn the_nearest_copy_is_found(page: u32, blocks: Seq<Block>, place: Rect, k: int)
    requires
        0 <= k < blocks.len(),
    ensures
        ({
            let found = landings(page, blocks, seq![place], 1);
            let b = blocks[k].bbox;
            let across = (b.left + b.right) - (place.left + place.right);
            let down = (b.top + b.bottom) - (place.top + place.bottom);
            let off = across * across + down * down;
            &&& off <= (2 * 8 * POINT) * (2 * 8 * POINT) ==> found is Some
            &&& found matches Some(found) ==> {
                let f = found[0].bbox;
                let x = (f.left + f.right) - (place.left + place.right);
                let y = (f.top + f.bottom) - (place.top + place.bottom);
                x * x + y * y <= off
            }
        }),
{
    let none = Seq::<MultiTarget>::empty();
    assert(landings(page, blocks, seq![place], 0) == Some(none));
    lemma_nearest_free(blocks, none, place, blocks.len() as int);
    assert(!taken(none, blocks[k].bbox));
    assert(4 * PASTE_MATCH * PASTE_MATCH == (2 * 8 * POINT) * (2 * 8 * POINT)) by (nonlinear_arith)
        requires
            PASTE_MATCH == 8 * POINT,
    ;
}

} // verus!
