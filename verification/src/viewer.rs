//! What is selected in an open document, and what the mouse does to it.
use crate::block_model::{
    block_fits, block_runs, model_from_block, reading_a_block_edits_nothing, shown_size, READABLE,
};
use crate::chars::{chars_of_str, is_white_space, white_space};
use crate::document::{
    edit_views, Align, Block, BlockEdit, BlockErase, BlockTransform, EditView, Script,
};
use crate::edits::{
    a_block_is_moved_where_nothing_else_changed, edit_of, FontChoice, Selection,
};
use crate::frame::{
    a_band_picks_what_it_holds_or_touches, a_normal_angle_is_the_same_turn, all_sane_rects,
    blocks_in_band, dragged, is_dragged, is_normal, is_snapped, picked, rotated,
    snap, BandMode, FrameDrag, Grip, Guide,
};
use crate::geometry::{abs_of, greatest, sane, Rect, Spot};
use crate::group::{
    a_block_goes_where_it_is_put, blocks_of, find_page, frames_fit, make_target, moved_edit, pages_fit, shift_group, shifted,
    target_of, MultiTarget, PageBlocks,
};
use crate::pointer::{
    block_frames, far_apart, frames_of, lemma_points, lemma_points_bounded, press_became_drag, usable_zoom,
    GroupDrag, PendingPress, Rubber, Tool,
};
use crate::rich_text::{
    cells_of, chars_of, lemma_style_of_run, RichText, RunView, TextView,
};
use crate::text_layout::{points, points_of, SMALLEST_SCALE};
use crate::units::{Points, POINT};
use vstd::prelude::*;

verus! {

/// What the viewer tells its surroundings.
#[derive(Clone, Copy, Debug, PartialEq, Eq, Structural)]
pub enum ViewerEvent {
    GoHome,
}

/// What is selected and what the mouse is doing.
#[derive(Debug)]
pub struct Viewer {
    /// The paragraph that is being edited.
    pub selected: Option<Selection>,
    /// Several selected blocks.
    pub multi: Vec<MultiTarget>,
    /// A drag of the frame of the edited paragraph.
    pub drag: Option<FrameDrag>,
    /// What the frame is level with, while it is dragged.
    pub guides: Vec<Guide>,
    pub group_drag: Option<GroupDrag>,
    pub pending_press: Option<PendingPress>,
    pub rubber: Option<Rubber>,
    pub tool: Tool,
    /// Whether a dragged frame lines up with its neighbours.
    pub snapping: bool,
    /// The keyboard is to go to the text.
    pub focus_editor: bool,
    /// The keyboard is to go to the view itself.
    pub focus_root: bool,
}

/// What a [`Viewer`] holds.
#[verifier::ext_equal]
pub struct ViewerView {
    pub selected: Option<Selection>,
    pub multi: Seq<MultiTarget>,
    pub drag: Option<FrameDrag>,
    pub guides: Seq<Guide>,
    pub group_drag: Option<GroupDrag>,
    pub pending_press: Option<PendingPress>,
    pub rubber: Option<Rubber>,
    pub tool: Tool,
    pub snapping: bool,
    pub focus_editor: bool,
    pub focus_root: bool,
}

impl View for Viewer {
    type V = ViewerView;

    open spec fn view(&self) -> ViewerView {
        ViewerView {
            selected: self.selected,
            multi: self.multi@,
            drag: self.drag,
            guides: self.guides@,
            group_drag: self.group_drag,
            pending_press: self.pending_press,
            rubber: self.rubber,
            tool: self.tool,
            snapping: self.snapping,
            focus_editor: self.focus_editor,
            focus_root: self.focus_root,
        }
    }
}

impl ViewerView {
    /// The state with the selection given up.
    pub open spec fn cleared(self) -> ViewerView {
        ViewerView {
            selected: None,
            drag: None,
            guides: Seq::empty(),
            focus_root: true,
            ..self
        }
    }

    /// The state with no block selected for editing.
    pub open spec fn unselected(self) -> ViewerView {
        if self.selected is Some {
            self.cleared()
        } else {
            self
        }
    }

    /// Whether an edit is under way that must not be lost.
    pub open spec fn is_touched(self) -> bool {
        self.selected matches Some(selection) && selection.touched
    }
}

/// Whether a block belongs to the group.
pub open spec fn is_member(multi: Seq<MultiTarget>, page: u32, bbox: Rect) -> bool {
    exists|i: int|
        0 <= i < multi.len() && (#[trigger] multi[i]).page == page && multi[i].bbox == bbox
}

/// The block that was pressed.
pub open spec fn pressed_block(
    pages: Seq<PageBlocks>,
    page: u32,
    index: Option<usize>,
) -> Option<Block> {
    match (blocks_of(pages, page), index) {
        (Some(blocks), Some(index)) => if index < blocks.len() {
            Some(blocks[index as int])
        } else {
            None
        },
        _ => None,
    }
}

/// Whether a group is another without the first entry of a block, or with the
/// block at its end where it has none. Without a block it is the same.
pub open spec fn is_toggled(
    before: Seq<MultiTarget>,
    after: Seq<MultiTarget>,
    page: u32,
    block: Option<Block>,
) -> bool {
    match block {
        None => after == before,
        Some(block) => if is_member(before, page, block.bbox) {
            exists|k: int|
                {
                    &&& 0 <= k < before.len()
                    &&& (#[trigger] before[k]).page == page
                    &&& before[k].bbox == block.bbox
                    &&& after == before.remove(k)
                    &&& forall|m: int|
                        0 <= m < k ==> !((#[trigger] before[m]).page == page && before[m].bbox
                            == block.bbox)
                }
        } else {
            after == before.push(target_of(page, block))
        },
    }
}

/// Whether a menu that is opened on a block selects it first: it does where the
/// block is neither edited nor in the group. A block that the page does not
/// have takes nothing from an edit on that page.
pub open spec fn reselects(
    v: ViewerView,
    pages: Seq<PageBlocks>,
    page: u32,
    block: Option<usize>,
) -> bool {
    block is Some && match pressed_block(pages, page, block) {
        Some(clicked) => !is_member(v.multi, page, clicked.bbox) && !(v.selected matches Some(
            selection,
        ) && selection.page == page && selection.bbox == clicked.bbox),
        None => !(v.selected matches Some(selection) && selection.page == page),
    }
}

/// The state once the menu of a text was opened.
pub open spec fn menu_opened(
    v: ViewerView,
    pages: Seq<PageBlocks>,
    page: u32,
    block: Option<usize>,
) -> ViewerView {
    if reselects(v, pages, page, block) {
        let multi = match pressed_block(pages, page, block) {
            Some(clicked) => seq![target_of(page, clicked)],
            None => Seq::empty(),
        };
        if v.is_touched() {
            ViewerView { multi, ..v }
        } else {
            ViewerView { multi, ..v.unselected() }
        }
    } else {
        v
    }
}

/// What a press comes to.
#[derive(Clone, Copy, Debug, PartialEq, Eq, Structural)]
pub enum Press {
    /// The edit is to be applied first; choosing another block takes another
    /// press.
    Apply,
    /// The group is taken hold of.
    GrabGroup,
    /// What it means is seen when it is let go.
    Wait,
}

/// What a press comes to.
pub open spec fn press_meaning(
    v: ViewerView,
    pages: Seq<PageBlocks>,
    page: u32,
    block: Option<usize>,
) -> Press {
    if v.is_touched() {
        Press::Apply
    } else if pressed_block(pages, page, block) matches Some(clicked) && is_member(
        v.multi,
        page,
        clicked.bbox,
    ) {
        Press::GrabGroup
    } else {
        Press::Wait
    }
}

/// The state after a press.
pub open spec fn pressed(
    v: ViewerView,
    pages: Seq<PageBlocks>,
    page: u32,
    block: Option<usize>,
    at: Spot,
) -> ViewerView {
    match press_meaning(v, pages, page, block) {
        Press::Apply => v,
        Press::GrabGroup => ViewerView {
            group_drag: Some(GroupDrag { page, start: at, current: at }),
            ..v.unselected()
        },
        Press::Wait => ViewerView {
            multi: Seq::empty(),
            pending_press: Some(PendingPress { page, block, at }),
            ..v.unselected()
        },
    }
}

/// The state after the mouse moved, with the left button held or not.
pub open spec fn moved_to(v: ViewerView, to: Spot, held: bool) -> ViewerView {
    if !held {
        v
    } else {
        let group_drag = match v.group_drag {
            Some(drag) => Some(GroupDrag { current: to, ..drag }),
            None => None,
        };
        match v.pending_press {
            Some(press) => if far_apart(press.at, to) {
                ViewerView {
                    group_drag,
                    pending_press: None,
                    rubber: Some(
                        Rubber { page: press.page, block: press.block, start: press.at, current: to },
                    ),
                    ..v
                }
            } else {
                ViewerView { group_drag, rubber: v.stretched(to), ..v }
            },
            None => ViewerView { group_drag, rubber: v.stretched(to), ..v },
        }
    }
}

impl ViewerView {
    /// The band drawn to a place.
    pub open spec fn stretched(self, to: Spot) -> Option<Rubber> {
        match self.rubber {
            Some(rubber) => Some(Rubber { current: to, ..rubber }),
            None => None,
        }
    }
}

/// Whether a selection is that of a block as it stands on its page.
pub open spec fn selects(s: Selection, page: u32, block: Block) -> bool {
    &&& s.page == page
    &&& s.bbox == block.bbox
    &&& s.frame == block.bbox
    &&& s.family@ == block.dominant.family@
    &&& s.size == block.dominant.size
    &&& s.original_text@ == chars_of(cells_of(block_runs(block.lines@, block.dominant.color)))
    &&& s.lines == block.lines@.len()
    &&& s.seeded_style_id == block.style
    &&& s.style_id == block.style
    &&& s.align == block.align
    &&& s.line_height == block.leading
    &&& s.owner == block.mark
    &&& s.rotation == block.rotation
    &&& s.is_untouched()
    &&& !s.creating
}

/// Whether a selection is that of a new block in a frame.
pub open spec fn selects_new(s: Selection, page: u32, frame: Rect) -> bool {
    &&& s.page == page
    &&& s.bbox == frame
    &&& s.frame == frame
    &&& s.family@ == "Arial"@
    &&& s.size == 12 * POINT
    &&& s.original_text@ == Seq::<char>::empty()
    &&& s.lines == 1
    &&& s.seeded_style_id is None
    &&& s.style_id is None
    &&& s.align == Align::Left
    &&& s.line_height is None
    &&& s.owner is None
    &&& s.rotation == 0
    &&& s.is_untouched()
    &&& s.creating
}

impl Selection {
    /// Whether nothing was changed yet.
    pub open spec fn is_untouched(self) -> bool {
        &&& !self.touched
        &&& !self.needs_retypeset
        &&& self.page_font is None
        &&& self.char_spacing_override is None
        &&& self.h_scale_override is None
        &&& self.para_spacing_override is None
        &&& self.fill is None
        &&& self.seeded_char_spacing == 0
        &&& self.seeded_h_scale == 100 * POINT
    }

    /// The selection of a block as it stands on its page, with its text.
    fn of_block(page: u32, block: &Block, text: String) -> (r: Selection)
        requires
            text@ == chars_of(cells_of(block_runs(block.lines@, block.dominant.color))),
        ensures
            selects(r, page, *block),
    {
        Selection {
            page,
            bbox: block.bbox,
            frame: block.bbox,
            family: block.dominant.family.clone(),
            size: block.dominant.size,
            original_text: text,
            lines: block.lines.len(),
            seeded_style_id: block.style,
            align: block.align,
            needs_retypeset: false,
            line_height: block.leading,
            page_font: None,
            owner: block.mark,
            touched: false,
            char_spacing_override: None,
            h_scale_override: None,
            seeded_char_spacing: 0,
            seeded_h_scale: 100 * POINT,
            para_spacing_override: None,
            fill: None,
            style_id: block.style,
            creating: false,
            rotation: block.rotation,
        }
    }

    /// The selection of a new block.
    fn of_frame(page: u32, frame: Rect) -> (r: Selection)
        ensures
            selects_new(r, page, frame),
    {
        Selection {
            page,
            bbox: frame,
            frame,
            family: "Arial".to_owned(),
            size: 12 * POINT,
            original_text: String::new(),
            lines: 1,
            seeded_style_id: None,
            align: Align::Left,
            needs_retypeset: false,
            line_height: None,
            page_font: None,
            owner: None,
            touched: false,
            char_spacing_override: None,
            h_scale_override: None,
            seeded_char_spacing: 0,
            seeded_h_scale: 100 * POINT,
            para_spacing_override: None,
            fill: None,
            style_id: None,
            creating: true,
            rotation: 0,
        }
    }
}

/// What came of selecting a block.
#[derive(Debug)]
pub enum Opened {
    /// There is no such block, or a frame is being dragged.
    Ignored,
    /// The block is being edited already, and stays so: a press on its text
    /// must not throw away what was typed.
    Already,
    /// The text of the block is to be edited.
    Text(RichText),
}

/// Whether the block of a selection is the one given.
pub open spec fn is_current(v: ViewerView, page: u32, block: Block) -> bool {
    v.selected matches Some(selection) && selection.page == page && selection.bbox == block.bbox
}

/// What selecting a block does.
pub open spec fn is_opened(
    before: ViewerView,
    after: ViewerView,
    pages: Seq<PageBlocks>,
    page: u32,
    index: usize,
    outcome: Opened,
) -> bool {
    match pressed_block(pages, page, Some(index)) {
        Some(block) => if before.drag is Some {
            outcome is Ignored && after == before
        } else if is_current(before, page, block) {
            outcome is Already && after == (ViewerView { multi: Seq::empty(), ..before })
        } else {
            &&& outcome matches Opened::Text(text)
            &&& text.wf()
            &&& text@.cells() == cells_of(block_runs(block.lines@, block.dominant.color))
            &&& text@.caret == text@.anchor
            &&& text@.caret == crate::chars::byte_len(text@.text())
            &&& after.selected matches Some(selection)
            &&& selects(selection, page, block)
            &&& after == (ViewerView {
                multi: Seq::empty(),
                selected: Some(selection),
                focus_editor: true,
                ..before
            })
        },
        None => outcome is Ignored && after == before,
    }
}

/// Whether blocks can be read.
pub open spec fn blocks_readable(blocks: Seq<Block>) -> bool {
    forall|i: int|
        0 <= i < blocks.len() ==> block_fits(#[trigger] blocks[i], blocks[i].dominant.color)
}

/// Whether the blocks of all pages can be read.
pub open spec fn pages_readable(pages: Seq<PageBlocks>) -> bool {
    forall|page: u32|
        (#[trigger] blocks_of(pages, page)) matches Some(blocks) ==> blocks_readable(blocks)
}

/// The block that was pressed.
fn find_pressed<'a>(pages: &'a Vec<PageBlocks>, page: u32, index: Option<usize>) -> (r: Option<
    &'a Block,
>)
    ensures
        match r {
            Some(block) => pressed_block(pages@, page, index) == Some(*block),
            None => pressed_block(pages@, page, index) is None,
        },
{
    match (find_page(pages, page), index) {
        (Some(blocks), Some(index)) => if index < blocks.len() {
            Some(&blocks[index])
        } else {
            None
        },
        _ => None,
    }
}

/// The index of a block of the group; the number of them where it is none.
pub(crate) fn member_index(multi: &Vec<MultiTarget>, page: u32, bbox: Rect) -> (r: usize)
    ensures
        r <= multi@.len(),
        r < multi@.len() <==> is_member(multi@, page, bbox),
        r < multi@.len() ==> multi@[r as int].page == page && multi@[r as int].bbox == bbox,
        forall|k: int|
            0 <= k < r ==> !((#[trigger] multi@[k]).page == page && multi@[k].bbox == bbox),
{
    let mut i: usize = 0;
    while i < multi.len()
        invariant
            i <= multi@.len(),
            forall|k: int|
                0 <= k < i ==> !((#[trigger] multi@[k]).page == page && multi@[k].bbox == bbox),
        decreases multi@.len() - i,
    {
        if multi[i].page == page && multi[i].bbox == bbox {
            return i;
        }
        i = i + 1;
    }
    i
}

/// What came of letting a band go.
#[derive(Debug)]
pub enum BandEnd {
    /// There was no band, or it meant nothing.
    Nothing,
    /// A block was picked, or was under the press.
    Block(Opened),
    /// Several blocks are selected now.
    Group,
    /// A new block is to be typed.
    NewBlock,
}

/// Whether a frame is large enough for a new block.
pub open spec fn roomy(frame: Rect) -> bool {
    frame.right - frame.left >= 20 * POINT && frame.top - frame.bottom >= 8 * POINT
}

/// The targets that picked blocks make.
pub open spec fn targets_of(page: u32, blocks: Seq<Block>, indices: Seq<usize>) -> Seq<
    MultiTarget,
> {
    Seq::new(indices.len(), |i: int| target_of(page, blocks[indices[i] as int]))
}

/// What letting a band go does, with the place of the band where it is known.
pub open spec fn is_band_end(
    before: ViewerView,
    after: ViewerView,
    band: Option<(Rect, BandMode)>,
    pages: Seq<PageBlocks>,
    outcome: BandEnd,
) -> bool {
    let gone = ViewerView { rubber: None, ..before };
    if before.rubber is None || !far_apart(before.rubber->0.start, before.rubber->0.current)
        || band is None {
        outcome is Nothing && after == gone
    } else {
        let rubber = before.rubber->0;
        let (frame, mode) = band->0;
        if before.tool == Tool::Text {
            if roomy(frame) {
                &&& outcome is NewBlock
                &&& after.selected matches Some(selection)
                &&& selects_new(selection, rubber.page, frame)
                &&& after == (ViewerView {
                    selected: Some(selection),
                    focus_editor: true,
                    tool: Tool::Cursor,
                    ..gone
                })
            } else {
                outcome is Nothing && after == gone
            }
        } else {
            match blocks_of(pages, rubber.page) {
                None => outcome is Nothing && after == gone,
                Some(blocks) => {
                    let chosen = picked(frame, mode, frames_of(blocks));
                    if chosen.len() == 0 {
                        match rubber.block {
                            None => outcome is Nothing && after == gone,
                            Some(index) => {
                                &&& outcome matches BandEnd::Block(opened)
                                &&& is_opened(gone, after, pages, rubber.page, index, opened)
                            },
                        }
                    } else if chosen.len() == 1 {
                        &&& outcome matches BandEnd::Block(opened)
                        &&& is_opened(gone, after, pages, rubber.page, chosen[0], opened)
                    } else {
                        &&& outcome is Group
                        &&& after == (ViewerView {
                            multi: targets_of(rubber.page, blocks, chosen),
                            ..gone
                        })
                    }
                },
            }
        }
    }
}

/// What came of applying an edit.
#[derive(Debug)]
pub enum Applied {
    /// Nothing is being edited.
    Nothing,
    /// The text is blank: the block stays as it was.
    Blank,
    Edit(BlockEdit),
}

/// Whether a text holds nothing but white space.
pub open spec fn blank(text: Seq<char>) -> bool {
    forall|i: int| 0 <= i < text.len() ==> white_space(#[trigger] text[i])
}

/// Whether a text holds nothing but white space.
pub fn is_blank(text: &str) -> (r: bool)
    ensures
        r == blank(text@),
{
    let chars = chars_of_str(text);
    let mut i: usize = 0;
    while i < chars.len()
        invariant
            i <= chars@.len(),
            chars@ == text@,
            forall|k: int| 0 <= k < i ==> white_space(#[trigger] chars@[k]),
        decreases chars@.len() - i,
    {
        if !is_white_space(chars[i]) {
            return false;
        }
        i = i + 1;
    }
    true
}

impl Viewer {
    /// A viewer with nothing selected.
    pub fn new() -> (r: Viewer)
        ensures
            r@ == (ViewerView {
                selected: None,
                multi: Seq::empty(),
                drag: None,
                guides: Seq::empty(),
                group_drag: None,
                pending_press: None,
                rubber: None,
                tool: Tool::Cursor,
                snapping: true,
                focus_editor: false,
                focus_root: false,
            }),
    {
        Viewer {
            selected: None,
            multi: Vec::new(),
            drag: None,
            guides: Vec::new(),
            group_drag: None,
            pending_press: None,
            rubber: None,
            tool: Tool::Cursor,
            snapping: true,
            focus_editor: false,
            focus_root: false,
        }
    }

    /// Gives the selection up. The keyboard goes back to the view, for the
    /// field that had it is gone.
    pub fn clear_selection(&mut self)
        ensures
            final(self)@ == old(self)@.cleared(),
    {
        self.selected = None;
        self.drag = None;
        self.guides = Vec::new();
        self.focus_root = true;
    }

    /// Drops the group.
    pub fn clear_multi(&mut self)
        ensures
            final(self)@ == (ViewerView { multi: Seq::empty(), ..old(self)@ }),
    {
        self.multi = Vec::new();
    }

    /// Ends an edit: one that changed nothing is dropped, and `true` says that
    /// there is one to be applied.
    pub fn commit_or_clear(&mut self) -> (r: bool)
        ensures
            r == old(self)@.is_touched(),
            r ==> final(self)@ == old(self)@,
            !r ==> final(self)@ == old(self)@.unselected(),
    {
        let touched = match &self.selected {
            Some(selection) => selection.touched,
            None => {
                return false;
            },
        };
        if !touched {
            self.clear_selection();
        }
        touched
    }

    /// A press on a page, on a block or beside all.
    ///
    /// What was typed is never lost: it is applied before anything else is
    /// selected. A press on a block of the group takes hold of the group.
    pub fn press_anywhere(
        &mut self,
        page: u32,
        block: Option<usize>,
        at: Spot,
        pages: &Vec<PageBlocks>,
    ) -> (r: Press)
        ensures
            r == press_meaning(old(self)@, pages@, page, block),
            final(self)@ == pressed(old(self)@, pages@, page, block, at),
    {
        if self.commit_or_clear() {
            return Press::Apply;
        }
        if let Some(clicked) = find_pressed(pages, page, block) {
            if member_index(&self.multi, page, clicked.bbox) < self.multi.len() {
                self.group_drag = Some(GroupDrag { page, start: at, current: at });
                return Press::GrabGroup;
            }
        }
        self.multi = Vec::new();
        self.pending_press = Some(PendingPress { page, block, at });
        Press::Wait
    }

    /// A move of the mouse, with the left button held or not.
    pub fn mouse_moved(&mut self, to: Spot, held: bool)
        requires
            to.is_near(),
            old(self).pending_press matches Some(press) ==> press.at.is_near(),
        ensures
            final(self)@ == moved_to(old(self)@, to, held),
    {
        if !held {
            return;
        }
        if let Some(drag) = self.group_drag {
            self.group_drag = Some(GroupDrag { page: drag.page, start: drag.start, current: to });
        }
        if let Some(press) = self.pending_press {
            if press_became_drag(press.at, to) {
                self.rubber = Some(
                    Rubber { page: press.page, block: press.block, start: press.at, current: to },
                );
                self.pending_press = None;
            }
        }
        if let Some(rubber) = self.rubber {
            self.rubber = Some(
                Rubber {
                    page: rubber.page,
                    block: rubber.block,
                    start: rubber.start,
                    current: to,
                },
            );
        }
    }

    /// The drag of the group that the mouse let go of.
    pub fn take_group_drag(&mut self) -> (r: Option<GroupDrag>)
        ensures
            r == old(self)@.group_drag,
            final(self)@ == (ViewerView { group_drag: None, ..old(self)@ }),
    {
        let drag = self.group_drag;
        self.group_drag = None;
        drag
    }

    /// The block that was clicked: a press that did not move, on a block.
    pub fn take_click(&mut self) -> (r: Option<(u32, usize)>)
        ensures
            final(self)@ == (ViewerView { pending_press: None, ..old(self)@ }),
            r == match old(self)@.pending_press {
                Some(press) => match press.block {
                    Some(index) => Some((press.page, index)),
                    None => None,
                },
                None => None,
            },
    {
        let press = self.pending_press;
        self.pending_press = None;
        match press {
            Some(press) => match press.block {
                Some(index) => Some((press.page, index)),
                None => None,
            },
            None => None,
        }
    }

    /// Lets a dragged frame go; the guides lived only while it was dragged.
    pub fn drop_frame(&mut self) -> (r: bool)
        ensures
            r == (old(self)@.drag is Some),
            r ==> final(self)@ == (ViewerView { drag: None, guides: Seq::empty(), ..old(self)@ }),
            !r ==> final(self)@ == old(self)@,
    {
        if self.drag.is_none() {
            return false;
        }
        self.drag = None;
        self.guides = Vec::new();
        true
    }

    /// Selects a block for editing.
    pub fn select_block(&mut self, page: u32, index: usize, pages: &Vec<PageBlocks>) -> (r: Opened)
        requires
            pages_readable(pages@),
        ensures
            is_opened(old(self)@, final(self)@, pages@, page, index, r),
    {
        let block = match find_pressed(pages, page, Some(index)) {
            Some(block) => block,
            None => {
                return Opened::Ignored;
            },
        };
        if self.drag.is_some() {
            return Opened::Ignored;
        }
        self.multi = Vec::new();
        let already = match &self.selected {
            Some(current) => current.page == page && current.bbox == block.bbox,
            None => false,
        };
        if already {
            return Opened::Already;
        }
        proof {
            let blocks = blocks_of(pages@, page)->0;
            assert(block_fits(blocks[index as int], blocks[index as int].dominant.color));
        }
        let text = model_from_block(block, block.dominant.color);
        self.selected = Some(Selection::of_block(page, block, text.text()));
        self.focus_editor = true;
        Opened::Text(text)
    }

    /// Opens a new block that was drawn with the text tool. A frame that is
    /// too small is an unsteady hand, not an intention.
    pub fn start_new_block(&mut self, page: u32, frame: Rect) -> (r: bool)
        requires
            frame.is_sane(),
        ensures
            r == roomy(frame),
            !r ==> final(self)@ == old(self)@,
            r ==> final(self)@.selected is Some && selects_new(
                final(self)@.selected->0,
                page,
                frame,
            ) && final(self)@ == (ViewerView {
                selected: final(self)@.selected,
                focus_editor: true,
                tool: Tool::Cursor,
                ..old(self)@
            }),
    {
        if frame.width() < 20 * POINT || frame.height() < 8 * POINT {
            return false;
        }
        self.selected = Some(Selection::of_frame(page, frame));
        self.focus_editor = true;
        self.tool = Tool::Cursor;
        true
    }

    /// Lets a band go: the blocks that it picked are selected.
    pub fn finish_rubber(
        &mut self,
        band: Option<(Rect, BandMode)>,
        pages: &Vec<PageBlocks>,
    ) -> (r: BandEnd)
        requires
            pages_readable(pages@),
            old(self).rubber matches Some(rubber) ==> rubber.start.is_near()
                && rubber.current.is_near(),
            band matches Some((frame, _)) ==> frame.is_sane(),
        ensures
            is_band_end(old(self)@, final(self)@, band, pages@, r),
    {
        let rubber = match self.rubber {
            Some(rubber) => rubber,
            None => {
                return BandEnd::Nothing;
            },
        };
        self.rubber = None;
        if !rubber.meaningful() {
            return BandEnd::Nothing;
        }
        let (frame, mode) = match band {
            Some(band) => band,
            None => {
                return BandEnd::Nothing;
            },
        };
        if self.tool == Tool::Text {
            return if self.start_new_block(rubber.page, frame) {
                BandEnd::NewBlock
            } else {
                BandEnd::Nothing
            };
        }
        let blocks = match find_page(pages, rubber.page) {
            Some(blocks) => blocks,
            None => {
                return BandEnd::Nothing;
            },
        };
        let frames = block_frames(blocks);
        let chosen = blocks_in_band(frame, mode, frames.as_slice());
        if chosen.len() == 0 {
            return match rubber.block {
                Some(index) => BandEnd::Block(self.select_block(rubber.page, index, pages)),
                None => BandEnd::Nothing,
            };
        }
        if chosen.len() == 1 {
            return BandEnd::Block(self.select_block(rubber.page, chosen[0], pages));
        }
        let mut multi: Vec<MultiTarget> = Vec::new();
        let mut i: usize = 0;
        proof {
            assert(frames@.len() == frames.len());
            crate::frame::lemma_picked_in_range(frame, mode, frames@);
        }
        while i < chosen.len()
            invariant
                i <= chosen@.len(),
                forall|k: int| 0 <= k < chosen@.len() ==> #[trigger] chosen@[k] < blocks@.len(),
                multi@.len() == i,
                forall|k: int|
                    0 <= k < i ==> #[trigger] multi@[k] == target_of(
                        rubber.page,
                        blocks@[chosen@[k] as int],
                    ),
            decreases chosen@.len() - i,
        {
            assert(chosen@[i as int] < blocks@.len());
            multi.push(make_target(rubber.page, &blocks[chosen[i]]));
            i = i + 1;
        }
        assert(multi@ == targets_of(rubber.page, blocks@, chosen@));
        self.multi = multi;
        BandEnd::Group
    }

    /// Adds a block to the group, or takes it out. The edit that is under way
    /// ends first: one that changed nothing is given up, and `true` says that
    /// there is one to be applied.
    pub fn toggle_multi(&mut self, page: u32, index: usize, pages: &Vec<PageBlocks>) -> (r: bool)
        ensures
            r == old(self)@.is_touched(),
            final(self)@ == (ViewerView {
                multi: final(self)@.multi,
                ..if r {
                    old(self)@
                } else {
                    old(self)@.unselected()
                }
            }),
            is_toggled(
                old(self)@.multi,
                final(self)@.multi,
                page,
                pressed_block(pages@, page, Some(index)),
            ),
    {
        let apply = self.commit_or_clear();
        if let Some(block) = find_pressed(pages, page, Some(index)) {
            let at: usize = member_index(&self.multi, page, block.bbox);
            if at < self.multi.len() {
                self.multi.remove(at);
            } else {
                self.multi.push(make_target(page, block));
            }
        }
        apply
    }

    /// Whether a right click on a block has to select it first: the menu is
    /// always of what it was opened on.
    pub fn menu_reselects(&self, page: u32, block: Option<usize>, pages: &Vec<PageBlocks>) -> (r:
        bool)
        ensures
            r == reselects(self@, pages@, page, block),
    {
        if block.is_none() {
            return false;
        }
        match find_pressed(pages, page, block) {
            Some(clicked) => {
                let edited = match &self.selected {
                    Some(selection) => selection.page == page && selection.bbox == clicked.bbox,
                    None => false,
                };
                !edited && member_index(&self.multi, page, clicked.bbox) >= self.multi.len()
            },
            None => match &self.selected {
                Some(selection) => selection.page != page,
                None => true,
            },
        }
    }

    /// Opens the menu of a text, on a block or beside all.
    ///
    /// A block that is neither edited nor in the group is selected first: it
    /// alone is the group then. `true` says that an edit was under way and is
    /// still to be applied; one that changed nothing is given up. A click
    /// beside all leaves the selection as it is.
    pub fn open_text_menu(&mut self, page: u32, block: Option<usize>, pages: &Vec<PageBlocks>) -> (r:
        bool)
        ensures
            r == (reselects(old(self)@, pages@, page, block) && old(self)@.is_touched()),
            final(self)@ == menu_opened(old(self)@, pages@, page, block),
    {
        if !self.menu_reselects(page, block, pages) {
            return false;
        }
        let apply = self.commit_or_clear();
        let mut alone: Vec<MultiTarget> = Vec::new();
        if let Some(clicked) = find_pressed(pages, page, block) {
            alone.push(make_target(page, clicked));
        }
        self.multi = alone;
        apply
    }

    /// Applies the edit: the selection is turned into it and given up. A blank
    /// text leaves the block as it was, and the edit open.
    pub fn apply_edit(&mut self, text: &RichText, font: &FontChoice) -> (r: Applied)
        requires
            old(self).selected matches Some(selection) ==> selection.fits(),
            -READABLE <= font.size <= READABLE,
        ensures
            old(self)@.selected is None ==> r is Nothing && final(self)@ == old(self)@,
            old(self)@.selected is Some && blank(text@.text()) ==> r is Blank && final(self)@
                == old(self)@,
            old(self)@.selected is Some && !blank(text@.text()) ==> {
                &&& r matches Applied::Edit(edit)
                &&& edit@ == edit_of(old(self)@.selected->0, text@, *font)
                &&& final(self)@ == old(self)@.cleared()
            },
    {
        let edit = match &self.selected {
            None => {
                return Applied::Nothing;
            },
            Some(selection) => {
                if is_blank(text.text().as_str()) {
                    return Applied::Blank;
                }
                selection.pending_edit(text, font)
            },
        };
        self.clear_selection();
        Applied::Edit(edit)
    }

    /// Takes the edited block off its page. A block that is not on a page yet
    /// is simply given up.
    pub fn erase_selected(&mut self) -> (r: Option<BlockEdit>)
        requires
            old(self).selected matches Some(selection) ==> selection.page < u32::MAX,
        ensures
            final(self)@ == old(self)@.unselected(),
            match old(self)@.selected {
                Some(selection) => if selection.creating {
                    r is None
                } else {
                    r matches Some(edit) && edit@ == EditView::Erase(
                        BlockErase {
                            page_number: (selection.page + 1) as u32,
                            bbox: selection.bbox,
                            owner: selection.owner,
                        },
                    )
                },
                None => r is None,
            },
            r matches Some(edit) ==> edit@->Erase_0.page_number - 1 == old(self)@.selected->0.page,
    {
        let edit = match &self.selected {
            None => {
                return None;
            },
            Some(selection) => if selection.creating {
                None
            } else {
                Some(
                    BlockEdit::Erase(
                        BlockErase {
                            page_number: selection.page + 1,
                            bbox: selection.bbox,
                            owner: selection.owner,
                        },
                    ),
                )
            },
        };
        self.clear_selection();
        edit
    }
}

/// How near a line must be for a frame to be drawn to it.
pub const SNAP_TOLERANCE: Points = 4 * 0x100_0000;

/// The frames but for one.
pub open spec fn frames_but(frames: Seq<Rect>, own: Rect) -> Seq<Rect>
    decreases frames.len(),
{
    if frames.len() == 0 {
        Seq::empty()
    } else if frames.last() == own {
        frames_but(frames.drop_last(), own)
    } else {
        frames_but(frames.drop_last(), own).push(frames.last())
    }
}

/// The frames that the edited one is lined up with: those of the other blocks
/// of its page.
pub open spec fn neighbours(v: ViewerView, pages: Seq<PageBlocks>) -> Seq<Rect> {
    match v.selected {
        Some(selection) => match blocks_of(pages, selection.page) {
            Some(blocks) => frames_but(frames_of(blocks), selection.bbox),
            None => Seq::empty(),
        },
        None => Seq::empty(),
    }
}

/// Whether the frames of all blocks can be computed with.
pub open spec fn pages_placed(pages: Seq<PageBlocks>) -> bool {
    forall|page: u32|
        (#[trigger] blocks_of(pages, page)) matches Some(blocks) ==> all_sane_rects(
            frames_of(blocks),
        )
}

/// What a drag that takes the frame from `moved` to `frame` makes of the state.
pub open spec fn is_frame_dragged(
    before: ViewerView,
    after: ViewerView,
    pages: Seq<PageBlocks>,
    moved: Rect,
    frame: Rect,
) -> bool {
    &&& if before.snapping {
        is_snapped(
            moved,
            before.drag->0.grip,
            neighbours(before, pages),
            SNAP_TOLERANCE,
            frame,
            after.guides,
        )
    } else {
        frame == moved && after.guides == Seq::<Guide>::empty()
    }
    &&& after == (ViewerView {
        guides: after.guides,
        selected: match before.selected {
            Some(selection) => if selection.frame == frame {
                before.selected
            } else {
                Some(Selection { frame, touched: true, ..selection })
            },
            None => None,
        },
        ..before
    })
}

/// The turn that the handle stands for.
pub open spec fn is_turned(drag: FrameDrag, from: Option<i64>, to: Option<i64>, r: i64) -> bool {
    if from is None || to is None {
        r == drag.start_rotation
    } else {
        is_normal(drag.start_rotation + to->0 - from->0, r as int)
    }
}

/// What following the handle that turns the block makes of the state.
pub open spec fn is_frame_turned(before: ViewerView, after: ViewerView, rotation: i64) -> bool {
    after == (ViewerView {
        selected: match before.selected {
            Some(selection) => if 20 * abs_of(selection.rotation - rotation) < POINT {
                before.selected
            } else {
                Some(Selection { rotation, touched: true, ..selection })
            },
            None => None,
        },
        ..before
    })
}

/// What came of letting the group go.
#[derive(Debug)]
pub enum GroupEnd {
    /// Nothing was dragged.
    Nothing,
    /// The group was put back where it was, or there is none.
    Stay,
    Moved(Vec<BlockEdit>),
}

/// What letting the group go does.
pub open spec fn is_group_end(
    before: ViewerView,
    after: ViewerView,
    pages: Seq<PageBlocks>,
    zoom: i64,
    outcome: GroupEnd,
) -> bool {
    match before.group_drag {
        None => outcome is Nothing && after == before,
        Some(drag) => if !meant(group_shift(drag, zoom)) || before.multi.len() == 0 {
            outcome is Stay && after == (ViewerView { group_drag: None, ..before })
        } else {
            &&& outcome matches GroupEnd::Moved(edits)
            &&& edit_views(edits@) == Seq::new(
                before.multi.len(),
                |i: int|
                    moved_edit(
                        pages,
                        before.multi[i],
                        shifted(
                            before.multi[i].bbox,
                            group_shift(drag, zoom).0,
                            group_shift(drag, zoom).1,
                        ),
                        None,
                    ),
            )
            &&& after == (ViewerView { group_drag: None, multi: Seq::empty(), ..before })
        },
    }
}

/// How far a group was dragged, to the right and upwards.
pub open spec fn group_shift(drag: GroupDrag, zoom: i64) -> (int, int) {
    (
        points(drag.current.x - drag.start.x, usable_zoom(zoom)),
        -points(drag.current.y - drag.start.y, usable_zoom(zoom)),
    )
}

/// Whether a shift is long enough to be meant.
pub open spec fn meant(shift: (int, int)) -> bool {
    2 * abs_of(shift.0) >= POINT || 2 * abs_of(shift.1) >= POINT
}

impl Viewer {
    /// Takes hold of the frame of the edited paragraph.
    pub fn begin_drag(&mut self, grip: Grip, origin: Spot) -> (r: bool)
        ensures
            r == (old(self)@.selected is Some),
            !r ==> final(self)@ == old(self)@,
            r ==> final(self)@ == (ViewerView {
                drag: Some(
                    FrameDrag {
                        grip,
                        origin,
                        start: old(self)@.selected->0.frame,
                        start_rotation: old(self)@.selected->0.rotation,
                    },
                ),
                ..old(self)@
            }),
    {
        let (start, start_rotation) = match &self.selected {
            Some(selection) => (selection.frame, selection.rotation),
            None => {
                return false;
            },
        };
        self.drag = Some(FrameDrag { grip, origin, start, start_rotation });
        true
    }

    /// The frames that the edited one is lined up with.
    pub fn snap_targets(&self, pages: &Vec<PageBlocks>) -> (r: Vec<Rect>)
        requires
            pages_placed(pages@),
        ensures
            r@ == neighbours(self@, pages@),
            all_sane_rects(r@),
    {
        let mut out: Vec<Rect> = Vec::new();
        let (page, own) = match &self.selected {
            Some(selection) => (selection.page, selection.bbox),
            None => {
                return out;
            },
        };
        let blocks = match find_page(pages, page) {
            Some(blocks) => blocks,
            None => {
                return out;
            },
        };
        let frames = block_frames(blocks);
        let mut i: usize = 0;
        while i < frames.len()
            invariant
                i <= frames@.len(),
                all_sane_rects(frames@),
                all_sane_rects(out@),
                out@ == frames_but(frames@.take(i as int), own),
            decreases frames@.len() - i,
        {
            assert(frames@.take(i + 1).drop_last() == frames@.take(i as int));
            if frames[i] != own {
                out.push(frames[i]);
            }
            i = i + 1;
        }
        assert(frames@.take(frames@.len() as int) == frames@);
        out
    }

    /// Follows the mouse with the frame, or with the turn of the block, and
    /// says whether the page has to be shown anew.
    ///
    /// `directions` are those from the centre of the frame to where the handle
    /// was grabbed and to where it is; there are none while the page is not
    /// known.
    pub fn drag_frame(
        &mut self,
        position: Spot,
        zoom: i64,
        pages: &Vec<PageBlocks>,
        directions: Option<(Option<i64>, Option<i64>)>,
    ) -> (r: bool)
        requires
            pages_placed(pages@),
            position.is_near(),
            old(self).drag matches Some(drag) ==> drag.origin.is_near() && drag.start.is_near()
                && sane(drag.start_rotation),
            old(self).selected matches Some(selection) ==> sane(selection.rotation),
            directions matches Some((from, to)) ==> (from matches Some(angle) ==> sane(angle)) && (
            to matches Some(angle) ==> sane(angle)),
        ensures
            match old(self)@.drag {
                None => !r && final(self)@ == old(self)@,
                Some(drag) => if drag.grip == Grip::Rotate {
                    match directions {
                        None => !r && final(self)@ == old(self)@,
                        Some((from, to)) => exists|rotation: i64|
                            {
                                &&& #[trigger] is_turned(drag, from, to, rotation)
                                &&& is_frame_turned(old(self)@, final(self)@, rotation)
                                &&& r == (old(self)@.selected matches Some(selection) && 20 * abs_of(
                                    selection.rotation - rotation,
                                ) >= POINT)
                            },
                    }
                } else {
                    exists|moved: Rect, frame: Rect|
                        {
                            &&& #[trigger] is_dragged(
                                drag.start,
                                drag.grip,
                                points(position.x - drag.origin.x, usable_zoom(zoom)),
                                points(position.y - drag.origin.y, usable_zoom(zoom)),
                                moved,
                            )
                            &&& #[trigger] is_frame_dragged(
                                old(self)@,
                                final(self)@,
                                pages@,
                                moved,
                                frame,
                            )
                            &&& r == (old(self)@.selected matches Some(selection) && selection.frame
                                != frame)
                        }
                },
            },
    {
        let drag = match self.drag {
            Some(drag) => drag,
            None => {
                return false;
            },
        };
        if drag.grip == Grip::Rotate {
            let (from, to) = match directions {
                Some(directions) => directions,
                None => {
                    return false;
                },
            };
            let rotation: i64 = rotated(drag.start_rotation, from, to);
            assert(is_turned(drag, from, to, rotation));
            let mut changed = false;
            if let Some(selection) = self.selected.as_mut() {
                changed = selection.turn_to(rotation);
            }
            assert(is_frame_turned(old(self)@, self@, rotation));
            return changed;
        }
        let scale: i64 = greatest(zoom, SMALLEST_SCALE);
        proof {
            lemma_points_bounded(position.x - drag.origin.x, scale as int);
            lemma_points_bounded(position.y - drag.origin.y, scale as int);
        }
        let dx: Points = points_of(position.x - drag.origin.x, scale);
        let dy: Points = points_of(position.y - drag.origin.y, scale);
        let moved = dragged(drag.start, drag.grip, dx, dy);
        assert(is_dragged(
            drag.start,
            drag.grip,
            points(position.x - drag.origin.x, usable_zoom(zoom)),
            points(position.y - drag.origin.y, usable_zoom(zoom)),
            moved,
        ));
        let (frame, guides) = if self.snapping {
            let targets = self.snap_targets(pages);
            snap(moved, drag.grip, targets.as_slice(), SNAP_TOLERANCE)
        } else {
            (moved, Vec::new())
        };
        self.guides = guides;
        let mut changed = false;
        if let Some(selection) = self.selected.as_mut() {
            if selection.frame != frame {
                selection.frame = frame;
                selection.touched = true;
                changed = true;
            }
        }
        assert(is_frame_dragged(old(self)@, self@, pages@, moved, frame));
        changed
    }

    /// Lets the group go: it is moved by as much as it was dragged.
    pub fn finish_group_drag(&mut self, pages: &Vec<PageBlocks>, zoom: i64) -> (r: GroupEnd)
        requires
            pages_fit(old(self).multi@),
            frames_fit(old(self).multi@),
            old(self).group_drag matches Some(drag) ==> drag.start.is_near()
                && drag.current.is_near(),
        ensures
            is_group_end(old(self)@, final(self)@, pages@, zoom, r),
    {
        let drag = match self.take_group_drag() {
            Some(drag) => drag,
            None => {
                return GroupEnd::Nothing;
            },
        };
        let scale: i64 = greatest(zoom, SMALLEST_SCALE);
        proof {
            lemma_points_bounded(drag.current.x - drag.start.x, scale as int);
            lemma_points_bounded(drag.current.y - drag.start.y, scale as int);
        }
        let dx: Points = points_of(drag.current.x - drag.start.x, scale);
        let dy: Points = -points_of(drag.current.y - drag.start.y, scale);
        let edits = shift_group(&self.multi, pages, dx, dy);
        proof {
            assert(edit_views(edits@).len() == edits@.len());
        }
        if edits.len() == 0 {
            return GroupEnd::Stay;
        }
        self.multi = Vec::new();
        GroupEnd::Moved(edits)
    }
}

/// What came of letting the mouse go.
#[derive(Debug)]
pub struct Release {
    pub group: GroupEnd,
    /// What a click on a block came to.
    pub click: Option<Opened>,
    pub band: BandEnd,
    /// A frame was let go, and the keyboard goes back to its text.
    pub frame: bool,
}

/// What a press that did not move does when it is let go: on a block it is a
/// click, and beside all it is nothing.
pub open spec fn is_click(
    before: ViewerView,
    after: ViewerView,
    pages: Seq<PageBlocks>,
    outcome: Option<Opened>,
) -> bool {
    let calm = ViewerView { pending_press: None, ..before };
    match before.pending_press {
        Some(PendingPress { page, block: Some(index), .. }) => {
            &&& outcome matches Some(opened)
            &&& is_opened(calm, after, pages, page, index, opened)
        },
        _ => outcome is None && after == calm,
    }
}

/// What letting the frame go does.
pub open spec fn is_frame_let_go(before: ViewerView, after: ViewerView, outcome: bool) -> bool {
    &&& outcome == (before.drag is Some)
    &&& after == if outcome {
        ViewerView { drag: None, guides: Seq::empty(), ..before }
    } else {
        before
    }
}

impl Viewer {
    /// The mouse is let go: first the group, then a click, then the band, and
    /// the frame last.
    pub fn mouse_up(
        &mut self,
        pages: &Vec<PageBlocks>,
        zoom: i64,
        band: Option<(Rect, BandMode)>,
    ) -> (r: Release)
        requires
            pages_readable(pages@),
            pages_fit(old(self).multi@),
            frames_fit(old(self).multi@),
            old(self).group_drag matches Some(drag) ==> drag.start.is_near()
                && drag.current.is_near(),
            old(self).rubber matches Some(rubber) ==> rubber.start.is_near()
                && rubber.current.is_near(),
            band matches Some((frame, _)) ==> frame.is_sane(),
        ensures
            exists|first: ViewerView, second: ViewerView, third: ViewerView|
                {
                    &&& #[trigger] is_group_end(old(self)@, first, pages@, zoom, r.group)
                    &&& #[trigger] is_click(first, second, pages@, r.click)
                    &&& #[trigger] is_band_end(second, third, band, pages@, r.band)
                    &&& is_frame_let_go(third, final(self)@, r.frame)
                },
    {
        let group = self.finish_group_drag(pages, zoom);
        let ghost first = self@;
        let click = match self.take_click() {
            Some((page, index)) => Some(self.select_block(page, index, pages)),
            None => None,
        };
        let ghost second = self@;
        assert(is_click(first, second, pages@, click));
        let band_end = self.finish_rubber(band, pages);
        let ghost third = self@;
        assert(is_band_end(second, third, band, pages@, band_end));
        let frame = self.drop_frame();
        assert(is_frame_let_go(third, self@, frame));
        Release { group, click, band: band_end, frame }
    }
}

/// A drag moves nothing but the frame and the guides.
pub proof fn a_drag_keeps_the_rest(
    before: ViewerView,
    after: ViewerView,
    pages: Seq<PageBlocks>,
    moved: Rect,
    frame: Rect,
)
    requires
        is_frame_dragged(before, after, pages, moved, frame),
    ensures
        after.multi == before.multi,
        after.drag == before.drag,
        before.selected is Some ==> after.selected is Some && after.selected->0.bbox
            == before.selected->0.bbox && after.selected->0.page == before.selected->0.page
            && after.selected->0.frame == frame,
{
}

/// What was typed is never lost to a press: while there is something to be
/// applied, a press changes nothing.
pub proof fn a_press_keeps_what_was_typed(
    v: ViewerView,
    pages: Seq<PageBlocks>,
    page: u32,
    block: Option<usize>,
    at: Spot,
)
    requires
        v.is_touched(),
    ensures
        press_meaning(v, pages, page, block) == Press::Apply,
        pressed(v, pages, page, block, at) == v,
{
}

/// A press that takes hold of the group keeps it, and any other drops it.
pub proof fn a_press_keeps_the_group_it_grabs(
    v: ViewerView,
    pages: Seq<PageBlocks>,
    page: u32,
    block: Option<usize>,
    at: Spot,
)
    requires
        !v.is_touched(),
    ensures
        press_meaning(v, pages, page, block) == Press::GrabGroup ==> pressed(
            v,
            pages,
            page,
            block,
            at,
        ).multi == v.multi,
        press_meaning(v, pages, page, block) == Press::Wait ==> pressed(
            v,
            pages,
            page,
            block,
            at,
        ).multi.len() == 0,
        pressed(v, pages, page, block, at).selected is None,
{
}

/// Picking a block twice leaves the group as it was.
pub proof fn picking_twice_is_picking_none(
    multi: Seq<MultiTarget>,
    page: u32,
    block: Block,
    k: int,
)
    requires
        !is_member(multi, page, block.bbox),
        0 <= k < multi.push(target_of(page, block)).len(),
        multi.push(target_of(page, block))[k].page == page,
        multi.push(target_of(page, block))[k].bbox == block.bbox,
    ensures
        multi.push(target_of(page, block)).remove(k) == multi,
{
    if k < multi.len() {
        assert(multi[k].page == page && multi[k].bbox == block.bbox);
    }
}

/// A style that styled characters have comes from a run.
proof fn lemma_run_of_cell(runs: Seq<RunView>, k: int) -> (i: int)
    requires
        0 <= k < cells_of(runs).len(),
    ensures
        0 <= i < runs.len(),
        runs[i].style == cells_of(runs)[k].1,
    decreases runs.len(),
{
    let fewer = cells_of(runs.drop_last());
    if k < fewer.len() {
        let i = lemma_run_of_cell(runs.drop_last(), k);
        assert(runs.drop_last()[i] == runs[i]);
        i
    } else {
        runs.len() - 1
    }
}

/// A block that is opened and applied as it was opened is not typeset anew: it
/// is put where it stands, turned as it stands, in the colours it has.
pub proof fn opening_a_block_changes_nothing(
    s: Selection,
    page: u32,
    block: Block,
    text: TextView,
    font: FontChoice,
)
    requires
        selects(s, page, block),
        page < u32::MAX,
        text.valid(),
        text.cells() == cells_of(block_runs(block.lines@, block.dominant.color)),
        font.same_family,
        font.face is None,
        font.size == shown_size(s.size),
    ensures
        edit_of(s, text, font) == EditView::Transform(
            BlockTransform {
                page_number: (page + 1) as u32,
                bbox: block.bbox,
                target: block.bbox,
                rotation: block.rotation,
                color: None,
                owner: block.mark,
            },
        ),
{
    let runs = block_runs(block.lines@, block.dominant.color);
    assert forall|i: int| 0 <= i < text.runs.len() implies {
        let style = (#[trigger] text.runs[i]).style;
        &&& style.family is None
        &&& style.size is None
        &&& style.color is None
        &&& style.bold == style.document_bold
        &&& style.italic == style.document_italic
        &&& !style.underline
        &&& style.script == Script::Baseline
    } by {
        let k = lemma_style_of_run(text.runs, i);
        let j = lemma_run_of_cell(runs, k);
        reading_a_block_edits_nothing(block.lines@, block.dominant.color, j);
    }
    a_block_is_moved_where_nothing_else_changed(s, text, font);
}

/// A block that is opened is shown as it stands on its page.
pub proof fn a_block_is_opened_as_it_stands(
    before: ViewerView,
    after: ViewerView,
    pages: Seq<PageBlocks>,
    page: u32,
    index: usize,
    outcome: Opened,
)
    requires
        is_opened(before, after, pages, page, index, outcome),
        blocks_of(pages, page) matches Some(blocks) && index < blocks.len(),
        before.drag is None,
    ensures
        ({
            let block = blocks_of(pages, page)->0[index as int];
            let edited = before.selected is Some && before.selected->0.page == page
                && before.selected->0.bbox == block.bbox;
            &&& after.multi.len() == 0
            &&& after.selected is Some
            &&& after.selected->0.page == page
            &&& after.selected->0.bbox == block.bbox
            &&& edited ==> after.selected == before.selected
            &&& !edited ==> {
                let s = after.selected->0;
                &&& s.frame == block.bbox
                &&& s.rotation == block.rotation
                &&& s.size == block.dominant.size
                &&& s.family@ == block.dominant.family@
                &&& s.align == block.align
                &&& s.line_height == block.leading
                &&& s.style_id == block.style
                &&& s.owner == block.mark
                &&& !s.creating
                &&& !s.touched
                &&& after.focus_editor
                &&& outcome is Text
                &&& outcome->Text_0@.text() == s.original_text@
            }
        }),
{
}

/// Picking a block with others adds it to the group, or takes it out, and says
/// nothing of any other block: the others stay, in their order.
pub proof fn picking_a_block_leaves_the_others(
    before: Seq<MultiTarget>,
    after: Seq<MultiTarget>,
    page: u32,
    block: Block,
)
    requires
        is_toggled(before, after, page, Some(block)),
        forall|i: int, j: int|
            0 <= i < j < before.len() ==> !((#[trigger] before[i]).page == (
            #[trigger] before[j]).page && before[i].bbox == before[j].bbox),
    ensures
        ({
            let other = |t: MultiTarget| !(t.page == page && t.bbox == block.bbox);
            &&& after.filter(other) == before.filter(other)
            &&& is_member(after, page, block.bbox) != is_member(before, page, block.bbox)
        }),
{
    let other = |t: MultiTarget| !(t.page == page && t.bbox == block.bbox);
    if is_member(before, page, block.bbox) {
        let k = choose|k: int|
            {
                &&& 0 <= k < before.len()
                &&& (#[trigger] before[k]).page == page
                &&& before[k].bbox == block.bbox
                &&& after == before.remove(k)
                &&& forall|m: int|
                    0 <= m < k ==> !((#[trigger] before[m]).page == page && before[m].bbox
                        == block.bbox)
            };
        let head = before.take(k);
        let tail = before.skip(k + 1);
        assert(before == head.push(before[k]) + tail);
        assert(after == head + tail);
        Seq::filter_distributes_over_add(head.push(before[k]), tail, other);
        Seq::filter_distributes_over_add(head, tail, other);
        reveal(Seq::filter);
        assert(head.push(before[k]).drop_last() == head);
        assert forall|i: int| 0 <= i < after.len() implies !((#[trigger] after[i]).page == page
            && after[i].bbox == block.bbox) by {
            if i < k {
                assert(after[i] == before[i]);
            } else {
                assert(after[i] == before[i + 1]);
                assert(!(before[k].page == before[i + 1].page && before[k].bbox == before[i
                    + 1].bbox));
            }
        }
    } else {
        reveal(Seq::filter);
        assert(after.drop_last() == before);
        assert(after[before.len() as int].page == page);
    }
}

/// A band that picks several blocks makes them the group: a block of the page
/// is in it exactly where the band, drawn to the right, holds its frame or,
/// drawn to the left, touches it.
pub proof fn a_band_makes_what_it_picked_the_group(
    before: ViewerView,
    after: ViewerView,
    band: (Rect, BandMode),
    pages: Seq<PageBlocks>,
    outcome: BandEnd,
    blocks: Seq<Block>,
    i: usize,
)
    requires
        is_band_end(before, after, Some(band), pages, outcome),
        outcome is Group,
        before.rubber is Some,
        blocks_of(pages, before.rubber->0.page) == Some(blocks),
        blocks.len() <= usize::MAX,
        i < blocks.len(),
    ensures
        ({
            let (b, mode) = band;
            let f = blocks[i as int].bbox;
            let target = MultiTarget {
                page: before.rubber->0.page,
                bbox: f,
                owner: blocks[i as int].mark,
                size: blocks[i as int].dominant.size,
                line_height: blocks[i as int].leading,
                align: blocks[i as int].align,
            };
            &&& after.multi.len() >= 2
            &&& mode == BandMode::Window && b.left <= f.left && f.right <= b.right && b.bottom
                <= f.bottom && f.top <= b.top ==> after.multi.contains(target)
            &&& mode == BandMode::Crossing && f.left <= b.right && b.left <= f.right && f.bottom
                <= b.top && b.bottom <= f.top ==> after.multi.contains(target)
            &&& forall|k: int|
                0 <= k < after.multi.len() ==> {
                    let m = #[trigger] after.multi[k];
                    &&& m.page == before.rubber->0.page
                    &&& mode == BandMode::Window ==> b.left <= m.bbox.left && m.bbox.right
                        <= b.right && b.bottom <= m.bbox.bottom && m.bbox.top <= b.top
                    &&& mode == BandMode::Crossing ==> m.bbox.left <= b.right && b.left
                        <= m.bbox.right && m.bbox.bottom <= b.top && b.bottom <= m.bbox.top
                }
        }),
{
    let (b, mode) = band;
    let frames = frames_of(blocks);
    let chosen = picked(b, mode, frames);
    let page = before.rubber->0.page;
    crate::frame::lemma_picked_in_range(b, mode, frames);
    a_band_picks_what_it_holds_or_touches(b, mode, frames, i);
    if chosen.contains(i) {
        let k = choose|k: int| 0 <= k < chosen.len() && chosen[k] == i;
        assert(after.multi[k] == target_of(page, blocks[i as int]));
    }
    assert forall|k: int| 0 <= k < after.multi.len() implies {
        let m = #[trigger] after.multi[k];
        &&& m.page == page
        &&& mode == BandMode::Window ==> b.left <= m.bbox.left && m.bbox.right <= b.right
            && b.bottom <= m.bbox.bottom && m.bbox.top <= b.top
        &&& mode == BandMode::Crossing ==> m.bbox.left <= b.right && b.left <= m.bbox.right
            && m.bbox.bottom <= b.top && b.bottom <= m.bbox.top
    } by {
        let c = chosen[k];
        assert(chosen.contains(c));
        a_band_picks_what_it_holds_or_touches(b, mode, frames, c);
        assert(after.multi[k] == target_of(page, blocks[c as int]));
    }
}

/// A band drawn with the text tool becomes a new block in its place, where it
/// is at least twenty points wide and eight high, and the tool is laid down.
pub proof fn a_new_block_stands_where_it_was_drawn(
    before: ViewerView,
    after: ViewerView,
    band: (Rect, BandMode),
    pages: Seq<PageBlocks>,
    outcome: BandEnd,
)
    requires
        is_band_end(before, after, Some(band), pages, outcome),
        before.tool == Tool::Text,
        before.rubber is Some,
        far_apart(before.rubber->0.start, before.rubber->0.current),
    ensures
        ({
            let frame = band.0;
            let large = frame.left + 20 * POINT <= frame.right && frame.bottom + 8 * POINT
                <= frame.top;
            &&& after.rubber is None
            &&& after.multi == before.multi
            &&& !large ==> after.selected == before.selected && after.tool == Tool::Text
            &&& large ==> {
                let s = after.selected->0;
                &&& outcome is NewBlock
                &&& after.tool == Tool::Cursor
                &&& after.selected is Some
                &&& s.creating
                &&& s.page == before.rubber->0.page
                &&& s.frame == frame
                &&& s.bbox == frame
                &&& s.original_text@.len() == 0
                &&& s.size == 12 * POINT
                &&& s.rotation == 0
            }
        }),
{
}

/// A group that is let go lies as far from where it was as the mouse went, to
/// the right and down, at the zoom of the page; every block of it goes along.
/// Less than half a point is no move.
pub proof fn a_group_goes_as_far_as_the_mouse(
    before: ViewerView,
    after: ViewerView,
    pages: Seq<PageBlocks>,
    zoom: i64,
    outcome: GroupEnd,
    i: int,
)
    requires
        is_group_end(before, after, pages, zoom, outcome),
        outcome is Moved,
        0 <= i < before.multi.len(),
        zoom >= SMALLEST_SCALE,
        pages_fit(before.multi),
        frames_fit(before.multi),
        before.group_drag matches Some(drag) && drag.start.is_near() && drag.current.is_near(),
    ensures
        ({
            let edits = edit_views(outcome->Moved_0@);
            let edit = edits[i]->Transform_0;
            let from = before.multi[i].bbox;
            let right = before.group_drag->0.current.x - before.group_drag->0.start.x;
            let down = before.group_drag->0.current.y - before.group_drag->0.start.y;
            let dx = edit.target.left - from.left;
            let dy = from.top - edit.target.top;
            &&& edits.len() == before.multi.len()
            &&& edits[i] is Transform
            &&& edit.page_number == before.multi[i].page + 1
            &&& edit.bbox == from
            &&& edit.color is None
            &&& dx * zoom <= right * POINT < (dx + 1) * zoom
            &&& dy * zoom <= down * POINT < (dy + 1) * zoom
            &&& edit.target.right - edit.target.left == from.right - from.left
            &&& edit.target.top - edit.target.bottom == from.top - from.bottom
            &&& 2 * dx >= POINT || 2 * dx <= -POINT || 2 * dy >= POINT || 2 * dy <= -POINT
            &&& after.multi.len() == 0
            &&& after.group_drag is None
        }),
{
    let drag = before.group_drag->0;
    let (dx, dy) = group_shift(drag, zoom);
    lemma_points(drag.current.x - drag.start.x, zoom as int);
    lemma_points(drag.current.y - drag.start.y, zoom as int);
    lemma_points_bounded(drag.current.x - drag.start.x, zoom as int);
    lemma_points_bounded(drag.current.y - drag.start.y, zoom as int);
    assert(before.multi[i].bbox.is_near());
    assert(before.multi[i].page < u32::MAX);
    a_block_goes_where_it_is_put(pages, before.multi[i], dx, dy, None);
    let edits = edit_views(outcome->Moved_0@);
    assert(edits[i] == moved_edit(
        pages,
        before.multi[i],
        shifted(before.multi[i].bbox, dx, dy),
        None,
    ));
}

/// A group that moved by half a point or more is moved, and one that did not is
/// kept as it was.
pub proof fn a_group_that_moved_is_moved(
    before: ViewerView,
    after: ViewerView,
    pages: Seq<PageBlocks>,
    zoom: i64,
    outcome: GroupEnd,
)
    requires
        is_group_end(before, after, pages, zoom, outcome),
        zoom >= SMALLEST_SCALE,
        before.group_drag is Some,
        before.multi.len() > 0,
    ensures
        ({
            let right = before.group_drag->0.current.x - before.group_drag->0.start.x;
            let down = before.group_drag->0.current.y - before.group_drag->0.start.y;
            &&& 2 * right >= zoom || 2 * right <= -zoom || 2 * down >= zoom || 2 * down
                <= -zoom ==> outcome is Moved
            &&& right == 0 && down == 0 ==> outcome is Stay && after.multi == before.multi
        }),
{
    let right = before.group_drag->0.current.x - before.group_drag->0.start.x;
    let down = before.group_drag->0.current.y - before.group_drag->0.start.y;
    lemma_half_a_point(right, zoom as int);
    lemma_half_a_point(down, zoom as int);
}

proof fn lemma_half_a_point(length: int, zoom: int)
    requires
        zoom > 0,
    ensures
        2 * length >= zoom || 2 * length <= -zoom ==> 2 * abs_of(points(length, zoom))
            >= POINT,
        length == 0 ==> points(length, zoom) == 0,
{
    let p = points(length, zoom);
    lemma_points(length, zoom);
    if length == 0 {
        assert(p == 0) by (nonlinear_arith)
            requires
                p * zoom <= 0,
                0 < (p + 1) * zoom,
                zoom > 0,
        ;
    }
    if 2 * length >= zoom && 2 * p < POINT {
        assert(length * POINT >= (p + 1) * zoom) by (nonlinear_arith)
            requires
                2 * length >= zoom,
                p + 1 <= POINT / 2,
                POINT == 0x100_0000,
                zoom > 0,
        ;
    }
    if 2 * length <= -zoom && 2 * p > -POINT {
        assert(length * POINT < p * zoom) by (nonlinear_arith)
            requires
                2 * length <= -zoom,
                p > -(POINT / 2),
                POINT == 0x100_0000,
                zoom > 0,
        ;
    }
}

/// The edited frame is lined up with those of the other blocks of its page:
/// with all of them, but not with its own block.
pub proof fn a_frame_is_lined_up_with_the_other_blocks(
    v: ViewerView,
    pages: Seq<PageBlocks>,
    blocks: Seq<Block>,
    i: int,
)
    requires
        v.selected is Some,
        blocks_of(pages, v.selected->0.page) == Some(blocks),
        0 <= i < blocks.len(),
    ensures
        neighbours(v, pages).contains(blocks[i].bbox) <==> blocks[i].bbox != v.selected->0.bbox,
        neighbours(v, pages).len() <= blocks.len(),
        forall|k: int|
            0 <= k < neighbours(v, pages).len() ==> frames_of(blocks).contains(
                #[trigger] neighbours(v, pages)[k],
            ),
        SNAP_TOLERANCE == 4 * POINT,
{
    lemma_frames_but(frames_of(blocks), v.selected->0.bbox);
    assert(frames_of(blocks)[i] == blocks[i].bbox);
}

proof fn lemma_frames_but(frames: Seq<Rect>, own: Rect)
    ensures
        frames_but(frames, own).len() <= frames.len(),
        forall|i: int|
            0 <= i < frames.len() ==> (frames_but(frames, own).contains(#[trigger] frames[i])
                <==> frames[i] != own),
        forall|k: int|
            0 <= k < frames_but(frames, own).len() ==> frames.contains(
                #[trigger] frames_but(frames, own)[k],
            ),
        !frames_but(frames, own).contains(own),
    decreases frames.len(),
{
    if frames.len() > 0 {
        let fewer = frames.drop_last();
        let all = frames_but(frames, own);
        let before = frames_but(fewer, own);
        lemma_frames_but(fewer, own);
        assert forall|k: int| 0 <= k < all.len() implies frames.contains(#[trigger] all[k]) by {
            if k < before.len() {
                assert(all[k] == before[k]);
                let j = choose|j: int| 0 <= j < fewer.len() && fewer[j] == before[k];
                assert(frames[j] == all[k]);
            } else {
                assert(frames[frames.len() - 1] == all[k]);
            }
        }
        assert(!all.contains(own));
        assert forall|i: int| 0 <= i < frames.len() implies (all.contains(#[trigger] frames[i])
            <==> frames[i] != own) by {
            if i < fewer.len() {
                assert(fewer[i] == frames[i]);
                if before.contains(fewer[i]) {
                    let j = choose|j: int| 0 <= j < before.len() && before[j] == fewer[i];
                    assert(all[j] == frames[i]);
                }
            } else if frames[i] != own {
                assert(all[before.len() as int] == frames[i]);
            }
        }
    }
}

/// A drag of the frame is an edit exactly where the frame changes.
pub proof fn a_dragged_frame_is_an_edit(
    before: ViewerView,
    after: ViewerView,
    pages: Seq<PageBlocks>,
    moved: Rect,
    frame: Rect,
)
    requires
        is_frame_dragged(before, after, pages, moved, frame),
        before.selected is Some,
    ensures
        after.selected is Some,
        after.selected->0.frame == frame,
        after.selected->0.touched == (before.selected->0.touched || frame
            != before.selected->0.frame),
        !before.snapping ==> frame == moved && after.guides.len() == 0,
        after.selected->0.rotation == before.selected->0.rotation,
{
}

/// Following the handle turns the block by the angle between the two
/// directions, to the full circle; a turn of less than a twentieth of a degree
/// is none.
pub proof fn the_handle_turns_the_block(
    before: ViewerView,
    after: ViewerView,
    drag: FrameDrag,
    from: i64,
    to: i64,
    rotation: i64,
)
    requires
        is_turned(drag, Some(from), Some(to), rotation),
        is_frame_turned(before, after, rotation),
        before.selected is Some,
    ensures
        -180 * POINT < rotation <= 180 * POINT,
        ({
            let angle = drag.start_rotation + to - from;
            angle == rotation + 360 * POINT * ((angle - rotation) / (360 * POINT))
        }),
        after.selected is Some,
        ({
            let was = before.selected->0.rotation;
            let near = -POINT < 20 * (rotation - was) < POINT;
            &&& near ==> after.selected == before.selected
            &&& !near ==> after.selected->0.rotation == rotation && after.selected->0.touched
            &&& after.selected->0.frame == before.selected->0.frame
        }),
{
    a_normal_angle_is_the_same_turn(drag.start_rotation + to - from, rotation as int);
}

/// The menu of a block is about that block: afterwards it is edited, or it is
/// in the group.
pub proof fn a_menu_is_about_its_block(
    v: ViewerView,
    pages: Seq<PageBlocks>,
    page: u32,
    index: usize,
    blocks: Seq<Block>,
)
    requires
        blocks_of(pages, page) == Some(blocks),
        index < blocks.len(),
    ensures
        ({
            let after = menu_opened(v, pages, page, Some(index));
            let bbox = blocks[index as int].bbox;
            let edited = v.selected is Some && v.selected->0.page == page && v.selected->0.bbox
                == bbox;
            &&& edited || is_member(after.multi, page, bbox)
            &&& edited || is_member(v.multi, page, bbox) ==> after == v
            &&& !edited && !is_member(v.multi, page, bbox) ==> after.multi.len() == 1
            &&& v.selected is Some && v.selected->0.touched ==> after.selected == v.selected
        }),
{
    let after = menu_opened(v, pages, page, Some(index));
    if reselects(v, pages, page, Some(index)) {
        assert(after.multi[0].page == page && after.multi[0].bbox == blocks[index as int].bbox);
    }
}

/// While the button is held, a press becomes a band once it is more than eight
/// pixels away; the band starts where the press was and ends at the mouse.
pub proof fn a_press_becomes_a_band(v: ViewerView, to: Spot, held: bool)
    requires
        v.pending_press is Some,
    ensures
        ({
            let press = v.pending_press->0;
            let after = moved_to(v, to, held);
            let still = -8 * POINT <= to.x - press.at.x <= 8 * POINT && -8 * POINT <= to.y
                - press.at.y <= 8 * POINT;
            &&& !held || still ==> after.pending_press == v.pending_press
            &&& held && !still ==> {
                &&& after.pending_press is None
                &&& after.rubber == Some(
                    Rubber { page: press.page, block: press.block, start: press.at, current: to },
                )
            }
            &&& !held ==> after == v
            &&& after.selected == v.selected
            &&& after.multi == v.multi
        }),
{
}

/// Once the mouse moved, the band and the dragged group reach to it, from where
/// they were started.
pub proof fn what_is_dragged_reaches_to_the_mouse(v: ViewerView, to: Spot)
    ensures
        ({
            let after = moved_to(v, to, true);
            &&& after.rubber is Some ==> after.rubber->0.current == to
            &&& v.rubber is Some && v.pending_press is None ==> after.rubber is Some
                && after.rubber->0.start == v.rubber->0.start && after.rubber->0.page
                == v.rubber->0.page && after.rubber->0.block == v.rubber->0.block
            &&& after.group_drag is Some <==> v.group_drag is Some
            &&& after.group_drag is Some ==> after.group_drag->0.current == to
                && after.group_drag->0.start == v.group_drag->0.start
                && after.group_drag->0.page == v.group_drag->0.page
        }),
{
}

} // verus!
