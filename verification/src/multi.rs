//! What is done to a group of blocks at once. The edits go out together, and
//! the group is empty then: its blocks are others.
use crate::clipboard::{blocks_near, landings, select_pasted};
use crate::document::{edit_views, BlockEdit, BlockErase, EditView};
use crate::geometry::Rect;
use crate::group::{
    blocks_of, erase_group, find_page, frames_fit, group_fits, group_rewrites, hull_of,
    leading_fits, line_up_group, line_ups, moved_edit, pages_fit, recolor_group, rewrite_group,
    GroupChange, LineUp, PageBlocks,
};
use crate::joining::{is_joined, join_blocks, join_fits, Joined};
use crate::units::Color;
use crate::viewer::{Viewer, ViewerView};
use vstd::prelude::*;

verus! {

/// What came of looking for pasted copies.
#[derive(Clone, Copy, Debug, PartialEq, Eq, Structural)]
pub enum Landing {
    /// The page is not read anew yet.
    Waiting,
    /// Nothing was pasted.
    Nothing,
    /// So many copies are the group now.
    Selected(usize),
}

impl ViewerView {
    /// The state once edits of the group went out; without any it stays.
    pub open spec fn after_edits(self, edits: nat) -> ViewerView {
        if edits > 0 {
            ViewerView { multi: Seq::empty(), ..self }
        } else {
            self
        }
    }
}

impl Viewer {
    /// Empties the group where there are edits of it.
    fn sent(&mut self, edits: &Vec<BlockEdit>)
        ensures
            final(self)@ == old(self)@.after_edits(edits@.len()),
    {
        if edits.len() > 0 {
            self.clear_multi();
        }
    }

    /// Changes the text or the paragraph of every block.
    pub fn multi_restyle(&mut self, pages: &Vec<PageBlocks>, change: &GroupChange) -> (r: Vec<
        BlockEdit,
    >)
        requires
            group_fits(old(self).multi@, pages@),
            leading_fits(old(self).multi@, *change),
        ensures
            edit_views(r@) == group_rewrites(
                old(self)@.multi,
                pages@,
                *change,
                old(self)@.multi.len() as int,
            ),
            final(self)@ == old(self)@.after_edits(r@.len()),
    {
        let edits = rewrite_group(&self.multi, pages, change);
        self.sent(&edits);
        edits
    }

    /// Gives every block a colour.
    pub fn multi_set_color(&mut self, pages: &Vec<PageBlocks>, color: Color) -> (r: Vec<BlockEdit>)
        requires
            pages_fit(old(self).multi@),
        ensures
            edit_views(r@) == Seq::new(
                old(self)@.multi.len(),
                |i: int|
                    moved_edit(
                        pages@,
                        old(self)@.multi[i],
                        old(self)@.multi[i].bbox,
                        Some(color),
                    ),
            ),
            final(self)@ == old(self)@.after_edits(r@.len()),
    {
        let edits = recolor_group(&self.multi, pages, color);
        self.sent(&edits);
        edits
    }

    /// Lines the blocks up by their common frame. One block alone stays where
    /// it is, and stays selected.
    pub fn multi_align(&mut self, pages: &Vec<PageBlocks>, mode: LineUp) -> (r: Vec<BlockEdit>)
        requires
            pages_fit(old(self).multi@),
            frames_fit(old(self).multi@),
        ensures
            ({
                let targets = old(self)@.multi;
                let count = targets.len() as int;
                &&& count < 2 ==> r@.len() == 0
                &&& count >= 2 ==> edit_views(r@) == line_ups(
                    targets,
                    pages@,
                    mode,
                    hull_of(targets, count),
                    count,
                )
            }),
            final(self)@ == old(self)@.after_edits(r@.len()),
    {
        let edits = line_up_group(&self.multi, pages, mode);
        self.sent(&edits);
        edits
    }

    /// Takes every block off its page.
    pub fn delete_multi(&mut self) -> (r: Vec<BlockEdit>)
        requires
            pages_fit(old(self).multi@),
        ensures
            edit_views(r@) == Seq::new(
                old(self)@.multi.len(),
                |i: int|
                    EditView::Erase(
                        BlockErase {
                            page_number: (old(self)@.multi[i].page + 1) as u32,
                            bbox: old(self)@.multi[i].bbox,
                            owner: old(self)@.multi[i].owner,
                        },
                    ),
            ),
            r@.len() == old(self)@.multi.len(),
            forall|i: int|
                0 <= i < r@.len() ==> {
                    let erase = (#[trigger] r@[i])@->Erase_0;
                    &&& r@[i]@ is Erase
                    &&& erase.page_number - 1 == old(self)@.multi[i].page
                    &&& erase.bbox == old(self)@.multi[i].bbox
                    &&& erase.owner == old(self)@.multi[i].owner
                },
            final(self)@ == (ViewerView { multi: Seq::empty(), ..old(self)@ }),
    {
        let edits = erase_group(&self.multi);
        self.clear_multi();
        edits
    }

    /// Joins the blocks into one paragraph. Where that is refused, they stay
    /// selected.
    pub fn group_multi(&mut self, pages: &Vec<PageBlocks>) -> (r: Joined)
        requires
            join_fits(old(self).multi@, pages@),
        ensures
            is_joined(old(self)@.multi, pages@, r),
            r is Edits ==> final(self)@ == (ViewerView { multi: Seq::empty(), ..old(self)@ }),
            !(r is Edits) ==> final(self)@ == old(self)@,
    {
        let outcome = join_blocks(&self.multi, pages);
        if let Joined::Edits(_) = &outcome {
            self.clear_multi();
        }
        outcome
    }

    /// Selects the copies that were pasted to a page, once all have come: they
    /// alone are the group then, and no block is edited.
    pub fn select_pasted(&mut self, page: u32, places: &Vec<Rect>, pages: &Vec<PageBlocks>) -> (r:
        Landing)
        requires
            blocks_of(pages@, page) matches Some(blocks) ==> blocks_near(blocks),
            forall|i: int| 0 <= i < places@.len() ==> (#[trigger] places@[i]).is_near(),
        ensures
            ({
                let found = match blocks_of(pages@, page) {
                    Some(blocks) => landings(page, blocks, places@, places@.len() as int),
                    None => None,
                };
                match found {
                    None => r is Waiting && final(self)@ == old(self)@,
                    Some(found) => if found.len() == 0 {
                        r is Nothing && final(self)@ == old(self)@
                    } else {
                        &&& r == Landing::Selected(found.len() as usize)
                        &&& final(self)@ == (ViewerView {
                            selected: None,
                            multi: found,
                            ..old(self)@
                        })
                    },
                }
            }),
    {
        let blocks = match find_page(pages, page) {
            Some(blocks) => blocks,
            None => {
                return Landing::Waiting;
            },
        };
        match select_pasted(page, blocks, places) {
            None => Landing::Waiting,
            Some(found) => {
                let count: usize = found.len();
                if count == 0 {
                    return Landing::Nothing;
                }
                self.selected = None;
                self.multi = found;
                Landing::Selected(count)
            },
        }
    }

    /// Makes ready for an operation on pages: the numbers of blocks are about
    /// to change, so the selection and the group are given up.
    pub fn before_page_op(&mut self)
        ensures
            final(self)@ == (ViewerView { multi: Seq::empty(), ..old(self)@.cleared() }),
    {
        self.clear_selection();
        self.clear_multi();
    }
}

} // verus!
