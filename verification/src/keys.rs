//! The keys of the viewer.
use crate::text_element::same_str;
use crate::units::POINT;
use vstd::prelude::*;

verus! {

/// By how much a key or a button changes the zoom.
pub const ZOOM_STEP: i64 = 0x140_0000;

/// The step of the zoom downwards, four fifths to the nearest unit.
pub const ZOOM_STEP_DOWN: i64 = 13_421_773;

/// What a key does.
#[derive(Clone, Copy, Debug, PartialEq, Eq, Structural)]
pub enum ViewerKey {
    Nothing,
    CloseMenu,
    CloseFontPicker,
    CopyPages,
    PastePages,
    CutPages,
    PickAllPages,
    DeletePages,
    CloseGrid,
    /// Closes the grid and shows the first page that is picked.
    OpenPicked,
    Undo,
    Redo,
    Save,
    ZoomBy(i64),
    ZoomTo(i64),
    ClearSelection,
    CopyBlocks,
    PasteBlocks,
    DeleteGroup,
    ToggleBlocks,
}

/// What the keys depend on.
#[derive(Clone, Copy, Debug, PartialEq, Eq, Structural)]
pub struct KeyState {
    pub menu_open: bool,
    pub font_picker_open: bool,
    /// The grid of pages is shown.
    pub grid: bool,
    /// Several blocks are selected.
    pub group: bool,
    /// A paragraph is edited.
    pub editing: bool,
}

/// What a key does in the grid of pages: there the pages are what the keys
/// are about.
pub open spec fn grid_key(key: Seq<char>, control: bool) -> ViewerKey {
    if key == "c"@ && control {
        ViewerKey::CopyPages
    } else if key == "v"@ && control {
        ViewerKey::PastePages
    } else if key == "x"@ && control {
        ViewerKey::CutPages
    } else if key == "a"@ && control {
        ViewerKey::PickAllPages
    } else if key == "delete"@ || key == "backspace"@ {
        ViewerKey::DeletePages
    } else if key == "z"@ && control {
        ViewerKey::Undo
    } else if key == "y"@ && control {
        ViewerKey::Redo
    } else if key == "s"@ && control {
        ViewerKey::Save
    } else if key == "escape"@ {
        ViewerKey::CloseGrid
    } else if key == "enter"@ {
        ViewerKey::OpenPicked
    } else {
        ViewerKey::Nothing
    }
}

/// What a key does while a document is read.
pub open spec fn reading_key(key: Seq<char>, control: bool, state: KeyState) -> ViewerKey {
    if (key == "="@ || key == "+"@) && control {
        ViewerKey::ZoomBy(ZOOM_STEP)
    } else if key == "-"@ && control {
        ViewerKey::ZoomBy(ZOOM_STEP_DOWN)
    } else if key == "0"@ && control {
        ViewerKey::ZoomTo(POINT)
    } else if key == "s"@ && control {
        ViewerKey::Save
    } else if key == "z"@ && control {
        ViewerKey::Undo
    } else if key == "y"@ && control {
        ViewerKey::Redo
    } else if key == "escape"@ {
        ViewerKey::ClearSelection
    } else if key == "c"@ && control {
        ViewerKey::CopyBlocks
    } else if key == "v"@ && control {
        ViewerKey::PasteBlocks
    } else if (key == "delete"@ || key == "backspace"@) && state.group {
        ViewerKey::DeleteGroup
    } else if key == "b"@ && !state.editing {
        ViewerKey::ToggleBlocks
    } else {
        ViewerKey::Nothing
    }
}

/// What a key does.
pub open spec fn key_meaning(key: Seq<char>, control: bool, state: KeyState) -> ViewerKey {
    if state.menu_open && key == "escape"@ {
        ViewerKey::CloseMenu
    } else if state.font_picker_open && key == "escape"@ {
        ViewerKey::CloseFontPicker
    } else if state.grid {
        grid_key(key, control)
    } else {
        reading_key(key, control, state)
    }
}

fn on_grid_key(key: &str, control: bool) -> (r: ViewerKey)
    ensures
        r == grid_key(key@, control),
{
    if control {
        if same_str(key, "c") {
            return ViewerKey::CopyPages;
        }
        if same_str(key, "v") {
            return ViewerKey::PastePages;
        }
        if same_str(key, "x") {
            return ViewerKey::CutPages;
        }
        if same_str(key, "a") {
            return ViewerKey::PickAllPages;
        }
    }
    if same_str(key, "delete") || same_str(key, "backspace") {
        return ViewerKey::DeletePages;
    }
    if control {
        if same_str(key, "z") {
            return ViewerKey::Undo;
        }
        if same_str(key, "y") {
            return ViewerKey::Redo;
        }
        if same_str(key, "s") {
            return ViewerKey::Save;
        }
    }
    if same_str(key, "escape") {
        ViewerKey::CloseGrid
    } else if same_str(key, "enter") {
        ViewerKey::OpenPicked
    } else {
        ViewerKey::Nothing
    }
}

fn on_reading_key(key: &str, control: bool, state: KeyState) -> (r: ViewerKey)
    ensures
        r == reading_key(key@, control, state),
{
    if control {
        if same_str(key, "=") || same_str(key, "+") {
            return ViewerKey::ZoomBy(ZOOM_STEP);
        }
        if same_str(key, "-") {
            return ViewerKey::ZoomBy(ZOOM_STEP_DOWN);
        }
        if same_str(key, "0") {
            return ViewerKey::ZoomTo(POINT);
        }
        if same_str(key, "s") {
            return ViewerKey::Save;
        }
        if same_str(key, "z") {
            return ViewerKey::Undo;
        }
        if same_str(key, "y") {
            return ViewerKey::Redo;
        }
    }
    if same_str(key, "escape") {
        return ViewerKey::ClearSelection;
    }
    if control {
        if same_str(key, "c") {
            return ViewerKey::CopyBlocks;
        }
        if same_str(key, "v") {
            return ViewerKey::PasteBlocks;
        }
    }
    if state.group && (same_str(key, "delete") || same_str(key, "backspace")) {
        return ViewerKey::DeleteGroup;
    }
    if !state.editing && same_str(key, "b") {
        return ViewerKey::ToggleBlocks;
    }
    ViewerKey::Nothing
}

/// What a key does. An open menu, and then an open list of fonts, is what the
/// escape key closes first.
pub fn on_key(key: &str, control: bool, state: KeyState) -> (r: ViewerKey)
    ensures
        r == key_meaning(key@, control, state),
{
    if state.menu_open && same_str(key, "escape") {
        return ViewerKey::CloseMenu;
    }
    if state.font_picker_open && same_str(key, "escape") {
        return ViewerKey::CloseFontPicker;
    }
    if state.grid {
        on_grid_key(key, control)
    } else {
        on_reading_key(key, control, state)
    }
}

/// While a paragraph is edited, keys without a control key go to its text: all
/// but the one that gives up, and those that delete a group.
pub proof fn letters_go_to_the_text(key: Seq<char>, state: KeyState)
    requires
        state.editing,
        !state.grid,
        key != "escape"@,
        state.group ==> key != "delete"@ && key != "backspace"@,
    ensures
        key_meaning(key, false, state) == ViewerKey::Nothing,
{
}

/// The escape key closes the menu first, then the list of fonts, then the grid,
/// and gives the selection up last.
pub proof fn escape_closes_what_is_on_top(control: bool, state: KeyState)
    ensures
        ({
            let does = key_meaning("escape"@, control, state);
            &&& state.menu_open ==> does == ViewerKey::CloseMenu
            &&& !state.menu_open && state.font_picker_open ==> does == ViewerKey::CloseFontPicker
            &&& !state.menu_open && !state.font_picker_open && state.grid ==> does
                == ViewerKey::CloseGrid
            &&& !state.menu_open && !state.font_picker_open && !state.grid ==> does
                == ViewerKey::ClearSelection
        }),
{
    lemma_key_names();
}

/// The names of the keys are different ones.
proof fn lemma_key_names()
    ensures
        "c"@ == seq!['c'],
        "v"@ == seq!['v'],
        "x"@ == seq!['x'],
        "a"@ == seq!['a'],
        "z"@ == seq!['z'],
        "y"@ == seq!['y'],
        "s"@ == seq!['s'],
        "b"@ == seq!['b'],
        "0"@ == seq!['0'],
        "="@ == seq!['='],
        "+"@ == seq!['+'],
        "-"@ == seq!['-'],
        "c"@[0] == 'c',
        "v"@[0] == 'v',
        "x"@[0] == 'x',
        "a"@[0] == 'a',
        "z"@[0] == 'z',
        "y"@[0] == 'y',
        "s"@[0] == 's',
        "b"@[0] == 'b',
        "0"@[0] == '0',
        "="@[0] == '=',
        "+"@[0] == '+',
        "-"@[0] == '-',
        "escape"@.len() == 6,
        "delete"@.len() == 6,
        "escape"@[0] == 'e',
        "delete"@[0] == 'd',
        "enter"@.len() == 5,
        "backspace"@.len() == 9,
{
    reveal_strlit("c");
    reveal_strlit("v");
    reveal_strlit("x");
    reveal_strlit("a");
    reveal_strlit("z");
    reveal_strlit("y");
    reveal_strlit("s");
    reveal_strlit("b");
    reveal_strlit("0");
    reveal_strlit("=");
    reveal_strlit("+");
    reveal_strlit("-");
    reveal_strlit("escape");
    reveal_strlit("delete");
    reveal_strlit("enter");
    reveal_strlit("backspace");
    assert("c"@ =~= seq!['c']);
    assert("v"@ =~= seq!['v']);
    assert("x"@ =~= seq!['x']);
    assert("a"@ =~= seq!['a']);
    assert("z"@ =~= seq!['z']);
    assert("y"@ =~= seq!['y']);
    assert("s"@ =~= seq!['s']);
    assert("b"@ =~= seq!['b']);
    assert("0"@ =~= seq!['0']);
    assert("="@ =~= seq!['=']);
    assert("+"@ =~= seq!['+']);
    assert("-"@ =~= seq!['-']);
}

/// Saving, undoing and redoing have one key wherever one is; copying and
/// pasting too, but in the grid they are about pages and elsewhere about
/// blocks.
pub proof fn the_control_keys_mean_the_same_everywhere(state: KeyState)
    ensures
        key_meaning("s"@, true, state) == ViewerKey::Save,
        key_meaning("z"@, true, state) == ViewerKey::Undo,
        key_meaning("y"@, true, state) == ViewerKey::Redo,
        state.grid ==> key_meaning("c"@, true, state) == ViewerKey::CopyPages,
        !state.grid ==> key_meaning("c"@, true, state) == ViewerKey::CopyBlocks,
        state.grid ==> key_meaning("v"@, true, state) == ViewerKey::PastePages,
        !state.grid ==> key_meaning("v"@, true, state) == ViewerKey::PasteBlocks,
        state.grid ==> key_meaning("x"@, true, state) == ViewerKey::CutPages,
        state.grid ==> key_meaning("a"@, true, state) == ViewerKey::PickAllPages,
{
    lemma_key_names();
}

/// What deletes, deletes pages in the grid and the group elsewhere; without a
/// group it does nothing there.
pub proof fn deleting_is_about_what_is_picked(control: bool, state: KeyState)
    ensures
        state.grid ==> key_meaning("delete"@, control, state) == ViewerKey::DeletePages,
        state.grid ==> key_meaning("backspace"@, control, state) == ViewerKey::DeletePages,
        state.grid ==> key_meaning("enter"@, control, state) == ViewerKey::OpenPicked,
        !state.grid && state.group ==> key_meaning("delete"@, control, state)
            == ViewerKey::DeleteGroup,
        !state.grid && state.group ==> key_meaning("backspace"@, control, state)
            == ViewerKey::DeleteGroup,
        !state.grid && !state.group ==> key_meaning("delete"@, control, state)
            == ViewerKey::Nothing,
        !state.grid && !state.group ==> key_meaning("backspace"@, control, state)
            == ViewerKey::Nothing,
        !state.grid && !state.editing ==> key_meaning("b"@, control, state)
            == ViewerKey::ToggleBlocks,
        !state.grid && state.editing ==> key_meaning("b"@, control, state) == ViewerKey::Nothing,
{
    lemma_key_names();
}

/// The zoom grows by a quarter, and a step down takes a step up back, to less
/// than two units; the key of the zero sets it to one. In the grid there is no
/// zoom.
pub proof fn the_zoom_has_its_keys(state: KeyState)
    requires
        !state.grid,
    ensures
        ({
            let up = key_meaning("="@, true, state);
            let down = key_meaning("-"@, true, state);
            &&& up is ZoomBy
            &&& key_meaning("+"@, true, state) == up
            &&& 4 * up->ZoomBy_0 == 5 * POINT
            &&& down is ZoomBy
            &&& -2 * POINT < up->ZoomBy_0 * down->ZoomBy_0 - POINT * POINT < 2 * POINT
            &&& key_meaning("0"@, true, state) == ViewerKey::ZoomTo(POINT)
        }),
{
    lemma_key_names();
    assert(ZOOM_STEP * ZOOM_STEP_DOWN == 0x140_0000 * 13_421_773) by (nonlinear_arith)
        requires
            ZOOM_STEP == 0x140_0000,
            ZOOM_STEP_DOWN == 13_421_773,
    ;
    assert(POINT * POINT == 0x100_0000 * 0x100_0000) by (nonlinear_arith)
        requires
            POINT == 0x100_0000,
    ;
}

/// A letter alone does nothing in the grid, and nothing but the one that shows
/// the blocks while a document is read.
pub proof fn a_letter_alone_does_nothing(c: char, state: KeyState)
    requires
        state.grid || state.editing || c != 'b',
    ensures
        key_meaning(seq![c], false, state) == ViewerKey::Nothing,
{
    lemma_key_names();
    assert(seq![c][0] == c && seq![c].len() == 1);
}

} // verus!
