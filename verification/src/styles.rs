//! The named styles of a document.
use crate::document::{copy_text, opt_chars};
use crate::edits::Selection;
use crate::numerals::{fixed, fixed_text};
use crate::rich_text::StyleChange;
use crate::text_element::same_str;
use crate::units::{Color, Points};
use vstd::prelude::*;

verus! {

/// A named style. What it does not set stays as it is in the block.
#[derive(Debug, PartialEq, Eq)]
pub struct StyleDef {
    pub id: i64,
    pub name: String,
    pub family: Option<String>,
    pub size: Option<Points>,
    pub color: Option<Color>,
    pub bold: bool,
    pub italic: bool,
    pub underline: bool,
}

/// What a [`StyleDef`] says.
#[verifier::ext_equal]
pub struct DefView {
    pub id: i64,
    pub name: Seq<char>,
    pub family: Option<Seq<char>>,
    pub size: Option<Points>,
    pub color: Option<Color>,
    pub bold: bool,
    pub italic: bool,
    pub underline: bool,
}

impl View for StyleDef {
    type V = DefView;

    open spec fn view(&self) -> DefView {
        DefView {
            id: self.id,
            name: self.name@,
            family: opt_chars(self.family),
            size: self.size,
            color: self.color,
            bold: self.bold,
            italic: self.italic,
            underline: self.underline,
        }
    }
}

/// What styles say.
pub open spec fn def_views(defs: Seq<StyleDef>) -> Seq<DefView> {
    Seq::new(defs.len(), |i: int| defs[i]@)
}

impl Clone for StyleDef {
    fn clone(&self) -> (r: StyleDef)
        ensures
            r@ == self@,
    {
        StyleDef {
            id: self.id,
            name: self.name.clone(),
            family: copy_text(&self.family),
            size: self.size,
            color: self.color,
            bold: self.bold,
            italic: self.italic,
            underline: self.underline,
        }
    }
}

/// The first style, from the `i`-th on, of a number; the end where none is.
pub open spec fn def_index(defs: Seq<DefView>, id: i64, i: int) -> int
    decreases defs.len() - i,
{
    if i >= defs.len() || defs[i].id == id {
        i
    } else {
        def_index(defs, id, i + 1)
    }
}

fn find_def(defs: &Vec<StyleDef>, id: i64) -> (r: usize)
    ensures
        r == def_index(def_views(defs@), id, 0),
        r <= defs@.len(),
        r < defs@.len() ==> defs@[r as int].id == id,
{
    let mut i: usize = 0;
    while i < defs.len()
        invariant
            i <= defs@.len(),
            def_index(def_views(defs@), id, 0) == def_index(def_views(defs@), id, i as int),
        decreases defs@.len() - i,
    {
        if defs[i].id == id {
            return i;
        }
        i = i + 1;
    }
    i
}

fn copy_defs(defs: &Vec<StyleDef>) -> (r: Vec<StyleDef>)
    ensures
        def_views(r@) == def_views(defs@),
{
    let mut out: Vec<StyleDef> = Vec::new();
    let mut i: usize = 0;
    while i < defs.len()
        invariant
            i <= defs@.len(),
            out@.len() == i,
            forall|k: int| 0 <= k < i ==> (#[trigger] out@[k])@ == defs@[k]@,
        decreases defs@.len() - i,
    {
        out.push(defs[i].clone());
        i = i + 1;
    }
    assert(def_views(out@) == def_views(defs@));
    out
}

/// Whether the rows of the window are those of the styles; else they are made
/// anew.
pub fn rows_match(rows: &Vec<i64>, defs: &Vec<StyleDef>) -> (r: bool)
    ensures
        r == (rows@.len() == defs@.len() && forall|i: int|
            0 <= i < rows@.len() ==> #[trigger] rows@[i] == defs@[i].id),
{
    if rows.len() != defs.len() {
        return false;
    }
    let mut i: usize = 0;
    while i < rows.len()
        invariant
            i <= rows@.len(),
            rows@.len() == defs@.len(),
            forall|k: int| 0 <= k < i ==> #[trigger] rows@[k] == defs@[k].id,
        decreases rows@.len() - i,
    {
        if rows[i] != defs[i].id {
            return false;
        }
        i = i + 1;
    }
    true
}

/// What the fields of a row begin with: the name, the family and the size.
pub fn row_texts(def: &StyleDef) -> (r: (String, String, String))
    ensures
        r.0@ == def@.name,
        r.1@ == match def@.family {
            Some(family) => family,
            None => Seq::empty(),
        },
        r.2@ == match def@.size {
            Some(size) => fixed_text(size, 1),
            None => Seq::empty(),
        },
{
    let family = match &def.family {
        Some(family) => family.clone(),
        None => String::new(),
    };
    let size = match def.size {
        Some(size) => fixed(size, 1),
        None => String::new(),
    };
    (def.name.clone(), family, size)
}

/// Whether a style of a number has a name.
pub open spec fn is_named_so(defs: Seq<DefView>, id: i64, name: Seq<char>) -> bool {
    exists|i: int| 0 <= i < defs.len() && (#[trigger] defs[i]).id == id && defs[i].name == name
}

/// The styles with one renamed.
pub open spec fn renamed(defs: Seq<DefView>, id: i64, name: Seq<char>) -> Seq<DefView> {
    let at = def_index(defs, id, 0);
    if at < defs.len() {
        defs.update(at, DefView { name, ..defs[at] })
    } else {
        defs
    }
}

/// Renames a style; nothing is to be saved where the name is empty or the old
/// one.
pub fn rename_style(defs: &Vec<StyleDef>, id: i64, name: String) -> (r: Option<Vec<StyleDef>>)
    ensures
        r is None <==> name@.len() == 0 || is_named_so(def_views(defs@), id, name@),
        r matches Some(saved) ==> def_views(saved@) == renamed(def_views(defs@), id, name@),
{
    let ghost views = def_views(defs@);
    if crate::chars::chars_of_str(name.as_str()).len() == 0 {
        return None;
    }
    let mut i: usize = 0;
    while i < defs.len()
        invariant
            i <= defs@.len(),
            views == def_views(defs@),
            forall|k: int|
                0 <= k < i ==> !((#[trigger] views[k]).id == id && views[k].name == name@),
        decreases defs@.len() - i,
    {
        assert(views[i as int] == defs@[i as int]@);
        if defs[i].id == id && same_str(defs[i].name.as_str(), name.as_str()) {
            return None;
        }
        i = i + 1;
    }
    let mut saved = copy_defs(defs);
    let at: usize = find_def(defs, id);
    assert(saved@.len() == def_views(saved@).len());
    if at < saved.len() {
        let mut def = saved[at].clone();
        assert(def@ == views[at as int]) by {
            assert(def_views(saved@)[at as int] == saved@[at as int]@);
        }
        def.name = name;
        let ghost before = saved@;
        saved.set(at, def);
        assert(def_views(saved@) == def_views(before).update(at as int, def@));
    }
    Some(saved)
}

/// A style of the window, or else of the document: a style can be used while
/// its window is closed.
pub open spec fn style_of(
    window: Option<Seq<DefView>>,
    document: Seq<DefView>,
    id: i64,
) -> Option<DefView> {
    let shown = match window {
        Some(defs) => defs,
        None => Seq::empty(),
    };
    let at = def_index(shown, id, 0);
    let own = def_index(document, id, 0);
    if at < shown.len() {
        Some(shown[at])
    } else if own < document.len() {
        Some(document[own])
    } else {
        None
    }
}

/// What the styles of a window say.
pub open spec fn window_views(window: Option<Vec<StyleDef>>) -> Option<Seq<DefView>> {
    match window {
        Some(defs) => Some(def_views(defs@)),
        None => None,
    }
}

/// A style of the window, or else of the document.
pub fn find_style(window: &Option<Vec<StyleDef>>, document: &Vec<StyleDef>, id: i64) -> (r: Option<
    StyleDef,
>)
    ensures
        match r {
            Some(def) => style_of(window_views(*window), def_views(document@), id) == Some(def@),
            None => style_of(window_views(*window), def_views(document@), id) is None,
        },
{
    if let Some(defs) = window {
        let at: usize = find_def(defs, id);
        if at < defs.len() {
            assert(def_views(defs@)[at as int] == defs@[at as int]@);
            return Some(defs[at].clone());
        }
    }
    let own: usize = find_def(document, id);
    if own < document.len() {
        assert(def_views(document@)[own as int] == document@[own as int]@);
        Some(document[own].clone())
    } else {
        None
    }
}

/// A change of a style.
#[derive(Debug)]
pub enum DefChange {
    /// An empty family is none.
    Family(String),
    Size(Option<Points>),
    Color(Color),
    ToggleBold,
    ToggleItalic,
    ToggleUnderline,
}

/// A style with a change made.
pub open spec fn changed_def(def: DefView, change: DefChange) -> DefView {
    match change {
        DefChange::Family(family) => DefView {
            family: if family@.len() == 0 {
                None
            } else {
                Some(family@)
            },
            ..def
        },
        DefChange::Size(size) => DefView { size, ..def },
        DefChange::Color(color) => DefView { color: Some(color), ..def },
        DefChange::ToggleBold => DefView { bold: !def.bold, ..def },
        DefChange::ToggleItalic => DefView { italic: !def.italic, ..def },
        DefChange::ToggleUnderline => DefView { underline: !def.underline, ..def },
    }
}

/// Changes a style.
pub fn change_style(def: StyleDef, change: DefChange) -> (r: StyleDef)
    ensures
        r@ == changed_def(def@, change),
{
    let mut out = def;
    match change {
        DefChange::Family(family) => {
            out.family = if crate::chars::chars_of_str(family.as_str()).len() == 0 {
                None
            } else {
                Some(family)
            };
        },
        DefChange::Size(size) => {
            out.size = size;
        },
        DefChange::Color(color) => {
            out.color = Some(color);
        },
        DefChange::ToggleBold => {
            out.bold = !out.bold;
        },
        DefChange::ToggleItalic => {
            out.italic = !out.italic;
        },
        DefChange::ToggleUnderline => {
            out.underline = !out.underline;
        },
    }
    out
}

/// The style that is found has the number that is looked for and is the first that
/// does.
pub proof fn a_style_is_found_by_its_number(defs: Seq<DefView>, id: i64, i: int)
    requires
        0 <= i <= defs.len(),
    ensures
        i <= def_index(defs, id, i) <= defs.len(),
        def_index(defs, id, i) < defs.len() ==> defs[def_index(defs, id, i)].id == id,
        forall|k: int| i <= k < def_index(defs, id, i) ==> (#[trigger] defs[k]).id != id,
    decreases defs.len() - i,
{
    if i < defs.len() && defs[i].id != id {
        a_style_is_found_by_its_number(defs, id, i + 1);
    }
}

/// Renaming gives one style of the number the name, and leaves all else of it and all
/// other styles as they are.
pub proof fn renaming_changes_one_name(defs: Seq<DefView>, id: i64, name: Seq<char>, i: int)
    requires
        0 <= i < defs.len(),
    ensures
        renamed(defs, id, name).len() == defs.len(),
        defs[i].id != id ==> renamed(defs, id, name)[i] == defs[i],
        defs[i].id == id && (forall|k: int| 0 <= k < i ==> (#[trigger] defs[k]).id != id) ==> {
            let after = renamed(defs, id, name)[i];
            &&& after.name == name
            &&& after.id == id
            &&& after.family == defs[i].family
            &&& after.size == defs[i].size
            &&& after.color == defs[i].color
            &&& after.bold == defs[i].bold
            &&& after.italic == defs[i].italic
            &&& after.underline == defs[i].underline
        },
{
    a_style_is_found_by_its_number(defs, id, 0);
    let at = def_index(defs, id, 0);
    if at < i && defs[i].id == id {
        assert(defs[at].id == id);
    }
}

/// A style is looked for in the window first and then in the document, and is found
/// where either has it.
pub proof fn a_style_is_found_where_there_is_one(
    window: Option<Seq<DefView>>,
    document: Seq<DefView>,
    id: i64,
)
    ensures
        ({
            let found = style_of(window, document, id);
            let shown = window is Some && exists|i: int|
                0 <= i < window->0.len() && (#[trigger] window->0[i]).id == id;
            let kept = exists|i: int| 0 <= i < document.len() && (#[trigger] document[i]).id == id;
            &&& found is Some <==> shown || kept
            &&& found is Some ==> found->0.id == id
            &&& shown ==> window->0.contains(found->0)
            &&& !shown && kept ==> document.contains(found->0)
        }),
{
    let shown = match window {
        Some(defs) => defs,
        None => Seq::empty(),
    };
    a_style_is_found_by_its_number(shown, id, 0);
    a_style_is_found_by_its_number(document, id, 0);
}

/// A change sets what it is of and leaves the rest; an empty family is none.
pub proof fn a_change_sets_what_it_is_of(def: DefView, change: DefChange)
    ensures
        ({
            let after = changed_def(def, change);
            &&& after.id == def.id
            &&& after.name == def.name
            &&& after.family == (match change {
                DefChange::Family(family) => if family@.len() == 0 {
                    None
                } else {
                    Some(family@)
                },
                _ => def.family,
            })
            &&& after.size == (if let DefChange::Size(size) = change {
                size
            } else {
                def.size
            })
            &&& after.color == (if let DefChange::Color(color) = change {
                Some(color)
            } else {
                def.color
            })
            &&& after.bold != def.bold <==> change is ToggleBold
            &&& after.italic != def.italic <==> change is ToggleItalic
            &&& after.underline != def.underline <==> change is ToggleUnderline
        }),
{
}

/// Turning a mark of a style over twice leaves it.
pub proof fn toggling_twice_leaves_the_style(def: DefView, change: DefChange)
    requires
        change is ToggleBold || change is ToggleItalic || change is ToggleUnderline,
    ensures
        changed_def(changed_def(def, change), change) == def,
{
}

/// The styles but for those of a number.
pub open spec fn defs_but(defs: Seq<DefView>, id: i64) -> Seq<DefView>
    decreases defs.len(),
{
    if defs.len() == 0 {
        defs
    } else if defs.last().id == id {
        defs_but(defs.drop_last(), id)
    } else {
        defs_but(defs.drop_last(), id).push(defs.last())
    }
}

/// Deletes a style; its blocks stay as they are.
pub fn delete_style(defs: &Vec<StyleDef>, id: i64) -> (r: Vec<StyleDef>)
    ensures
        def_views(r@) == defs_but(def_views(defs@), id),
{
    let ghost views = def_views(defs@);
    let mut out: Vec<StyleDef> = Vec::new();
    let mut i: usize = 0;
    assert(views.take(0) == Seq::<DefView>::empty());
    assert(def_views(out@) == defs_but(views.take(0), id));
    while i < defs.len()
        invariant
            i <= defs@.len(),
            views == def_views(defs@),
            def_views(out@) == defs_but(views.take(i as int), id),
        decreases defs@.len() - i,
    {
        proof {
            assert(views.take(i + 1).drop_last() == views.take(i as int));
            assert(views.take(i + 1).last() == defs@[i as int]@);
        }
        if defs[i].id != id {
            let ghost before = out@;
            out.push(defs[i].clone());
            assert(def_views(out@) == def_views(before).push(defs@[i as int]@));
        }
        i = i + 1;
    }
    assert(views.take(i as int) == views);
    out
}

/// Deleting a style leaves all others, in their order.
pub proof fn deleting_leaves_the_other_styles(defs: Seq<DefView>, id: i64)
    ensures
        defs_but(defs, id) == defs.filter(|def: DefView| def.id != id),
    decreases defs.len(),
{
    reveal(Seq::filter);
    if defs.len() > 0 {
        deleting_leaves_the_other_styles(defs.drop_last(), id);
    }
}

/// After a style was deleted there is none of its number.
pub proof fn a_deleted_style_is_gone(defs: Seq<DefView>, id: i64)
    ensures
        forall|i: int| 0 <= i < defs_but(defs, id).len() ==> (#[trigger] defs_but(defs, id)[i]).id
            != id,
    decreases defs.len(),
{
    if defs.len() > 0 {
        a_deleted_style_is_gone(defs.drop_last(), id);
        let fewer = defs_but(defs.drop_last(), id);
        let all = defs_but(defs, id);
        assert forall|i: int| 0 <= i < all.len() implies (#[trigger] all[i]).id != id by {
            if i < fewer.len() {
                assert(all[i] == fewer[i]);
            }
        }
    }
}

/// Adds a style at the end.
pub fn create_style(defs: &Vec<StyleDef>, fresh: StyleDef) -> (r: Vec<StyleDef>)
    ensures
        def_views(r@) == def_views(defs@).push(fresh@),
{
    let mut out = copy_defs(defs);
    let ghost before = out@;
    out.push(fresh);
    assert(def_views(out@) == def_views(before).push(fresh@));
    out
}

/// What a style makes of text that is bound to it: what it sets is set, and
/// its marks always are.
pub fn style_to_text(def: &StyleDef) -> (r: StyleChange)
    ensures
        opt_chars(r.family) == def@.family,
        r.size == def@.size,
        r.color == def@.color,
        r.bold == Some(def@.bold),
        r.italic == Some(def@.italic),
        r.underline == Some(def@.underline),
        r.script is None,
{
    StyleChange {
        family: copy_text(&def.family),
        size: def.size,
        color: def.color,
        bold: Some(def.bold),
        italic: Some(def.italic),
        underline: Some(def.underline),
        script: None,
    }
}

impl Selection {
    /// Binds the block to a style.
    pub fn bind_style(&mut self, id: i64)
        ensures
            *final(self) == (Selection { style_id: Some(id), touched: true, ..*old(self) }),
    {
        self.style_id = Some(id);
        self.touched = true;
    }

    /// Frees the block of its style: the text stays as it is, and changes of
    /// the style no longer reach it.
    pub fn unbind_style(&mut self) -> (r: bool)
        ensures
            r == (old(self).style_id is Some),
            !r ==> *final(self) == *old(self),
            r ==> *final(self) == (Selection { style_id: None, touched: true, ..*old(self) }),
    {
        if self.style_id.is_none() {
            return false;
        }
        self.style_id = None;
        self.touched = true;
        true
    }
}

/// What is said after a block was bound to a style.
pub fn bound_status(name: &str) -> (r: String)
    ensures
        r@ == "Блок привязан к стилю «"@ + name@ + "»"@,
{
    "Блок привязан к стилю «".to_owned().concat(name).concat("»")
}

} // verus!
