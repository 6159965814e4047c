//! Format templates: named sets of a family, a size and a style.
//!
//! The look of the main text, of a caption or of a heading is set up once, and
//! then applied to any paragraph with one click.
use crate::document::{copy_text, opt_chars};
use crate::fonts::{find_letters, letters_index, texts};
use crate::numerals::{decimal, decimal_text, digit, fixed, fixed_text};
use crate::panel::PanelFormat;
use crate::rich_text::StyleChange;
use crate::units::Points;
use vstd::prelude::*;

verus! {

/// How many templates fit into the panel.
pub const MAX_TEMPLATES: usize = 8;

/// A named format.
#[derive(Debug)]
pub struct FormatTemplate {
    pub name: String,
    pub family: String,
    pub size: Points,
    pub bold: bool,
    pub italic: bool,
    pub underline: bool,
}

/// What a [`FormatTemplate`] says.
#[verifier::ext_equal]
pub struct TemplateView {
    pub name: Seq<char>,
    pub family: Seq<char>,
    pub size: Points,
    pub bold: bool,
    pub italic: bool,
    pub underline: bool,
}

impl View for FormatTemplate {
    type V = TemplateView;

    open spec fn view(&self) -> TemplateView {
        TemplateView {
            name: self.name@,
            family: self.family@,
            size: self.size,
            bold: self.bold,
            italic: self.italic,
            underline: self.underline,
        }
    }
}

impl Clone for FormatTemplate {
    fn clone(&self) -> (r: FormatTemplate)
        ensures
            r == *self,
    {
        FormatTemplate {
            name: self.name.clone(),
            family: self.family.clone(),
            size: self.size,
            bold: self.bold,
            italic: self.italic,
            underline: self.underline,
        }
    }
}

/// A text where a condition holds, and nothing where it does not.
pub open spec fn text_if(cond: bool, text: Seq<char>) -> Seq<char> {
    if cond {
        text
    } else {
        Seq::empty()
    }
}

/// A template in a few words: the family and the size, and every trait that is
/// switched on.
pub open spec fn summary_text(t: TemplateView) -> Seq<char> {
    t.family + " "@ + fixed_text(t.size, 0) + " pt"@ + text_if(t.bold, ", полужирный"@) + text_if(
        t.italic,
        ", курсив"@,
    ) + text_if(t.underline, ", подчёркнутый"@)
}

impl FormatTemplate {
    /// A short description for the hint on the button.
    pub fn summary(&self) -> (r: String)
        ensures
            r@ == summary_text(self@),
    {
        let mut out = self.family.clone();
        out.append(" ");
        out.append(fixed(self.size, 0).as_str());
        out.append(" pt");
        if self.bold {
            out.append(", полужирный");
        }
        if self.italic {
            out.append(", курсив");
        }
        if self.underline {
            out.append(", подчёркнутый");
        }
        assert(out@ == summary_text(self@));
        out
    }
}

pub open spec fn template_views(items: Seq<FormatTemplate>) -> Seq<TemplateView> {
    Seq::new(items.len(), |i: int| items[i]@)
}

/// Whether a template of this name is among the first `count`.
pub open spec fn named(list: Seq<TemplateView>, name: Seq<char>, count: int) -> bool {
    exists|i: int| 0 <= i < count && i < list.len() && (#[trigger] list[i]).name == name
}

/// The index of the first template of a name; the length where there is none.
pub open spec fn template_of(list: Seq<TemplateView>, name: Seq<char>) -> int
    decreases list.len(),
{
    if list.len() == 0 || list[0].name == name {
        0
    } else {
        1 + template_of(list.drop_first(), name)
    }
}

/// The list with a template saved: in the place of the one of the same name,
/// or at the end, as far as there is room.
pub open spec fn saved(list: Seq<TemplateView>, t: TemplateView) -> Seq<TemplateView> {
    let at = template_of(list, t.name);
    if at < list.len() {
        list.update(at, t)
    } else if list.len() < MAX_TEMPLATES {
        list.push(t)
    } else {
        list.take(MAX_TEMPLATES as int)
    }
}

/// The templates of other names, in their order.
pub open spec fn without(list: Seq<TemplateView>, name: Seq<char>) -> Seq<TemplateView>
    decreases list.len(),
{
    if list.len() == 0 {
        Seq::empty()
    } else if list.last().name == name {
        without(list.drop_last(), name)
    } else {
        without(list.drop_last(), name).push(list.last())
    }
}

/// The name that the `n`-th new template is offered.
pub open spec fn numbered_name(n: int) -> Seq<char> {
    "Стиль "@ + decimal_text(n as nat)
}

/// The first number from `n` on whose name is free; `limit` where none is.
pub open spec fn free_number(list: Seq<TemplateView>, n: int, limit: int) -> int
    decreases limit - n,
{
    if n >= limit || !named(list, numbered_name(n), list.len() as int) {
        n
    } else {
        free_number(list, n + 1, limit)
    }
}

/// The name that is offered for a new template.
pub open spec fn suggested(list: Seq<TemplateView>) -> Seq<char> {
    let n = free_number(list, 1, MAX_TEMPLATES + 2);
    if n < MAX_TEMPLATES + 2 {
        numbered_name(n)
    } else {
        "Стиль"@
    }
}

/// No two templates have the same name.
pub open spec fn distinct_names(list: Seq<TemplateView>) -> bool {
    forall|i: int, j: int| 0 <= i < j < list.len() ==> (#[trigger] list[i]).name != (
    #[trigger] list[j]).name
}

/// The list of templates.
pub struct Templates {
    items: Vec<FormatTemplate>,
    /// The file that keeps the list; without one it lives in memory only.
    storage: Option<String>,
}

/// What a [`Templates`] holds.
#[verifier::ext_equal]
pub struct TemplatesView {
    pub items: Seq<TemplateView>,
    pub storage: Option<Seq<char>>,
}

impl View for Templates {
    type V = TemplatesView;

    closed spec fn view(&self) -> TemplatesView {
        TemplatesView { items: template_views(self.items@), storage: opt_chars(self.storage) }
    }
}

impl Default for Templates {
    fn default() -> (r: Templates)
        ensures
            r@ == (TemplatesView { items: Seq::empty(), storage: None }),
    {
        Templates { items: Vec::new(), storage: None }
    }
}

/// What [`template_of`] finds.
proof fn lemma_template_of(list: Seq<TemplateView>, name: Seq<char>)
    ensures
        0 <= template_of(list, name) <= list.len(),
        template_of(list, name) < list.len() ==> list[template_of(list, name)].name == name,
        forall|i: int| 0 <= i < template_of(list, name) ==> (#[trigger] list[i]).name != name,
    decreases list.len(),
{
    if list.len() > 0 && list[0].name != name {
        lemma_template_of(list.drop_first(), name);
        assert forall|i: int| 0 <= i < template_of(list, name) implies (#[trigger] list[i]).name
            != name by {
            if i > 0 {
                assert(list[i] == list.drop_first()[i - 1]);
            }
        }
    }
}

impl Templates {
    /// A list as it was read from its file.
    pub fn new(items: Vec<FormatTemplate>, storage: Option<String>) -> (r: Templates)
        ensures
            r@ == (TemplatesView { items: template_views(items@), storage: opt_chars(storage) }),
    {
        Templates { items, storage }
    }

    pub fn items(&self) -> (r: &[FormatTemplate])
        ensures
            template_views(r@) == self@.items,
    {
        self.items.as_slice()
    }

    /// The file that the list is written to after every change, if any.
    pub fn storage(&self) -> (r: Option<String>)
        ensures
            opt_chars(r) == self@.storage,
    {
        copy_text(&self.storage)
    }

    /// The index of the first template of a name.
    fn position(&self, name: &String) -> (r: usize)
        ensures
            r == template_of(self@.items, name@),
            r <= self.items@.len(),
    {
        let ghost list = self@.items;
        let mut i: usize = 0;
        assert(list.skip(0) == list);
        while i < self.items.len()
            invariant
                i <= self.items@.len(),
                list == template_views(self.items@),
                template_of(list, name@) == i + template_of(list.skip(i as int), name@),
            decreases self.items@.len() - i,
        {
            assert(list.skip(i as int).drop_first() == list.skip(i + 1));
            assert(list.skip(i as int)[0] == list[i as int]);
            if self.items[i].name == *name {
                return i;
            }
            i = i + 1;
        }
        i
    }

    /// Saves a template; one of the same name is replaced.
    pub fn save(&mut self, template: FormatTemplate)
        ensures
            final(self)@.items == saved(old(self)@.items, template@),
            final(self)@.storage == old(self)@.storage,
    {
        let at: usize = self.position(&template.name);
        let ghost list = self@.items;
        let ghost view = template@;
        if at < self.items.len() {
            self.items.set(at, template);
            assert(template_views(self.items@) == list.update(at as int, view));
        } else {
            self.items.push(template);
            assert(template_views(self.items@) == list.push(view));
            self.items.truncate(MAX_TEMPLATES);
            assert(template_views(self.items@) == saved(list, view));
        }
    }

    /// Takes every template of a name out.
    pub fn remove(&mut self, name: &str)
        ensures
            final(self)@.items == without(old(self)@.items, name@),
            final(self)@.storage == old(self)@.storage,
    {
        let wanted = name.to_owned();
        let ghost list = self@.items;
        let mut kept: Vec<FormatTemplate> = Vec::new();
        let mut i: usize = 0;
        assert(list.take(0) == Seq::<TemplateView>::empty());
        while i < self.items.len()
            invariant
                i <= self.items@.len(),
                wanted@ == name@,
                *self == *old(self),
                list == template_views(self.items@),
                template_views(kept@) == without(list.take(i as int), name@),
            decreases self.items@.len() - i,
        {
            assert(list.take(i + 1).drop_last() == list.take(i as int));
            assert(list.take(i + 1).last() == self.items@[i as int]@);
            let ghost before = template_views(kept@);
            if !(self.items[i].name == wanted) {
                let item = self.items[i].clone();
                kept.push(item);
                assert(template_views(kept@) == before.push(item@));
            }
            i = i + 1;
        }
        assert(list.take(list.len() as int) == list);
        self.items = kept;
    }

    /// A name for a new template that no other has.
    pub fn suggest_name(&self) -> (r: String)
        ensures
            r@ == suggested(self@.items),
    {
        let limit: usize = MAX_TEMPLATES + 2;
        let mut n: usize = 1;
        while n < limit
            invariant
                1 <= n <= limit,
                limit == MAX_TEMPLATES + 2,
                free_number(self@.items, 1, limit as int) == free_number(
                    self@.items,
                    n as int,
                    limit as int,
                ),
            decreases limit - n,
        {
            let name = "Стиль ".to_owned().concat(decimal(n as u64).as_str());
            assert(name@ == numbered_name(n as int));
            let at: usize = self.position(&name);
            proof {
                lemma_template_of(self@.items, name@);
                if at < self.items@.len() {
                    assert(self@.items[at as int].name == name@);
                    assert(named(self@.items, name@, self@.items.len() as int));
                } else {
                    assert(!named(self@.items, name@, self@.items.len() as int));
                }
            }
            if at == self.items.len() {
                return name;
            }
            n = n + 1;
        }
        "Стиль".to_owned()
    }

    /// Whether there is no room for another template.
    pub fn is_full(&self) -> (r: bool)
        ensures
            r == (self@.items.len() >= MAX_TEMPLATES),
    {
        self.items.len() >= MAX_TEMPLATES
    }
}

/// Saving keeps the list within its bounds and its names distinct, and a
/// template for which there is room can be found under its name.
pub proof fn saving_keeps_the_list_in_order(list: Seq<TemplateView>, t: TemplateView)
    ensures
        list.len() <= MAX_TEMPLATES ==> saved(list, t).len() <= MAX_TEMPLATES,
        distinct_names(list) ==> distinct_names(saved(list, t)),
        list.len() < MAX_TEMPLATES || named(list, t.name, list.len() as int) <==> saved(
            list,
            t,
        ).contains(t),
{
    lemma_template_of(list, t.name);
    let at = template_of(list, t.name);
    let after = saved(list, t);
    if at < list.len() {
        assert(after[at] == t);
    } else if list.len() < MAX_TEMPLATES {
        assert(after[list.len() as int] == t);
    } else if after.contains(t) {
        let i = choose|i: int| 0 <= i < after.len() && after[i] == t;
        assert(list[i].name == t.name);
    }
    if distinct_names(list) {
        assert forall|i: int, j: int| 0 <= i < j < after.len() implies (#[trigger] after[i]).name
            != (#[trigger] after[j]).name by {
            if i != at && j != at {
                assert(list[i].name != list[j].name);
            } else if i == at && at < list.len() {
                assert(list[i].name != list[j].name);
            } else if j == at && at < list.len() {
                assert(list[i].name != list[j].name);
            }
        }
    }
}

/// Saving changes no other template: each stays in its place, in a list of no more
/// than eight. The saved one takes the place of the one of its name, or comes last.
pub proof fn saving_leaves_the_other_templates(list: Seq<TemplateView>, t: TemplateView, i: int)
    requires
        list.len() <= 8,
        0 <= i < list.len(),
    ensures
        list[i].name != t.name ==> saved(list, t)[i] == list[i],
        distinct_names(list) && list[i].name == t.name ==> saved(list, t) == list.update(i, t),
        (forall|k: int| 0 <= k < list.len() ==> (#[trigger] list[k]).name != t.name)
            ==> if list.len() < 8 {
            saved(list, t) == list.push(t)
        } else {
            saved(list, t) == list
        },
{
    lemma_template_of(list, t.name);
    let at = template_of(list, t.name);
    if distinct_names(list) && list[i].name == t.name && at != i {
        if at < i {
            assert(list[at].name != list[i].name);
        }
    }
    if list.len() == 8 {
        assert(list.take(8) == list);
    }
}

/// Saving twice under one name is saving the second time.
pub proof fn saving_twice_is_saving_once(list: Seq<TemplateView>, a: TemplateView, b: TemplateView)
    requires
        a.name == b.name,
    ensures
        saved(saved(list, a), b) == saved(list, b),
{
    lemma_template_of(list, a.name);
    let once = saved(list, a);
    lemma_template_of(once, a.name);
    let at = template_of(list, a.name);
    let again = template_of(once, a.name);
    if at < list.len() || list.len() < MAX_TEMPLATES {
        assert(once[at] == a);
        if again < at {
            assert(once[again] == list[again]);
        }
        assert(again == at);
    } else if again < once.len() {
        assert(once[again] == list[again]);
    }
    assert(saved(once, b) == saved(list, b));
}

/// A removed template is gone.
pub proof fn removing_leaves_none_of_the_name(list: Seq<TemplateView>, name: Seq<char>)
    ensures
        without(list, name).len() <= list.len(),
        !named(without(list, name), name, without(list, name).len() as int),
    decreases list.len(),
{
    if list.len() > 0 {
        let head = list.drop_last();
        removing_leaves_none_of_the_name(head, name);
        let before = without(head, name);
        let after = without(list, name);
        assert forall|i: int| 0 <= i < after.len() implies (#[trigger] after[i]).name != name by {
            if i < before.len() {
                assert(after[i] == before[i]);
            }
        }
    }
}

/// Removing a name leaves all templates of other names, in their order.
pub proof fn removing_leaves_the_other_templates(list: Seq<TemplateView>, name: Seq<char>)
    ensures
        without(list, name) == list.filter(|t: TemplateView| t.name != name),
    decreases list.len(),
{
    reveal(Seq::filter);
    if list.len() > 0 {
        removing_leaves_the_other_templates(list.drop_last(), name);
    }
}

/// The names of different numbers differ.
proof fn lemma_numbered_names_differ(a: int, b: int)
    requires
        1 <= a < 10,
        1 <= b < 10,
        a != b,
    ensures
        numbered_name(a) != numbered_name(b),
{
    let n = "Стиль "@.len() as int;
    assert(numbered_name(a)[n] == digit(a));
    assert(numbered_name(b)[n] == digit(b));
    assert(digit(a) as int == 0x30 + a);
    assert(digit(b) as int == 0x30 + b);
}

/// So many names in a list need as many templates.
proof fn lemma_names_need_templates(list: Seq<TemplateView>, to: int)
    requires
        1 <= to <= 10,
        forall|n: int|
            1 <= n < to ==> #[trigger] named(list, numbered_name(n), list.len() as int),
    ensures
        list.len() >= to - 1,
    decreases to,
{
    if to > 1 {
        let last = numbered_name(to - 1);
        assert(named(list, last, list.len() as int));
        let at = choose|i: int|
            0 <= i < list.len() && i < list.len() && (#[trigger] list[i]).name == last;
        let rest = list.remove(at);
        assert forall|n: int| 1 <= n < to - 1 implies #[trigger] named(
            rest,
            numbered_name(n),
            rest.len() as int,
        ) by {
            assert(named(list, numbered_name(n), list.len() as int));
            let i = choose|i: int|
                0 <= i < list.len() && i < list.len() && (#[trigger] list[i]).name
                    == numbered_name(n);
            lemma_numbered_names_differ(n, to - 1);
            assert(i != at);
            let k = if i < at {
                i
            } else {
                i - 1
            };
            assert(rest[k] == list[i]);
        }
        lemma_names_need_templates(rest, to - 1);
    }
}

/// What [`free_number`] finds.
proof fn lemma_free_number(list: Seq<TemplateView>, n: int, limit: int)
    requires
        n <= limit,
    ensures
        n <= free_number(list, n, limit) <= limit,
        free_number(list, n, limit) < limit ==> !named(
            list,
            numbered_name(free_number(list, n, limit)),
            list.len() as int,
        ),
        forall|k: int|
            n <= k < free_number(list, n, limit) ==> #[trigger] named(
                list,
                numbered_name(k),
                list.len() as int,
            ),
    decreases limit - n,
{
    if n < limit && named(list, numbered_name(n), list.len() as int) {
        lemma_free_number(list, n + 1, limit);
    }
}

/// The name that is offered is one that no template has. Only in a list that is
/// longer than can be saved, and in which every name that could be offered is
/// taken, it is not.
pub proof fn the_suggested_name_is_free(list: Seq<TemplateView>)
    ensures
        named(list, suggested(list), list.len() as int) <==> (forall|n: int|
            1 <= n <= MAX_TEMPLATES + 1 ==> #[trigger] named(
                list,
                numbered_name(n),
                list.len() as int,
            )) && named(list, "Стиль"@, list.len() as int),
        list.len() <= MAX_TEMPLATES ==> !named(list, suggested(list), list.len() as int),
{
    let limit = MAX_TEMPLATES + 2;
    lemma_free_number(list, 1, limit);
    let n = free_number(list, 1, limit);
    if n == limit {
        lemma_names_need_templates(list, limit);
    } else {
        assert(!named(list, numbered_name(n), list.len() as int));
    }
}

impl FormatTemplate {
    /// What the template makes of text that it is applied to.
    pub fn to_text(&self) -> (r: StyleChange)
        ensures
            opt_chars(r.family) == Some(self@.family),
            r.bold == Some(self@.bold),
            r.italic == Some(self@.italic),
            r.underline == Some(self@.underline),
            r.size is None,
            r.color is None,
            r.script is None,
    {
        let mut change = StyleChange::none();
        change.family = Some(self.family.clone());
        change.bold = Some(self.bold);
        change.italic = Some(self.italic);
        change.underline = Some(self.underline);
        change
    }

    /// The size as the field of the panel shows it.
    pub fn size_text(&self) -> (r: String)
        ensures
            r@ == fixed_text(self@.size, 1),
    {
        fixed(self.size, 1)
    }

    /// The installed family that the template asks for, whatever its case.
    pub fn installed_family(&self, families: &Vec<String>) -> (r: Option<usize>)
        ensures
            r == if letters_index(texts(families@), self@.family, 0) < families@.len() {
                Some(letters_index(texts(families@), self@.family, 0) as usize)
            } else {
                None
            },
    {
        let at: usize = find_letters(families, self.family.as_str());
        if at < families.len() {
            Some(at)
        } else {
            None
        }
    }

    /// What is shown beside the button of the template.
    pub fn hint(&self) -> (r: String)
        ensures
            r@ == summary_text(self@) + "\nAlt+клик — удалить шаблон"@,
    {
        self.summary().concat("\nAlt+клик — удалить шаблон")
    }
}

/// What is said after a template was used.
pub fn template_status(name: &str, what: TemplateUse) -> (r: String)
    ensures
        r@ == "Шаблон «"@ + name@ + match what {
            TemplateUse::Applied => "» применён"@,
            TemplateUse::Removed => "» удалён"@,
            TemplateUse::Saved => "» сохранён"@,
        },
{
    let end = match what {
        TemplateUse::Applied => "» применён",
        TemplateUse::Removed => "» удалён",
        TemplateUse::Saved => "» сохранён",
    };
    "Шаблон «".to_owned().concat(name).concat(end)
}

/// What was done with a template.
#[derive(Clone, Copy, Debug, PartialEq, Eq, Structural)]
pub enum TemplateUse {
    Applied,
    Removed,
    Saved,
}

impl Templates {
    /// Saves the format of the panel under a name that no template has, where
    /// there is room for one more.
    pub fn save_current(&mut self, format: PanelFormat) -> (r: Option<String>)
        ensures
            final(self)@.storage == old(self)@.storage,
            r is None <==> old(self)@.items.len() >= MAX_TEMPLATES,
            r is None ==> final(self)@.items == old(self)@.items,
            r matches Some(name) ==> {
                &&& name@ == suggested(old(self)@.items)
                &&& final(self)@.items == saved(
                    old(self)@.items,
                    (TemplateView {
                        name: name@,
                        family: format.family@,
                        size: format.size,
                        bold: format.bold,
                        italic: format.italic,
                        underline: format.underline,
                    }),
                )
            },
    {
        if self.is_full() {
            return None;
        }
        let name = self.suggest_name();
        self.save(
            FormatTemplate {
                name: name.clone(),
                family: format.family,
                size: format.size,
                bold: format.bold,
                italic: format.italic,
                underline: format.underline,
            },
        );
        Some(name)
    }
}

/// The summary of a template names what it sets: each of the three marks is named where
/// it is set, behind the family, the size and the marks before it, and nowhere else.
pub proof fn a_summary_names_what_is_set(t: TemplateView)
    ensures
        ({
            let bare = TemplateView { bold: false, italic: false, underline: false, ..t };
            let bold = TemplateView { italic: false, underline: false, ..t };
            let slanted = TemplateView { underline: false, ..t };
            &&& summary_text(bare) == t.family + " "@ + fixed_text(t.size, 0) + " pt"@
            &&& t.bold ==> summary_text(bold) == summary_text(bare) + ", полужирный"@
            &&& t.italic ==> summary_text(slanted) == summary_text(bold) + ", курсив"@
            &&& t.underline ==> summary_text(t) == summary_text(slanted) + ", подчёркнутый"@
        }),
{
    let none = Seq::<char>::empty();
    let bare = TemplateView { bold: false, italic: false, underline: false, ..t };
    let bold = TemplateView { italic: false, underline: false, ..t };
    let slanted = TemplateView { underline: false, ..t };
    let head = t.family + " "@ + fixed_text(t.size, 0) + " pt"@;
    assert(head + none =~= head);
    assert(summary_text(bare) =~= head);
    assert(summary_text(bold) =~= head + text_if(t.bold, ", полужирный"@));
    assert(summary_text(slanted) =~= head + text_if(t.bold, ", полужирный"@) + text_if(
        t.italic,
        ", курсив"@,
    ));
}

} // verus!
