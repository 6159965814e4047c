//! The menus over the pages, and the lists of ready values beside the fields of
//! the panel.
use crate::edits::Selection;
use crate::geometry::{max_of, min_of, near, sane, Spot};
use crate::group::GroupChange;
use crate::numerals::{decimal, decimal_text, fixed, fixed_text};
use crate::panel::smallest_leading;
use crate::text_layout::{floor_divide, pixels};
use crate::units::{Points, POINT};
use vstd::prelude::*;

verus! {

/// How wide a menu is, in pixels.
pub const MENU_WIDTH: i64 = 190 * 0x100_0000;

/// What a menu is opened for.
#[derive(Clone, Copy, Debug, PartialEq, Eq, Structural)]
pub enum PanelMenu {
    /// A page, counted from zero.
    Page { page: u32, at: Spot },
    /// The text that is read.
    TextOps { at: Spot },
    /// The gap after a page, or before the first.
    Insert { after: u32, at: Spot, before_first: bool },
}

/// What an item of a menu does. Pages are counted from one but for those to be
/// copied or exported, which are counted from zero.
#[derive(Clone, Copy, Debug, PartialEq, Eq, Structural)]
pub enum MenuAction {
    Rotate { page_number: u32, clockwise: bool },
    Export { page: u32 },
    CopyPage { page: u32 },
    PastePages { after: u32 },
    DeletePage { page_number: u32 },
    CopyBlocks,
    PasteBlocks,
    EraseSelected,
    DeleteGroup,
    InsertBlank { page_number: u32 },
    InsertDocument { page_number: u32 },
}

/// An item of a menu.
#[derive(Debug)]
pub struct MenuItem {
    pub id: &'static str,
    pub icon: &'static str,
    pub title: String,
    pub enabled: bool,
    pub danger: bool,
    pub action: MenuAction,
}

/// What a [`MenuItem`] holds.
#[verifier::ext_equal]
pub struct ItemView {
    pub id: Seq<char>,
    pub icon: Seq<char>,
    pub title: Seq<char>,
    pub enabled: bool,
    pub danger: bool,
    pub action: MenuAction,
}

impl View for MenuItem {
    type V = ItemView;

    open spec fn view(&self) -> ItemView {
        ItemView {
            id: self.id@,
            icon: self.icon@,
            title: self.title@,
            enabled: self.enabled,
            danger: self.danger,
            action: self.action,
        }
    }
}

/// What the items of a menu hold.
pub open spec fn item_views(items: Seq<MenuItem>) -> Seq<ItemView> {
    Seq::new(items.len(), |i: int| items[i]@)
}

/// An item that can always be chosen.
pub open spec fn plain_item(
    id: Seq<char>,
    icon: Seq<char>,
    title: Seq<char>,
    action: MenuAction,
) -> ItemView {
    ItemView { id, icon, title, enabled: true, danger: false, action }
}

fn plain(id: &'static str, icon: &'static str, title: &str, action: MenuAction) -> (r: MenuItem)
    ensures
        r@ == plain_item(id@, icon@, title@, action),
{
    MenuItem { id, icon, title: title.to_owned(), enabled: true, danger: false, action }
}

/// The items of the menu of a page.
pub open spec fn page_items(page: u32, picked: int, buffered: int) -> Seq<ItemView> {
    let number = (page + 1) as u32;
    seq![
        plain_item(
            "menu-rot-r"@,
            "icons/rotate-right-01.svg"@,
            "Повернуть вправо"@,
            MenuAction::Rotate { page_number: number, clockwise: true },
        ),
        plain_item(
            "menu-rot-l"@,
            "icons/rotate-left-01.svg"@,
            "Повернуть влево"@,
            MenuAction::Rotate { page_number: number, clockwise: false },
        ),
        plain_item(
            "menu-export"@,
            "icons/file-export.svg"@,
            "Экспорт страницы"@,
            MenuAction::Export { page },
        ),
        plain_item(
            "menu-copy"@,
            "icons/copy-01.svg"@,
            if picked > 1 {
                "Копировать выбранные"@
            } else {
                "Копировать"@
            },
            MenuAction::CopyPage { page },
        ),
        ItemView {
            enabled: buffered > 0,
            ..plain_item(
                "menu-paste"@,
                "icons/clipboard.svg"@,
                "Вставить"@,
                MenuAction::PastePages { after: number },
            )
        },
        ItemView {
            danger: true,
            ..plain_item(
                "menu-delete"@,
                "icons/delete-02.svg"@,
                "Удалить"@,
                MenuAction::DeletePage { page_number: number },
            )
        },
    ]
}

/// The menu of a page. `picked` pages are picked in the grid, and `buffered`
/// were copied.
pub fn page_menu(page: u32, picked: usize, buffered: usize) -> (r: Vec<MenuItem>)
    requires
        page < u32::MAX,
    ensures
        item_views(r@) == page_items(page, picked as int, buffered as int),
{
    let number: u32 = page + 1;
    let mut items: Vec<MenuItem> = Vec::new();
    items.push(
        plain(
            "menu-rot-r",
            "icons/rotate-right-01.svg",
            "Повернуть вправо",
            MenuAction::Rotate { page_number: number, clockwise: true },
        ),
    );
    items.push(
        plain(
            "menu-rot-l",
            "icons/rotate-left-01.svg",
            "Повернуть влево",
            MenuAction::Rotate { page_number: number, clockwise: false },
        ),
    );
    items.push(
        plain(
            "menu-export",
            "icons/file-export.svg",
            "Экспорт страницы",
            MenuAction::Export { page },
        ),
    );
    let copy = if picked > 1 {
        "Копировать выбранные"
    } else {
        "Копировать"
    };
    items.push(plain("menu-copy", "icons/copy-01.svg", copy, MenuAction::CopyPage { page }));
    let mut paste = plain(
        "menu-paste",
        "icons/clipboard.svg",
        "Вставить",
        MenuAction::PastePages { after: number },
    );
    paste.enabled = buffered > 0;
    items.push(paste);
    let mut delete = plain(
        "menu-delete",
        "icons/delete-02.svg",
        "Удалить",
        MenuAction::DeletePage { page_number: number },
    );
    delete.danger = true;
    items.push(delete);
    assert(item_views(items@) =~~= page_items(page, picked as int, buffered as int));
    items
}

/// The items of the menu of the text that is read.
pub open spec fn text_items(selected: bool, group: bool, copied: bool) -> Seq<ItemView> {
    seq![
        ItemView {
            enabled: selected || group,
            ..plain_item(
                "menu-copy-blocks"@,
                "icons/copy-01.svg"@,
                "Копировать"@,
                MenuAction::CopyBlocks,
            )
        },
        ItemView {
            enabled: copied,
            ..plain_item(
                "menu-paste-blocks"@,
                "icons/clipboard.svg"@,
                "Вставить"@,
                MenuAction::PasteBlocks,
            )
        },
        ItemView {
            enabled: selected || group,
            danger: true,
            ..plain_item(
                "menu-delete-blocks"@,
                "icons/delete-02.svg"@,
                "Удалить"@,
                if group {
                    MenuAction::DeleteGroup
                } else {
                    MenuAction::EraseSelected
                },
            )
        },
    ]
}

/// The menu of the text that is read. Items that have nothing to work on
/// cannot be chosen.
pub fn text_menu(selected: bool, group: bool, copied: bool) -> (r: Vec<MenuItem>)
    ensures
        item_views(r@) == text_items(selected, group, copied),
{
    let mut items: Vec<MenuItem> = Vec::new();
    let mut copy = plain(
        "menu-copy-blocks",
        "icons/copy-01.svg",
        "Копировать",
        MenuAction::CopyBlocks,
    );
    copy.enabled = selected || group;
    items.push(copy);
    let mut paste = plain(
        "menu-paste-blocks",
        "icons/clipboard.svg",
        "Вставить",
        MenuAction::PasteBlocks,
    );
    paste.enabled = copied;
    items.push(paste);
    let action = if group {
        MenuAction::DeleteGroup
    } else {
        MenuAction::EraseSelected
    };
    let mut delete = plain("menu-delete-blocks", "icons/delete-02.svg", "Удалить", action);
    delete.enabled = selected || group;
    delete.danger = true;
    items.push(delete);
    assert(item_views(items@) =~~= text_items(selected, group, copied));
    items
}

/// The items of the menu of a gap between pages.
pub open spec fn insert_items(after: u32, before_first: bool, buffered: int) -> Seq<ItemView> {
    let number = if before_first {
        0
    } else {
        (after + 1) as u32
    };
    seq![
        plain_item(
            "menu-blank"@,
            "icons/add-01.svg"@,
            "Пустой лист"@,
            MenuAction::InsertBlank { page_number: number },
        ),
        ItemView {
            enabled: buffered > 0,
            ..plain_item(
                "menu-paste-slot"@,
                "icons/clipboard.svg"@,
                if buffered == 0 {
                    "Вставить"@
                } else if buffered == 1 {
                    "Вставить страницу"@
                } else {
                    "Вставить страниц: "@ + decimal_text(buffered as nat)
                },
                MenuAction::PastePages { after: number },
            )
        },
        plain_item(
            "menu-doc"@,
            "icons/file-export.svg"@,
            "Выбрать документ…"@,
            MenuAction::InsertDocument { page_number: number },
        ),
    ]
}

/// The menu of the gap after a page, or before the first.
pub fn insert_menu(after: u32, before_first: bool, buffered: usize) -> (r: Vec<MenuItem>)
    requires
        after < u32::MAX,
    ensures
        item_views(r@) == insert_items(after, before_first, buffered as int),
{
    let number: u32 = if before_first {
        0
    } else {
        after + 1
    };
    let mut items: Vec<MenuItem> = Vec::new();
    items.push(
        plain(
            "menu-blank",
            "icons/add-01.svg",
            "Пустой лист",
            MenuAction::InsertBlank { page_number: number },
        ),
    );
    let title = if buffered == 0 {
        "Вставить".to_owned()
    } else if buffered == 1 {
        "Вставить страницу".to_owned()
    } else {
        "Вставить страниц: ".to_owned().concat(decimal(buffered as u64).as_str())
    };
    let mut paste = plain(
        "menu-paste-slot",
        "icons/clipboard.svg",
        title.as_str(),
        MenuAction::PastePages { after: number },
    );
    paste.enabled = buffered > 0;
    items.push(paste);
    items.push(
        plain(
            "menu-doc",
            "icons/file-export.svg",
            "Выбрать документ…",
            MenuAction::InsertDocument { page_number: number },
        ),
    );
    assert(item_views(items@) =~~= insert_items(after, before_first, buffered as int));
    items
}

/// The gap before a page is the one after the page in front of it.
pub fn gap_before(page: u32, at: Spot) -> (r: PanelMenu)
    ensures
        r == (PanelMenu::Insert {
            after: if page == 0 {
                0
            } else {
                (page - 1) as u32
            },
            at,
            before_first: page == 0,
        }),
        r matches PanelMenu::Insert { after, before_first, .. } ==> (before_first || after + 1
            == page) && (before_first ==> page == 0),
{
    PanelMenu::Insert {
        after: if page == 0 {
            0
        } else {
            page - 1
        },
        at,
        before_first: page == 0,
    }
}

/// A coordinate at which something of a size still is in the window.
pub open spec fn kept_inside(at: int, room: int, size: int) -> int {
    max_of(min_of(at, room - size), 0)
}

fn keep_inside(at: i64, room: i64, size: i64) -> (r: i64)
    requires
        near(at),
        near(room),
        near(size),
    ensures
        r == kept_inside(at as int, room as int, size as int),
{
    let most: i64 = room - size;
    let place: i64 = if at < most {
        at
    } else {
        most
    };
    if place > 0 {
        place
    } else {
        0
    }
}

/// Where a menu of so many items stands: at the cursor, and all of it in the
/// window.
pub fn menu_place(at: Spot, width: i64, height: i64, items: usize) -> (r: Spot)
    requires
        at.is_near(),
        near(width),
        near(height),
        items <= 0x10_0000,
    ensures
        r.x == kept_inside(at.x as int, width as int, MENU_WIDTH + 8 * POINT),
        r.y == kept_inside(at.y as int, height as int, items * 32 * POINT + 18 * POINT),
{
    Spot {
        x: keep_inside(at.x, width, MENU_WIDTH + 8 * POINT),
        y: keep_inside(at.y, height, items as i64 * 32 * POINT + 18 * POINT),
    }
}

/// In a window that is large enough for it, a menu is seen whole.
pub proof fn a_menu_stays_in_the_window(at: int, room: int, size: int)
    requires
        0 <= size <= room,
    ensures
        0 <= kept_inside(at, room, size),
        kept_inside(at, room, size) + size <= room,
        0 <= at <= room - size ==> kept_inside(at, room, size) == at,
{
}

/// The field whose ready values are listed.
#[derive(Clone, Copy, Debug, PartialEq, Eq, Structural)]
pub enum PresetKind {
    /// The space between letters, in points.
    CharSpacing,
    /// The width of letters, in percent.
    HScale,
    /// The distance between lines, as a factor of the size.
    LineHeight,
}

/// What a ready value is for.
#[derive(Clone, Copy, Debug, PartialEq, Eq, Structural)]
pub enum PresetTarget {
    Editor,
    Multi,
}

/// The ready values of a field, in hundredths.
pub open spec fn presets_of(kind: PresetKind) -> Seq<int> {
    match kind {
        PresetKind::CharSpacing => seq![
            -100int,
            -75,
            -50,
            -25,
            -10,
            0,
            10,
            25,
            50,
            75,
            100,
            200,
        ],
        PresetKind::HScale => seq![8000int, 8500, 9000, 9500, 10000, 10500, 11000, 11500, 12000],
        PresetKind::LineHeight => seq![100int, 120, 140, 150, 200, 250, 300],
    }
}

/// The ready values of a field, in hundredths.
pub fn preset_values(kind: PresetKind) -> (r: Vec<i64>)
    ensures
        r@.map_values(|x: i64| x as int) == presets_of(kind),
        r@.len() <= 12,
{
    let values = match kind {
        PresetKind::CharSpacing => vec![
            -100i64,
            -75,
            -50,
            -25,
            -10,
            0,
            10,
            25,
            50,
            75,
            100,
            200,
        ],
        PresetKind::HScale => vec![8000i64, 8500, 9000, 9500, 10000, 10500, 11000, 11500, 12000],
        PresetKind::LineHeight => vec![100i64, 120, 140, 150, 200, 250, 300],
    };
    assert(values@.map_values(|x: i64| x as int) == presets_of(kind));
    values
}

/// A number of hundredths, in the units of lengths, to the nearest one.
pub open spec fn of_hundredths(hundredths: int) -> int {
    (2 * hundredths * POINT + 100) / 200
}

/// A number of hundredths, in the units of lengths.
pub fn from_hundredths(hundredths: i64) -> (r: Points)
    requires
        -1_000_000 <= hundredths <= 1_000_000,
    ensures
        r == of_hundredths(hundredths as int),
{
    let n: i64 = 2 * hundredths * POINT + 100;
    if n >= 0 {
        n / 200
    } else if n % 200 == 0 {
        n / 200
    } else {
        n / 200 - 1
    }
}

/// A ready value as the list shows it.
pub fn preset_label(kind: PresetKind, hundredths: i64) -> (r: String)
    requires
        -1_000_000 <= hundredths <= 1_000_000,
    ensures
        r@ == fixed_text(
            of_hundredths(hundredths as int) as i64,
            if kind == PresetKind::HScale {
                0
            } else {
                2
            },
        ),
{
    let places: u32 = if kind == PresetKind::HScale {
        0
    } else {
        2
    };
    fixed(from_hundredths(hundredths), places)
}

/// Where the list of ready values stands.
pub fn preset_place(at: Spot, width: i64, height: i64, kind: PresetKind) -> (r: Spot)
    requires
        at.is_near(),
        near(width),
        near(height),
    ensures
        r.x == kept_inside(at.x as int, width as int, 96 * POINT),
        r.y == kept_inside(
            at.y as int,
            height as int,
            presets_of(kind).len() * 26 * POINT + 18 * POINT,
        ),
{
    let values = preset_values(kind);
    let rows: i64 = values.len() as i64;
    assert(rows == values@.map_values(|x: i64| x as int).len());
    Spot {
        x: keep_inside(at.x, width, 96 * POINT),
        y: keep_inside(at.y, height, rows * 26 * POINT + 18 * POINT),
    }
}

/// Gives the edited paragraph a ready value. A distance between lines is a
/// factor of the size that the block has in the document.
pub fn apply_preset(selection: &mut Selection, kind: PresetKind, value: Points)
    requires
        near(old(selection).original_size()),
        sane(old(selection).size),
        kind == PresetKind::LineHeight ==> 0 <= value <= 0x1_0000_0000,
    ensures
        *final(selection) == match kind {
            PresetKind::CharSpacing => Selection {
                char_spacing_override: Some(value),
                touched: true,
                ..*old(selection)
            },
            PresetKind::HScale => if value > POINT {
                Selection { h_scale_override: Some(value), touched: true, ..*old(selection) }
            } else {
                *old(selection)
            },
            PresetKind::LineHeight => Selection {
                line_height: Some(
                    max_of(
                        pixels(old(selection).original_size() as int, value as int),
                        smallest_leading(old(selection).size),
                    ) as i64,
                ),
                needs_retypeset: true,
                touched: true,
                ..*old(selection)
            },
        },
{
    match kind {
        PresetKind::CharSpacing => selection.set_char_spacing(value),
        PresetKind::HScale => {
            selection.set_h_scale(value);
        },
        PresetKind::LineHeight => {
            let size: Points = match &selection.page_font {
                Some(font) => font.size,
                None => selection.size,
            };
            assert(-0x10_0000_0000_0000 * 0x1_0000_0000 <= size * value <= 0x10_0000_0000_0000
                * 0x1_0000_0000) by (nonlinear_arith)
                requires
                    -0x10_0000_0000_0000 <= size <= 0x10_0000_0000_0000,
                    0 <= value <= 0x1_0000_0000,
            ;
            let leading: i128 = floor_divide(size as i128 * value as i128);
            selection.set_line_height(leading as i64);
        },
    }
}

/// The change of a group that a ready value stands for. A width of a percent
/// or less is none.
pub fn preset_change(kind: PresetKind, value: Points) -> (r: Option<GroupChange>)
    ensures
        r == match kind {
            PresetKind::CharSpacing => Some(GroupChange::CharSpacing(value)),
            PresetKind::HScale => if value > POINT {
                Some(GroupChange::HScale(value))
            } else {
                None
            },
            PresetKind::LineHeight => Some(GroupChange::Leading(value)),
        },
{
    match kind {
        PresetKind::CharSpacing => Some(GroupChange::CharSpacing(value)),
        PresetKind::HScale => if value > POINT {
            Some(GroupChange::HScale(value))
        } else {
            None
        },
        PresetKind::LineHeight => Some(GroupChange::Leading(value)),
    }
}

/// What is said after a page was copied.
pub fn copied_page_status(page: u32) -> (r: String)
    ensures
        r@ == "Страница "@ + decimal_text((page + 1) as nat) + " скопирована"@,
{
    "Страница ".to_owned().concat(decimal(page as u64 + 1).as_str()).concat(" скопирована")
}

/// The menu of a page is about that page: it is turned and deleted by its
/// number, copied and exported by its index, and what is pasted comes right
/// behind it. Pasting can be chosen where something was copied, and all else
/// always; deleting alone is marked as dangerous.
pub proof fn a_page_menu_is_about_its_page(page: u32, picked: int, buffered: int, i: int)
    requires
        page < u32::MAX,
        0 <= i < page_items(page, picked, buffered).len(),
    ensures
        ({
            let item = page_items(page, picked, buffered)[i];
            &&& match item.action {
                MenuAction::Rotate { page_number, .. } => page_number == page + 1,
                MenuAction::Export { page: index } => index == page,
                MenuAction::CopyPage { page: index } => index == page,
                MenuAction::PastePages { after } => after == page + 1,
                MenuAction::DeletePage { page_number } => page_number == page + 1,
                _ => false,
            }
            &&& item.enabled == (buffered > 0 || !(item.action is PastePages))
            &&& item.danger == (item.action is DeletePage)
        }),
        page_items(page, picked, buffered).len() == 6,
        forall|j: int, k: int|
            0 <= j < k < 6 ==> (#[trigger] page_items(page, picked, buffered)[j]).action != (
            #[trigger] page_items(page, picked, buffered)[k]).action,
{
}

/// The menu of the text works on what is there: something can be copied or
/// deleted where it is selected, and pasted where it was copied; a group is
/// deleted as a whole.
pub proof fn a_text_menu_works_on_what_is_there(selected: bool, group: bool, copied: bool, i: int)
    requires
        0 <= i < text_items(selected, group, copied).len(),
    ensures
        ({
            let item = text_items(selected, group, copied)[i];
            &&& item.action is PasteBlocks ==> item.enabled == copied
            &&& !(item.action is PasteBlocks) ==> item.enabled == (selected || group)
            &&& item.action is DeleteGroup ==> group
            &&& item.action is EraseSelected ==> !group
            &&& item.danger == (item.action is DeleteGroup || item.action is EraseSelected)
        }),
        text_items(selected, group, copied).len() == 3,
        text_items(selected, group, copied)[0].action is CopyBlocks,
        text_items(selected, group, copied)[1].action is PasteBlocks,
        text_items(selected, group, copied)[2].danger,
{
}

/// What is chosen in the menu of a gap comes into that gap: behind so many
/// pages as lie in front of it.
pub proof fn a_gap_is_filled_where_it_is(after: u32, before_first: bool, buffered: int, i: int)
    requires
        after < u32::MAX,
        0 <= i < insert_items(after, before_first, buffered).len(),
    ensures
        ({
            let item = insert_items(after, before_first, buffered)[i];
            let front = if before_first {
                0int
            } else {
                after + 1
            };
            &&& match item.action {
                MenuAction::InsertBlank { page_number } => page_number == front,
                MenuAction::PastePages { after } => after == front,
                MenuAction::InsertDocument { page_number } => page_number == front,
                _ => false,
            }
            &&& item.enabled == (buffered > 0 || !(item.action is PastePages))
            &&& !item.danger
        }),
        insert_items(after, before_first, buffered).len() == 3,
{
}

/// A menu stands at the cursor where it fits there, and else as near to it as
/// the window lets it: no place in the window is nearer.
pub proof fn a_menu_stands_near_the_cursor(at: int, room: int, size: int, other: int)
    requires
        0 <= size <= room,
        0 <= other,
        other + size <= room,
    ensures
        ({
            let place = kept_inside(at, room, size);
            let off = if place >= at {
                place - at
            } else {
                at - place
            };
            &&& off <= other - at || off <= at - other
        }),
{
}

/// A number of hundredths is the nearest length to it.
pub proof fn hundredths_are_rounded_to_the_nearest(hundredths: int)
    ensures
        -50 <= 100 * of_hundredths(hundredths) - hundredths * POINT <= 50,
{
}

/// The ready values of a field are listed from the least to the greatest, and
/// the usual one is among them: no space between letters, their own width and
/// six fifths of the size between lines.
pub proof fn ready_values_are_in_order(kind: PresetKind, i: int, j: int)
    requires
        0 <= i < j < presets_of(kind).len(),
    ensures
        presets_of(kind)[i] < presets_of(kind)[j],
        presets_of(PresetKind::CharSpacing).contains(0),
        presets_of(PresetKind::HScale).contains(10000),
        presets_of(PresetKind::LineHeight).contains(120),
        forall|k: int|
            0 <= k < presets_of(PresetKind::HScale).len() ==> 100 < #[trigger] presets_of(
                PresetKind::HScale,
            )[k],
        forall|k: int|
            0 <= k < presets_of(PresetKind::LineHeight).len() ==> 100 <= #[trigger] presets_of(
                PresetKind::LineHeight,
            )[k],
{
    assert(presets_of(PresetKind::CharSpacing)[5] == 0);
    assert(presets_of(PresetKind::HScale)[4] == 10000);
    assert(presets_of(PresetKind::LineHeight)[1] == 120);
}

} // verus!
