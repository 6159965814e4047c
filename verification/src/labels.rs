//! What the window says: titles, counters and marks.
use crate::document::{opt_chars, Align, Script};
use crate::edits::Selection;
use crate::geometry::sane;
use crate::numerals::{decimal, decimal_text, fixed, fixed_text};
use crate::units::Points;
use vstd::prelude::*;

verus! {

/// So many spaces.
pub open spec fn spaces(count: int) -> Seq<char> {
    Seq::new(
        if count > 0 {
            count as nat
        } else {
            0
        },
        |i: int| ' ',
    )
}

fn append_spaces(text: String, count: usize) -> (r: String)
    ensures
        r@ == text@ + spaces(count as int),
{
    proof {
        reveal_strlit(" ");
    }
    let mut out = text;
    let ghost before = text@;
    let mut i: usize = 0;
    assert(out@ == before + spaces(0));
    while i < count
        invariant
            i <= count,
            " "@ == seq![' '],
            out@ == before + spaces(i as int),
        decreases count - i,
    {
        out.append(" ");
        i = i + 1;
        assert(out@ == before + spaces(i as int));
    }
    out
}

/// A text moved to the right of a width.
pub open spec fn to_the_right(text: Seq<char>, width: int) -> Seq<char> {
    spaces(width - text.len()) + text
}

/// A text filled up to a width.
pub open spec fn to_the_left(text: Seq<char>, width: int) -> Seq<char> {
    text + spaces(width - text.len())
}

fn missing(text: &str, width: usize) -> (r: usize)
    ensures
        r == if width > text@.len() {
            width - text@.len()
        } else {
            0
        },
{
    let len: usize = crate::chars::chars_of_str(text).len();
    if width > len {
        width - len
    } else {
        0
    }
}

fn right(text: String, width: usize) -> (r: String)
    ensures
        r@ == to_the_right(text@, width as int),
{
    let n: usize = missing(text.as_str(), width);
    let out = append_spaces(String::new(), n).concat(text.as_str());
    assert(out@ == to_the_right(text@, width as int));
    out
}

fn left(text: String, width: usize) -> (r: String)
    ensures
        r@ == to_the_left(text@, width as int),
{
    let n: usize = missing(text.as_str(), width);
    append_spaces(text, n)
}

/// The counters below the pages. Their widths are fixed: they change with
/// every frame, and the line would jump.
pub open spec fn counters(page: nat, pages: nat, bytes: int, tiles: nat, queue: nat) -> Seq<char> {
    "стр. "@ + to_the_right(decimal_text(page), 4) + " из "@ + to_the_left(decimal_text(pages), 4)
        + "   ·   кэш "@ + to_the_right(fixed_text((16 * bytes) as i64, 0), 4) + " МБ в "@
        + to_the_right(decimal_text(tiles), 3) + " тайлах   ·   в очереди "@ + to_the_right(
        decimal_text(queue),
        3,
    )
}

/// The line below the pages: the last message, or the counters.
pub fn status_line(
    status: &Option<String>,
    current_page: u32,
    pages: u32,
    bytes: u64,
    tiles: usize,
    queue: usize,
) -> (r: String)
    requires
        bytes <= 0x100_0000_0000_0000,
    ensures
        r@ == match *status {
            Some(message) => message@,
            None => counters(
                (current_page + 1) as nat,
                pages as nat,
                bytes as int,
                tiles as nat,
                queue as nat,
            ),
        },
{
    if let Some(message) = status {
        return message.clone();
    }
    let page = right(decimal(current_page as u64 + 1), 4);
    let all = left(decimal(pages as u64), 4);
    let size = right(fixed(bytes as i64 * 16, 0), 4);
    let count = right(decimal(tiles as u64), 3);
    let waiting = right(decimal(queue as u64), 3);
    "стр. ".to_owned().concat(page.as_str()).concat(" из ").concat(all.as_str()).concat(
        "   ·   кэш ",
    ).concat(size.as_str()).concat(" МБ в ").concat(count.as_str()).concat(
        " тайлах   ·   в очереди ",
    ).concat(waiting.as_str())
}

/// The title of the window.
pub fn document_title(name: &str, dirty: bool) -> (r: String)
    ensures
        r@ == if dirty {
            name@ + " — есть несохранённые правки"@
        } else {
            name@
        },
{
    if dirty {
        name.to_owned().concat(" — есть несохранённые правки")
    } else {
        name.to_owned()
    }
}

/// The zoom in percent.
pub fn zoom_label(zoom: i64) -> (r: String)
    requires
        0 <= zoom <= 0x1_0000_0000,
    ensures
        r@ == fixed_text((100 * zoom) as i64, 0) + "%"@,
{
    fixed(100 * zoom, 0).concat("%")
}

/// The number of a thumbnail.
pub fn thumbnail_label(page: u32, total: u32) -> (r: String)
    ensures
        r@ == decimal_text((page + 1) as nat) + "/"@ + decimal_text(total as nat),
{
    decimal(page as u64 + 1).concat("/").concat(decimal(total as u64).as_str())
}

/// The number of a page.
pub fn page_label(page: u32, total: u32) -> (r: String)
    ensures
        r@ == decimal_text((page + 1) as nat) + " / "@ + decimal_text(total as nat),
{
    decimal(page as u64 + 1).concat(" / ").concat(decimal(total as u64).as_str())
}

/// What is said where there is no document.
pub fn placeholder(error: &Option<String>) -> (r: String)
    ensures
        r@ == match *error {
            Some(error) => "Не удалось открыть документ:\n"@ + error@,
            None => "Передайте путь к PDF аргументом:\ncargo run -p app -- book.pdf"@,
        },
{
    match error {
        Some(error) => "Не удалось открыть документ:\n".to_owned().concat(error.as_str()),
        None => "Передайте путь к PDF аргументом:\ncargo run -p app -- book.pdf".to_owned(),
    }
}

/// The name of the file that a page is saved to. A document without a name
/// gives a page its own.
pub fn export_name(stem: &Option<String>, page: u32) -> (r: String)
    ensures
        r@ == match *stem {
            Some(stem) => stem@,
            None => "страница"@,
        } + "_p"@ + decimal_text((page + 1) as nat) + ".pdf"@,
{
    let name = match stem {
        Some(stem) => stem.clone(),
        None => "страница".to_owned(),
    };
    name.concat("_p").concat(decimal(page as u64 + 1).as_str()).concat(".pdf")
}

/// The name of the file that a document is saved to.
pub open spec fn saved_text(stem: Option<Seq<char>>) -> Seq<char> {
    let name = match stem {
        Some(stem) => stem,
        None => "документ"@,
    };
    name + "_правка.pdf"@
}

/// The name of the file that a document is saved to. An edit of a document
/// cannot be taken back, and the opened file may be the only copy: so the
/// result lies beside it and never over it.
pub fn saved_name(stem: &Option<String>) -> (r: String)
    ensures
        r@ == saved_text(opt_chars(*stem)),
{
    let name = match stem {
        Some(stem) => stem.clone(),
        None => "документ".to_owned(),
    };
    name.concat("_правка.pdf")
}

/// A document is never saved over the opened file, whose name is the stem with
/// its extension, if any.
pub proof fn saving_never_replaces_the_original(stem: Seq<char>, extension: Option<Seq<char>>)
    ensures
        saved_text(Some(stem)) != match extension {
            Some(extension) => stem + "."@ + extension,
            None => stem,
        },
{
    reveal_strlit("_правка.pdf");
    reveal_strlit(".");
    let saved = saved_text(Some(stem));
    assert(saved[stem.len() as int] == '_');
    if let Some(extension) = extension {
        assert((stem + "."@ + extension)[stem.len() as int] == '.');
    } else {
        assert(saved.len() != stem.len());
    }
}

/// A font of the document.
#[derive(Debug, PartialEq, Eq)]
pub struct DocumentFont {
    /// The name as it is written in the document.
    pub base_font: String,
    pub subtype: String,
    pub embedded: bool,
    /// Only the characters that occur are embedded.
    pub subset: bool,
    pub system_family: Option<String>,
    /// On how many pages it occurs.
    pub pages: usize,
}

/// What is known of a font.
pub open spec fn font_marks_text(
    embedded: bool,
    subset: bool,
    system_family: Option<Seq<char>>,
    subtype: Seq<char>,
    pages: nat,
) -> Seq<char> {
    (if !embedded {
        "не вшит"@
    } else if subset {
        "подмножество"@
    } else {
        "вшит целиком"@
    }) + " · "@ + match system_family {
        Some(family) => "в системе: "@ + family,
        None => "в системе нет"@,
    } + " · "@ + (if subtype.len() > 0 {
        subtype + " · "@
    } else {
        Seq::empty()
    }) + decimal_text(pages) + " стр."@
}

impl DocumentFont {
    /// What is known of the font.
    pub fn marks(&self) -> (r: String)
        ensures
            r@ == font_marks_text(
                self.embedded,
                self.subset,
                opt_chars(self.system_family),
                self.subtype@,
                self.pages as nat,
            ),
    {
        let first = if !self.embedded {
            "не вшит".to_owned()
        } else if self.subset {
            "подмножество".to_owned()
        } else {
            "вшит целиком".to_owned()
        };
        let second = match &self.system_family {
            Some(family) => "в системе: ".to_owned().concat(family.as_str()),
            None => "в системе нет".to_owned(),
        };
        let third = if crate::chars::chars_of_str(self.subtype.as_str()).len() > 0 {
            self.subtype.clone().concat(" · ")
        } else {
            String::new()
        };
        first.concat(" · ").concat(second.as_str()).concat(" · ").concat(third.as_str()).concat(
            decimal(self.pages as u64).as_str(),
        ).concat(" стр.")
    }

    /// What is said of a font that is not installed. Even an embedded one may
    /// hold only the characters that occur already.
    pub fn warning(&self) -> (r: Option<&'static str>)
        ensures
            match r {
                Some(text) => self.system_family is None && text@ == if self.embedded {
                    "поставьте шрифт в систему — иначе новых знаков не набрать"@
                } else {
                    "поставьте шрифт в систему — набирать нечем"@
                },
                None => self.system_family is Some,
            },
    {
        if self.system_family.is_some() {
            return None;
        }
        Some(
            if self.embedded {
                "поставьте шрифт в систему — иначе новых знаков не набрать"
            } else {
                "поставьте шрифт в систему — набирать нечем"
            },
        )
    }

    /// The font that is shown as the replacement of this one: the one that was
    /// chosen, or else, for one that is not installed, the one that was found;
    /// and whether it is the latter.
    pub fn replacement(&self, manual: Option<String>, found: Option<String>) -> (r: (
        Option<String>,
        bool,
    ))
        ensures
            r.1 == (manual is None && self.system_family is None && found is Some),
            opt_chars(r.0) == if manual is Some {
                opt_chars(manual)
            } else if self.system_family is None {
                opt_chars(found)
            } else {
                None
            },
    {
        if manual.is_some() {
            return (manual, false);
        }
        if self.system_family.is_some() {
            return (None, false);
        }
        let automatic = found.is_some();
        (found, automatic)
    }
}

/// What the button that picks a font says.
pub fn font_button_title(family: &Option<String>, face: &Option<String>) -> (r: String)
    ensures
        r@ == {
            let name = match *family {
                Some(family) => family@,
                None => "Гарнитура…"@,
            };
            match *face {
                Some(face) => name + " · "@ + face@,
                None => name,
            }
        },
{
    let name = match family {
        Some(family) => family.clone(),
        None => "Гарнитура…".to_owned(),
    };
    match face {
        Some(face) => name.concat(" · ").concat(face.as_str()),
        None => name,
    }
}

/// What the panel of properties shows.
#[derive(Clone, Copy, Debug, PartialEq, Eq, Structural)]
pub enum PanelMode {
    Hidden,
    /// Several blocks.
    Group,
    /// Nothing is selected.
    Empty,
    Block,
}

/// What the panel of properties shows. In the grid of pages it has nothing to
/// show.
pub fn panel_mode(shown: bool, grid: bool, group: usize, selected: bool) -> (r: PanelMode)
    ensures
        r == if !shown || grid {
            PanelMode::Hidden
        } else if group > 1 {
            PanelMode::Group
        } else if selected {
            PanelMode::Block
        } else {
            PanelMode::Empty
        },
{
    if !shown || grid {
        PanelMode::Hidden
    } else if group > 1 {
        PanelMode::Group
    } else if selected {
        PanelMode::Block
    } else {
        PanelMode::Empty
    }
}

/// The icon of an alignment.
pub fn align_icon(align: Align) -> (r: &'static str)
    ensures
        r@ == match align {
            Align::Left => "icons/text-align-left.svg"@,
            Align::Center => "icons/text-align-center.svg"@,
            Align::Right => "icons/text-align-right.svg"@,
            Align::Justify => "icons/text-align-justify-center.svg"@,
        },
{
    match align {
        Align::Left => "icons/text-align-left.svg",
        Align::Center => "icons/text-align-center.svg",
        Align::Right => "icons/text-align-right.svg",
        Align::Justify => "icons/text-align-justify-center.svg",
    }
}

/// The glyph of an alignment.
pub fn align_glyph(align: Align) -> (r: &'static str)
    ensures
        r@ == match align {
            Align::Left => "≡L"@,
            Align::Center => "≡C"@,
            Align::Right => "≡R"@,
            Align::Justify => "≡J"@,
        },
{
    match align {
        Align::Left => "≡L",
        Align::Center => "≡C",
        Align::Right => "≡R",
        Align::Justify => "≡J",
    }
}

/// A second press on the button of an index brings the text back to its line.
pub fn toggled(current: Script, wanted: Script) -> (r: Script)
    ensures
        r == if current == wanted {
            Script::Baseline
        } else {
            wanted
        },
{
    if current == wanted {
        Script::Baseline
    } else {
        wanted
    }
}

/// The red, the green and the blue of a packed colour.
pub fn unpack(rgb: u32) -> (r: (u32, u32, u32))
    ensures
        r.0 == rgb / 0x1_0000 % 0x100,
        r.1 == rgb / 0x100 % 0x100,
        r.2 == rgb % 0x100,
{
    (rgb / 0x1_0000 % 0x100, rgb / 0x100 % 0x100, rgb % 0x100)
}

/// A colour that is packed of three parts is unpacked to them.
pub proof fn unpacking_gives_the_parts_back(red: u32, green: u32, blue: u32)
    requires
        red < 0x100,
        green < 0x100,
        blue < 0x100,
    ensures
        ({
            let rgb = (red * 0x1_0000 + green * 0x100 + blue) as u32;
            rgb / 0x1_0000 % 0x100 == red && rgb / 0x100 % 0x100 == green && rgb % 0x100 == blue
        }),
{
    let n = red * 0x1_0000 + green * 0x100 + blue;
    vstd::arithmetic::div_mod::lemma_fundamental_div_mod_converse(
        n,
        0x1_0000,
        red as int,
        green * 0x100 + blue,
    );
    vstd::arithmetic::div_mod::lemma_fundamental_div_mod_converse(
        n,
        0x100,
        red * 0x100 + green,
        blue as int,
    );
    vstd::arithmetic::div_mod::lemma_fundamental_div_mod_converse(
        red * 0x100 + green,
        0x100,
        red as int,
        green as int,
    );
    vstd::arithmetic::div_mod::lemma_fundamental_div_mod_converse(red as int, 0x100, 0, red as int);
}

/// By how much a button changes the distance between lines.
pub const LEADING_STEP: Points = 0x80_0000;

impl Selection {
    /// The distance between lines that the panel shows: the one that is set,
    /// or six fifths of the size.
    pub open spec fn shown_leading(self) -> int {
        match self.line_height {
            Some(points) => points as int,
            None => 6 * self.size / 5,
        }
    }

    /// The distance between lines that the panel shows.
    pub fn leading(&self) -> (r: Points)
        requires
            sane(self.size),
        ensures
            r == self.shown_leading(),
    {
        match self.line_height {
            Some(points) => points,
            None => {
                let n: i64 = 6 * self.size;
                if n >= 0 {
                    n / 5
                } else if n % 5 == 0 {
                    n / 5
                } else {
                    n / 5 - 1
                }
            },
        }
    }

    /// The distance between lines as the panel shows it.
    pub fn leading_text(&self) -> (r: String)
        requires
            sane(self.size),
        ensures
            r@ == fixed_text(self.shown_leading() as i64, 1) + " пт"@,
    {
        fixed(self.leading(), 1).concat(" пт")
    }

    /// What the document says of the block: the font, the size, the number of
    /// lines and the page.
    pub fn document_texts(&self) -> (r: (String, String, String, String))
        ensures
            r.0@ == match self.page_font {
                Some(font) => font.base_font@,
                None => "читается…"@,
            },
            r.1@ == fixed_text(self.original_size(), 2) + " пт"@,
            r.2@ == decimal_text(self.lines as nat),
            r.3@ == decimal_text((self.page + 1) as nat),
    {
        let font = match &self.page_font {
            Some(font) => font.base_font.clone(),
            None => "читается…".to_owned(),
        };
        let size: Points = match &self.page_font {
            Some(font) => font.size,
            None => self.size,
        };
        (
            font,
            fixed(size, 2).concat(" пт"),
            decimal(self.lines as u64),
            decimal(self.page as u64 + 1),
        )
    }
}

/// A text that is moved to the side of a width is as wide, or as wide as it is,
/// and it is filled up with spaces alone: on the left where it goes to the
/// right.
pub proof fn a_text_is_filled_up_with_spaces(text: Seq<char>, width: int, i: int)
    requires
        0 <= i,
    ensures
        ({
            let right = to_the_right(text, width);
            let left = to_the_left(text, width);
            let len = if width > text.len() {
                width
            } else {
                text.len() as int
            };
            &&& right.len() == len
            &&& left.len() == len
            &&& right.skip(len - text.len()) == text
            &&& left.take(text.len() as int) == text
            &&& i < len - text.len() ==> right[i] == ' ' && left[text.len() + i] == ' '
        }),
{
    let right = to_the_right(text, width);
    let left = to_the_left(text, width);
    assert(right.skip(right.len() - text.len()) =~= text);
    assert(left.take(text.len() as int) =~= text);
}

/// The line of counters keeps its length while the numbers have no more digits
/// than there is room for.
pub proof fn the_counters_do_not_jump(
    a: (nat, nat, int, nat, nat),
    b: (nat, nat, int, nat, nat),
)
    requires
        decimal_text(a.0).len() <= 4,
        decimal_text(b.0).len() <= 4,
        decimal_text(a.1).len() <= 4,
        decimal_text(b.1).len() <= 4,
        fixed_text((16 * a.2) as i64, 0).len() <= 4,
        fixed_text((16 * b.2) as i64, 0).len() <= 4,
        decimal_text(a.3).len() <= 3,
        decimal_text(b.3).len() <= 3,
        decimal_text(a.4).len() <= 3,
        decimal_text(b.4).len() <= 3,
    ensures
        counters(a.0, a.1, a.2, a.3, a.4).len() == counters(b.0, b.1, b.2, b.3, b.4).len(),
{
}

/// Where no distance between lines is set, the panel shows six fifths of the
/// size, and else the one that is set.
pub proof fn the_panel_shows_the_leading(s: Selection)
    ensures
        s.line_height is Some ==> s.shown_leading() == s.line_height->0,
        s.line_height is None ==> 5 * s.shown_leading() <= 6 * s.size < 5 * (s.shown_leading()
            + 1),
{
}

} // verus!
