//! What the panel of properties does to the edited paragraph.
use crate::chars::{chars_of_str, is_white_space, white_space};
use crate::document::{Align, Script};
use crate::edits::Selection;
use crate::frame::{is_normal, normalise};
use crate::geometry::{abs_of, greatest, max_of, sane, Rect};
use crate::numerals::{fixed, fixed_text};
use crate::rich_text::{RichText, StyleChange};
use crate::units::{Color, Points, POINT};
use vstd::prelude::*;

verus! {

/// A frame that is not wider, or not higher, is not set.
pub const SMALLEST_FRAME: Points = 4 * 0x100_0000;

/// The least distance between lines of a size: six tenths of it, and a point.
pub open spec fn smallest_leading(size: Points) -> int {
    max_of(3 * size / 5, POINT as int)
}

/// The least distance between lines of a size.
fn least_leading(size: Points) -> (r: Points)
    requires
        sane(size),
    ensures
        r == smallest_leading(size),
{
    if size <= 0 {
        return POINT;
    }
    greatest(3 * size / 5, POINT)
}

/// The numbers that the panel shows.
#[derive(Debug, PartialEq, Eq)]
pub struct PropertyTexts {
    pub x: String,
    /// From the top of the page.
    pub y: String,
    pub w: String,
    pub h: String,
    pub angle: String,
    pub char_spacing: String,
    pub h_scale: String,
    pub para_spacing: String,
}

/// A value, or another where there is none.
pub open spec fn value_or(value: Option<Points>, other: Points) -> Points {
    match value {
        Some(value) => value,
        None => other,
    }
}

fn or_else(value: Option<Points>, other: Points) -> (r: Points)
    ensures
        r == value_or(value, other),
{
    match value {
        Some(value) => value,
        None => other,
    }
}

impl Selection {
    /// Moves the frame to an abscissa; its width stays.
    pub fn set_frame_x(&mut self, x: Points)
        requires
            old(self).frame.is_sane(),
            sane(x),
        ensures
            *final(self) == (Selection {
                frame: Rect {
                    left: x,
                    right: (x + (old(self).frame.right - old(self).frame.left)) as i64,
                    ..old(self).frame
                },
                touched: true,
                ..*old(self)
            }),
            final(self).frame.left == x,
            final(self).frame.right - final(self).frame.left == old(self).frame.right - old(
                self,
            ).frame.left,
    {
        let width: Points = self.frame.width();
        self.frame.left = x;
        self.frame.right = x + width;
        self.touched = true;
    }

    /// Moves the frame to a distance from the top of the page; its height
    /// stays.
    pub fn set_frame_y_top(&mut self, y_top: Points, page_height: Points)
        requires
            old(self).frame.is_sane(),
            sane(y_top),
            sane(page_height),
        ensures
            *final(self) == (Selection {
                frame: Rect {
                    top: (page_height - y_top) as i64,
                    bottom: (page_height - y_top - (old(self).frame.top
                        - old(self).frame.bottom)) as i64,
                    ..old(self).frame
                },
                touched: true,
                ..*old(self)
            }),
            page_height - final(self).frame.top == y_top,
            final(self).frame.top - final(self).frame.bottom == old(self).frame.top - old(
                self,
            ).frame.bottom,
    {
        let height: Points = self.frame.height();
        self.frame.top = page_height - y_top;
        self.frame.bottom = self.frame.top - height;
        self.touched = true;
    }

    /// Sets the width of the frame.
    pub fn set_frame_w(&mut self, w: Points) -> (r: bool)
        requires
            old(self).frame.is_sane(),
            sane(w),
        ensures
            r == (w > SMALLEST_FRAME),
            !r ==> *final(self) == *old(self),
            r ==> *final(self) == (Selection {
                frame: Rect { right: (old(self).frame.left + w) as i64, ..old(self).frame },
                touched: true,
                ..*old(self)
            }),
    {
        if w <= SMALLEST_FRAME {
            return false;
        }
        self.frame.right = self.frame.left + w;
        self.touched = true;
        true
    }

    /// Sets the height of the frame; its top stays.
    pub fn set_frame_h(&mut self, h: Points) -> (r: bool)
        requires
            old(self).frame.is_sane(),
            sane(h),
        ensures
            r == (h > SMALLEST_FRAME),
            !r ==> *final(self) == *old(self),
            r ==> *final(self) == (Selection {
                frame: Rect { bottom: (old(self).frame.top - h) as i64, ..old(self).frame },
                touched: true,
                ..*old(self)
            }),
    {
        if h <= SMALLEST_FRAME {
            return false;
        }
        self.frame.bottom = self.frame.top - h;
        self.touched = true;
        true
    }

    /// Sets the space between paragraphs; it is never negative.
    pub fn set_para_spacing(&mut self, value: Points)
        ensures
            *final(self) == (Selection {
                para_spacing_override: Some(max_of(value as int, 0) as i64),
                touched: true,
                ..*old(self)
            }),
    {
        self.para_spacing_override = Some(greatest(value, 0));
        self.touched = true;
    }

    /// Sets the ground behind the letters, or takes it away.
    pub fn set_fill(&mut self, fill: Option<Color>)
        ensures
            *final(self) == (Selection { fill, touched: true, ..*old(self) }),
    {
        self.fill = fill;
        self.touched = true;
    }

    /// Sets the space between letters.
    pub fn set_char_spacing(&mut self, value: Points)
        ensures
            *final(self) == (Selection {
                char_spacing_override: Some(value),
                touched: true,
                ..*old(self)
            }),
    {
        self.char_spacing_override = Some(value);
        self.touched = true;
    }

    /// Sets the width of letters, in percent; one of a percent or less is not
    /// set.
    pub fn set_h_scale(&mut self, value: Points) -> (r: bool)
        ensures
            r == (value > POINT),
            !r ==> *final(self) == *old(self),
            r ==> *final(self) == (Selection {
                h_scale_override: Some(value),
                touched: true,
                ..*old(self)
            }),
    {
        if value <= POINT {
            return false;
        }
        self.h_scale_override = Some(value);
        self.touched = true;
        true
    }

    /// Sets the alignment; the text is then set anew.
    pub fn set_align(&mut self, align: Align) -> (r: bool)
        ensures
            r == (old(self).align != align),
            !r ==> *final(self) == *old(self),
            r ==> *final(self) == (Selection {
                align,
                needs_retypeset: true,
                touched: true,
                ..*old(self)
            }),
    {
        if self.align == align {
            return false;
        }
        self.align = align;
        self.needs_retypeset = true;
        self.touched = true;
        true
    }

    /// Sets the distance between lines. Much less than the size, and the lines
    /// would lie on one another, so it goes no further down.
    pub fn set_line_height(&mut self, points: Points)
        requires
            sane(old(self).size),
        ensures
            *final(self) == (Selection {
                line_height: Some(max_of(points as int, smallest_leading(old(self).size)) as i64),
                needs_retypeset: true,
                touched: true,
                ..*old(self)
            }),
    {
        let smallest: Points = least_leading(self.size);
        self.line_height = Some(greatest(points, smallest));
        self.needs_retypeset = true;
        self.touched = true;
    }

    /// Turns the block.
    pub fn set_rotation(&mut self, degrees: i64)
        ensures
            is_normal(degrees as int, final(self).rotation as int),
            *final(self) == (Selection {
                rotation: final(self).rotation,
                touched: true,
                ..*old(self)
            }),
    {
        self.rotation = normalise(degrees);
        self.touched = true;
    }

    /// Follows the handle that turns the block; a turn that cannot be seen is
    /// not made.
    pub fn turn_to(&mut self, rotation: i64) -> (r: bool)
        requires
            sane(old(self).rotation),
            sane(rotation),
        ensures
            r == (20 * abs_of(old(self).rotation - rotation) >= POINT),
            !r ==> *final(self) == *old(self),
            r ==> *final(self) == (Selection { rotation, touched: true, ..*old(self) }),
    {
        let change: i64 = self.rotation - rotation;
        let size: i64 = if change < 0 {
            -change
        } else {
            change
        };
        if size as i128 * 20 < POINT as i128 {
            return false;
        }
        self.rotation = rotation;
        self.touched = true;
        true
    }

    /// The numbers that the panel shows.
    pub fn property_texts(&self, page_height: Points) -> (r: PropertyTexts)
        requires
            self.frame.is_sane(),
            sane(page_height),
        ensures
            r.x@ == fixed_text(self.frame.left, 1),
            r.y@ == fixed_text((page_height - self.frame.top) as i64, 1),
            r.w@ == fixed_text((self.frame.right - self.frame.left) as i64, 1),
            r.h@ == fixed_text((self.frame.top - self.frame.bottom) as i64, 1),
            r.angle@ == fixed_text(self.rotation, 0),
            r.char_spacing@ == fixed_text(
                value_or(self.char_spacing_override, self.seeded_char_spacing),
                2,
            ),
            r.h_scale@ == fixed_text(value_or(self.h_scale_override, self.seeded_h_scale), 0),
            r.para_spacing@ == fixed_text(value_or(self.para_spacing_override, 0), 1),
    {
        PropertyTexts {
            x: fixed(self.frame.left, 1),
            y: fixed(page_height - self.frame.top, 1),
            w: fixed(self.frame.width(), 1),
            h: fixed(self.frame.height(), 1),
            angle: fixed(self.rotation, 0),
            char_spacing: fixed(or_else(self.char_spacing_override, self.seeded_char_spacing), 2),
            h_scale: fixed(or_else(self.h_scale_override, self.seeded_h_scale), 0),
            para_spacing: fixed(or_else(self.para_spacing_override, 0), 1),
        }
    }
}

/// Whether a text is another without the white space at its ends.
pub open spec fn is_trimmed(text: Seq<char>, trimmed: Seq<char>) -> bool {
    exists|from: int, to: int|
        {
            &&& 0 <= from <= to <= text.len()
            &&& trimmed == #[trigger] text.subrange(from, to)
            &&& forall|i: int| 0 <= i < from ==> white_space(#[trigger] text[i])
            &&& forall|i: int| to <= i < text.len() ==> white_space(#[trigger] text[i])
            &&& from < to ==> !white_space(text[from]) && !white_space(text[to - 1])
        }
}

/// Characters without white space at their ends.
pub(crate) fn trimmed_chars(text: &Vec<char>) -> (r: (usize, usize))
    ensures
        r.0 <= r.1 <= text@.len(),
        is_trimmed(text@, text@.subrange(r.0 as int, r.1 as int)),
{
    let mut from: usize = 0;
    while from < text.len() && is_white_space(text[from])
        invariant
            from <= text@.len(),
            forall|i: int| 0 <= i < from ==> white_space(#[trigger] text@[i]),
        decreases text@.len() - from,
    {
        from = from + 1;
    }
    let mut to: usize = text.len();
    while from < to && is_white_space(text[to - 1])
        invariant
            from <= to <= text@.len(),
            forall|i: int| to <= i < text@.len() ==> white_space(#[trigger] text@[i]),
        decreases to,
    {
        to = to - 1;
    }
    (from, to)
}

/// A number as it is written with a point, out of one with a comma and, where
/// it may be an angle, a sign of degrees.
pub open spec fn plain_number(text: Seq<char>, angle: bool) -> Seq<char>
    decreases text.len(),
{
    if text.len() == 0 {
        text
    } else if angle && text.last() == '°' {
        plain_number(text.drop_last(), angle)
    } else if text.last() == ',' {
        plain_number(text.drop_last(), angle).push('.')
    } else {
        plain_number(text.drop_last(), angle).push(text.last())
    }
}

/// What was typed into a field, made ready to be read as a number. A sign of
/// degrees is passed over where the field may hold an angle.
pub fn number_text(text: &str, angle: bool) -> (r: String)
    ensures
        exists|trimmed: Seq<char>|
            #[trigger] is_trimmed(text@, trimmed) && r@ == plain_number(trimmed, angle),
{
    let chars = chars_of_str(text);
    let (from, to) = trimmed_chars(&chars);
    let ghost trimmed = chars@.subrange(from as int, to as int);
    let mut out = String::new();
    let mut i: usize = from;
    while i < to
        invariant
            from <= i <= to <= chars@.len(),
            chars@ == text@,
            trimmed == chars@.subrange(from as int, to as int),
            out@ == plain_number(trimmed.take(i - from), angle),
        decreases to - i,
    {
        proof {
            assert(trimmed.take(i + 1 - from).drop_last() == trimmed.take(i - from));
            assert(trimmed.take(i + 1 - from).last() == chars@[i as int]);
        }
        let c = chars[i];
        if c == ',' {
            proof {
                reveal_strlit(".");
            }
            out.append(".");
            assert(out@ == plain_number(trimmed.take(i + 1 - from), angle));
        } else if !(angle && c == '°') {
            out.append(text.substring_char(i, i + 1));
            assert(text@.subrange(i as int, i + 1) == seq![c]);
            assert(out@ == plain_number(trimmed.take(i + 1 - from), angle));
        }
        i = i + 1;
    }
    assert(trimmed.take(to - from) == trimmed);
    out
}

/// A size that text can have, in points.
pub open spec fn usable_size(size: Points) -> bool {
    POINT <= size <= 400 * POINT
}

/// The size that was typed, where it can be used.
pub fn typed_size(typed: Option<Points>) -> (r: Option<Points>)
    ensures
        r == match typed {
            Some(size) => if usable_size(size) {
                Some(size)
            } else {
                None
            },
            None => None,
        },
{
    match typed {
        Some(size) => if POINT <= size && size <= 400 * POINT {
            Some(size)
        } else {
            None
        },
        None => None,
    }
}

/// The size that the panel stands for: the one that was typed, where it can be
/// used, else the one of the block.
pub fn panel_size(typed: Option<Points>, own: Points) -> (r: Points)
    ensures
        r == match typed {
            Some(size) => if usable_size(size) {
                size
            } else {
                own
            },
            None => own,
        },
{
    match typed_size(typed) {
        Some(size) => size,
        None => own,
    }
}

/// The state of the panel of formats.
#[derive(Debug, PartialEq, Eq)]
pub struct PanelFormat {
    pub family: String,
    pub size: Points,
    pub bold: bool,
    pub italic: bool,
    pub underline: bool,
}

impl Selection {
    /// The state of the panel. The face is the one where the caret stands, as
    /// in any editor of text, and not what was pressed last.
    pub fn current_format(
        &self,
        text: &RichText,
        chosen: &Option<String>,
        typed: Option<Points>,
    ) -> (r: PanelFormat)
        requires
            text.wf(),
        ensures
            r.family@ == match *chosen {
                Some(family) => family@,
                None => self.family@,
            },
            r.size == match typed {
                Some(size) => if usable_size(size) {
                    size
                } else {
                    self.size
                },
                None => self.size,
            },
            r.bold == text@.typing_style().bold,
            r.italic == text@.typing_style().italic,
            r.underline == text@.typing_style().underline,
    {
        let family = match chosen {
            Some(family) => family.clone(),
            None => self.family.clone(),
        };
        let style = text.style_at_caret();
        PanelFormat {
            family,
            size: panel_size(typed, self.size),
            bold: style.bold,
            italic: style.italic,
            underline: style.underline,
        }
    }
}

impl StyleChange {
    /// A change of the colour.
    pub fn color(color: Color) -> (r: StyleChange)
        ensures
            r == (StyleChange { color: Some(color), ..nothing() }),
    {
        let mut change = StyleChange::none();
        change.color = Some(color);
        change
    }

    /// A change to bold, or back.
    pub fn bold(value: bool) -> (r: StyleChange)
        ensures
            r == (StyleChange { bold: Some(value), ..nothing() }),
    {
        let mut change = StyleChange::none();
        change.bold = Some(value);
        change
    }

    /// A change to italic, or back.
    pub fn italic(value: bool) -> (r: StyleChange)
        ensures
            r == (StyleChange { italic: Some(value), ..nothing() }),
    {
        let mut change = StyleChange::none();
        change.italic = Some(value);
        change
    }

    /// A line under the text, or none.
    pub fn underline(value: bool) -> (r: StyleChange)
        ensures
            r == (StyleChange { underline: Some(value), ..nothing() }),
    {
        let mut change = StyleChange::none();
        change.underline = Some(value);
        change
    }

    /// A raised or a lowered text.
    pub fn script(script: Script) -> (r: StyleChange)
        ensures
            r == (StyleChange { script: Some(script), ..nothing() }),
    {
        let mut change = StyleChange::none();
        change.script = Some(script);
        change
    }
}

/// No change at all.
pub open spec fn nothing() -> StyleChange {
    StyleChange {
        family: None,
        size: None,
        color: None,
        bold: None,
        italic: None,
        underline: None,
        script: None,
    }
}

/// Lines never lie closer than a point, nor than six tenths of the size.
pub proof fn lines_are_kept_apart(size: Points)
    ensures
        smallest_leading(size) >= POINT,
        5 * smallest_leading(size) > 3 * size - 5,
        smallest_leading(size) > POINT ==> 5 * smallest_leading(size) <= 3 * size,
{
}

/// A text has one form without the white space at its ends.
pub proof fn trimming_has_one_outcome(text: Seq<char>, a: Seq<char>, b: Seq<char>)
    requires
        is_trimmed(text, a),
        is_trimmed(text, b),
    ensures
        a == b,
{
    let (p, q) = choose|from: int, to: int|
        {
            &&& 0 <= from <= to <= text.len()
            &&& a == #[trigger] text.subrange(from, to)
            &&& forall|i: int| 0 <= i < from ==> white_space(#[trigger] text[i])
            &&& forall|i: int| to <= i < text.len() ==> white_space(#[trigger] text[i])
            &&& from < to ==> !white_space(text[from]) && !white_space(text[to - 1])
        };
    let (s, t) = choose|from: int, to: int|
        {
            &&& 0 <= from <= to <= text.len()
            &&& b == #[trigger] text.subrange(from, to)
            &&& forall|i: int| 0 <= i < from ==> white_space(#[trigger] text[i])
            &&& forall|i: int| to <= i < text.len() ==> white_space(#[trigger] text[i])
            &&& from < to ==> !white_space(text[from]) && !white_space(text[to - 1])
        };
    if p < q {
        assert(!white_space(text[p]) && !white_space(text[q - 1]));
        assert(s <= p && q <= t);
        assert(!white_space(text[s]) && !white_space(text[t - 1]));
        assert(p <= s && t <= q);
    } else if s < t {
        assert(!white_space(text[s]));
        assert(p <= s && s < q);
    } else {
        assert(a =~= b);
    }
}

/// What is typed into a field is read character by character: a comma is read
/// as a point, the sign of degrees is passed over where the field may hold an
/// angle, and any other character stays.
pub proof fn a_number_is_read_by_its_characters(a: Seq<char>, b: Seq<char>, angle: bool, c: char)
    ensures
        plain_number(a + b, angle) == plain_number(a, angle) + plain_number(b, angle),
        plain_number(seq![','], angle) == seq!['.'],
        plain_number(seq!['°'], true) == Seq::<char>::empty(),
        plain_number(seq!['°'], false) == seq!['°'],
        c != ',' && c != '°' ==> plain_number(seq![c], angle) == seq![c],
    decreases b.len(),
{
    lemma_one_character(',', angle);
    lemma_one_character('°', true);
    lemma_one_character('°', false);
    lemma_one_character(c, angle);
    if b.len() == 0 {
        assert(a + b == a);
        assert(plain_number(b, angle) == Seq::<char>::empty());
        assert(plain_number(a, angle) + plain_number(b, angle) =~= plain_number(a, angle));
    } else {
        a_number_is_read_by_its_characters(a, b.drop_last(), angle, c);
        assert((a + b).drop_last() == a + b.drop_last());
        assert((a + b).last() == b.last());
        assert(plain_number(a + b, angle) =~= plain_number(a, angle) + plain_number(b, angle));
    }
}

proof fn lemma_one_character(c: char, angle: bool)
    ensures
        plain_number(seq![c], angle) == if angle && c == '°' {
            Seq::empty()
        } else if c == ',' {
            seq!['.']
        } else {
            seq![c]
        },
{
    let one = seq![c];
    assert(one.drop_last() == Seq::<char>::empty());
    assert(one.last() == c);
    assert(plain_number(one.drop_last(), angle) == Seq::<char>::empty());
    assert(Seq::<char>::empty().push(c) =~= seq![c]);
    assert(Seq::<char>::empty().push('.') =~= seq!['.']);
}

} // verus!
