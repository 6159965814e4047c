//! Editing right in the text of the page: keys, the mouse and the input method.
//!
//! The system counts a text in units of UTF-16, the model in bytes of UTF-8. A
//! Cyrillic letter is one unit and two bytes.
use crate::chars::{
    byte_len, byte_offset, chars_before, chars_of_str, count_before, lemma_chars_before,
    lemma_offset_grows,
    lemma_offset_ends, offset_of, offset_round_trip, on_boundary, str_bytes,
};
use crate::geometry::{max_of, near};
use crate::rich_text::{
    lemma_chars_styled, lemma_replaced, styled, typing_replaces_the_selection, Movement, RichText,
    TextView,
};
use crate::text_layout::{pixels, points, Mark, TextLayout};
use crate::units::POINT;
use std::ops::Range;
use vstd::prelude::*;

verus! {

/// How many units of UTF-16 a character takes.
pub open spec fn char_units(c: char) -> nat {
    if (c as int) < 0x10000 {
        1
    } else {
        2
    }
}

/// How many units of UTF-16 a text takes.
pub open spec fn units(s: Seq<char>) -> nat
    decreases s.len(),
{
    if s.len() == 0 {
        0
    } else {
        units(s.drop_last()) + char_units(s.last())
    }
}

/// The first character, from the `k`-th on, in front of which there are so
/// many units; the end of the text where there are fewer.
pub open spec fn char_at_unit(s: Seq<char>, target: int, k: int) -> int
    decreases s.len() - k,
{
    if k >= s.len() || units(s.take(k)) >= target {
        k
    } else {
        char_at_unit(s, target, k + 1)
    }
}

/// The byte offset at an offset in units of UTF-16.
pub open spec fn byte_of_unit(s: Seq<char>, target: int) -> int {
    offset_of(s, char_at_unit(s, target, 0)) as int
}

/// The offset in units of UTF-16 at a byte offset.
pub open spec fn unit_of_byte(s: Seq<char>, byte: int) -> int {
    units(s.take(chars_before(s, byte))) as int
}

/// One step of [`units`].
proof fn lemma_units_step(s: Seq<char>, k: int)
    requires
        0 <= k < s.len(),
    ensures
        units(s.take(k + 1)) == units(s.take(k)) + char_units(s[k]),
{
    assert(s.take(k + 1).drop_last() == s.take(k));
}

/// More characters take more units, and no more than they take bytes.
proof fn lemma_units_grow(s: Seq<char>, i: int, j: int)
    requires
        0 <= i <= j <= s.len(),
    ensures
        units(s.take(i)) + (j - i) <= units(s.take(j)),
        units(s.take(j)) <= offset_of(s, j),
    decreases j,
{
    if i < j {
        lemma_units_grow(s, i, j - 1);
        lemma_units_step(s, j - 1);
        assert(s.take(j).drop_last() == s.take(j - 1));
    } else if j > 0 {
        lemma_units_grow(s, i - 1, j - 1);
        lemma_units_step(s, j - 1);
        assert(s.take(j).drop_last() == s.take(j - 1));
    }
}

proof fn lemma_char_at_unit(s: Seq<char>, target: int, k: int)
    requires
        0 <= k <= s.len(),
    ensures
        k <= char_at_unit(s, target, k) <= s.len(),
    decreases s.len() - k,
{
    if k < s.len() && units(s.take(k)) < target {
        lemma_char_at_unit(s, target, k + 1);
    }
}

/// The units in front of a character lead back to that character.
proof fn lemma_unit_of_char(s: Seq<char>, k: int, from: int)
    requires
        0 <= from <= k <= s.len(),
    ensures
        char_at_unit(s, units(s.take(k)) as int, from) == k,
    decreases k - from,
{
    if from < k {
        lemma_units_grow(s, from, k);
        lemma_unit_of_char(s, k, from + 1);
    }
}

/// From bytes to units and back is the same place, for every place between
/// two characters.
pub proof fn units_and_bytes_round_trip(s: Seq<char>, byte: int)
    requires
        0 <= byte <= byte_len(s),
        on_boundary(s, byte),
    ensures
        byte_of_unit(s, unit_of_byte(s, byte)) == byte,
{
    lemma_chars_before(s, byte);
    lemma_unit_of_char(s, chars_before(s, byte), 0);
}

/// Every offset of the system leads to a place between two characters.
pub proof fn units_lead_between_characters(s: Seq<char>, target: int)
    ensures
        0 <= byte_of_unit(s, target) <= byte_len(s),
        on_boundary(s, byte_of_unit(s, target)),
{
    lemma_char_at_unit(s, target, 0);
    offset_round_trip(s, char_at_unit(s, target, 0));
}

/// The number of units of UTF-16 that a character takes.
fn utf16_width(c: char) -> (r: usize)
    ensures
        r == char_units(c),
{
    if (c as u32) < 0x10000 {
        1
    } else {
        2
    }
}

/// The byte offset at an offset in units of UTF-16.
pub fn utf16_to_byte(text: &str, target: usize) -> (r: usize)
    ensures
        r == byte_of_unit(text@, target as int),
        r <= byte_len(text@),
{
    let length: usize = str_bytes(text);
    let chars = chars_of_str(text);
    let mut seen: usize = 0;
    let mut k: usize = 0;
    while k < chars.len() && seen < target
        invariant
            chars@ == text@,
            length == byte_len(text@),
            k <= text@.len(),
            seen == units(text@.take(k as int)),
            char_at_unit(text@, target as int, 0) == char_at_unit(text@, target as int, k as int),
        decreases text@.len() - k,
    {
        proof {
            lemma_units_step(text@, k as int);
            lemma_units_grow(text@, k + 1, text@.len() as int);
            lemma_offset_ends(text@);
        }
        seen = seen + utf16_width(chars[k]);
        k = k + 1;
    }
    proof {
        offset_round_trip(text@, k as int);
    }
    byte_offset(chars.as_slice(), k)
}

/// The offset in units of UTF-16 at a byte offset.
pub fn byte_to_utf16(text: &str, byte: usize) -> (r: usize)
    requires
        byte < byte_len(text@) ==> on_boundary(text@, byte as int),
    ensures
        r == unit_of_byte(text@, byte as int),
{
    let length: usize = str_bytes(text);
    let chars = chars_of_str(text);
    let count: usize = count_before(chars.as_slice(), byte);
    proof {
        lemma_chars_before(text@, byte as int);
    }
    let mut seen: usize = 0;
    let mut k: usize = 0;
    while k < count
        invariant
            chars@ == text@,
            length == byte_len(text@),
            k <= count <= text@.len(),
            seen == units(text@.take(k as int)),
        decreases count - k,
    {
        proof {
            lemma_units_step(text@, k as int);
            lemma_units_grow(text@, k + 1, text@.len() as int);
            lemma_offset_ends(text@);
        }
        seen = seen + utf16_width(chars[k]);
        k = k + 1;
    }
    seen
}

/// Whether the caret may stand at a byte offset of the text.
pub fn is_boundary(text: &str, byte: usize) -> (r: bool)
    ensures
        r == (byte >= byte_len(text@) || on_boundary(text@, byte as int)),
{
    let length: usize = str_bytes(text);
    if byte >= length {
        return true;
    }
    let chars = chars_of_str(text);
    let count: usize = count_before(chars.as_slice(), byte);
    proof {
        lemma_chars_before(text@, byte as int);
    }
    byte_offset(chars.as_slice(), count) == byte
}

/// What the editor tells its surroundings.
#[derive(Clone, Copy, Debug, PartialEq, Eq, Structural)]
pub enum EditorEvent {
    /// The text or its style has changed.
    Changed,
    /// The edit was given up.
    Cancel,
}

/// What a key does in the text.
#[derive(Clone, Copy, Debug, PartialEq, Eq, Structural)]
pub enum KeyCommand {
    Backspace,
    Delete,
    Move(Movement, bool),
    SelectAll,
    NewLine,
    Cancel,
    /// Printed characters come from the input method, not from here.
    Ignore,
}

/// The command of a key: `control` moves by words, `shift` extends the
/// selection.
pub open spec fn command_of(key: Seq<char>, shift: bool, control: bool) -> KeyCommand {
    if key == "backspace"@ {
        KeyCommand::Backspace
    } else if key == "delete"@ {
        KeyCommand::Delete
    } else if key == "left"@ {
        KeyCommand::Move(
            if control {
                Movement::WordLeft
            } else {
                Movement::Left
            },
            shift,
        )
    } else if key == "right"@ {
        KeyCommand::Move(
            if control {
                Movement::WordRight
            } else {
                Movement::Right
            },
            shift,
        )
    } else if key == "home"@ {
        KeyCommand::Move(Movement::Start, shift)
    } else if key == "end"@ {
        KeyCommand::Move(Movement::End, shift)
    } else if key == "a"@ && control {
        KeyCommand::SelectAll
    } else if key == "enter"@ {
        KeyCommand::NewLine
    } else if key == "escape"@ {
        KeyCommand::Cancel
    } else {
        KeyCommand::Ignore
    }
}

/// Whether two strings hold the same characters.
pub(crate) fn same_str(a: &str, b: &str) -> (r: bool)
    ensures
        r == (a@ == b@),
{
    a.to_owned() == b.to_owned()
}

/// The command of a key.
pub fn key_command(key: &str, shift: bool, control: bool) -> (r: KeyCommand)
    ensures
        r == command_of(key@, shift, control),
{
    if same_str(key, "backspace") {
        KeyCommand::Backspace
    } else if same_str(key, "delete") {
        KeyCommand::Delete
    } else if same_str(key, "left") {
        KeyCommand::Move(
            if control {
                Movement::WordLeft
            } else {
                Movement::Left
            },
            shift,
        )
    } else if same_str(key, "right") {
        KeyCommand::Move(
            if control {
                Movement::WordRight
            } else {
                Movement::Right
            },
            shift,
        )
    } else if same_str(key, "home") {
        KeyCommand::Move(Movement::Start, shift)
    } else if same_str(key, "end") {
        KeyCommand::Move(Movement::End, shift)
    } else if control && same_str(key, "a") {
        KeyCommand::SelectAll
    } else if same_str(key, "enter") {
        KeyCommand::NewLine
    } else if same_str(key, "escape") {
        KeyCommand::Cancel
    } else {
        KeyCommand::Ignore
    }
}

/// What a command does to the text.
pub open spec fn obeys(command: KeyCommand, before: TextView, after: TextView) -> bool {
    match command {
        KeyCommand::Backspace => before.is_backspaced(after),
        KeyCommand::Delete => before.is_deleted(after),
        KeyCommand::Move(movement, extend) => after == before.moved(movement, extend),
        KeyCommand::SelectAll => after == (TextView {
            anchor: 0,
            caret: byte_len(before.text()) as int,
            pending: before.pending_at(byte_len(before.text()) as int),
            ..before
        }),
        KeyCommand::NewLine => before.is_inserted("\n"@, after),
        KeyCommand::Cancel => after == before,
        KeyCommand::Ignore => after == before,
    }
}

/// The event that follows a command.
pub open spec fn event_of(command: KeyCommand) -> Option<EditorEvent> {
    match command {
        KeyCommand::Cancel => Some(EditorEvent::Cancel),
        KeyCommand::Ignore => None,
        _ => Some(EditorEvent::Changed),
    }
}

/// The text that is edited on the page.
#[derive(Debug)]
pub struct RichTextEditor {
    pub text: RichText,
    /// Input that the input method may still replace, in bytes.
    pub marked: Option<Range<usize>>,
    /// A selection with the mouse has begun inside the text.
    pub selecting: bool,
}

/// What a [`RichTextEditor`] holds.
#[verifier::ext_equal]
pub struct EditorView {
    pub text: TextView,
    pub marked: Option<(int, int)>,
    pub selecting: bool,
}

impl View for RichTextEditor {
    type V = EditorView;

    open spec fn view(&self) -> EditorView {
        EditorView {
            text: self.text@,
            marked: match self.marked {
                Some(range) => Some((range.start as int, range.end as int)),
                None => None,
            },
            selecting: self.selecting,
        }
    }
}

impl EditorView {
    /// Whether what is marked can be told to the system.
    pub open spec fn mark_fits(self) -> bool {
        match self.marked {
            Some((start, end)) => {
                &&& start < byte_len(self.text.text()) ==> on_boundary(self.text.text(), start)
                &&& end < byte_len(self.text.text()) ==> on_boundary(self.text.text(), end)
            },
            None => true,
        }
    }

    /// What is marked, in units of UTF-16.
    pub open spec fn marked_units(self) -> Option<(int, int)> {
        match self.marked {
            Some((start, end)) => Some(
                (unit_of_byte(self.text.text(), start), unit_of_byte(self.text.text(), end)),
            ),
            None => None,
        }
    }

    /// The text with the range selected that the system names; where it names
    /// none, what is marked, or else what is selected already.
    pub open spec fn aimed(self, range: Option<(int, int)>) -> TextView {
        let named = if range is Some {
            range
        } else {
            self.marked_units()
        };
        match named {
            Some((from, to)) => {
                let start = self.text.settled(byte_of_unit(self.text.text(), from));
                let there = TextView { caret: start, anchor: start, pending: None, ..self.text };
                let end = self.text.settled(byte_of_unit(self.text.text(), to));
                TextView { caret: end, ..there }
            },
            None => self.text,
        }
    }
}

/// A range as two numbers.
pub open spec fn pair(range: Option<Range<usize>>) -> Option<(int, int)> {
    match range {
        Some(range) => Some((range.start as int, range.end as int)),
        None => None,
    }
}

impl RichTextEditor {
    /// An editor of a text, with nothing marked.
    pub fn new(text: RichText) -> (r: RichTextEditor)
        ensures
            r@ == (EditorView { text: text@, marked: None, selecting: false }),
    {
        RichTextEditor { text, marked: None, selecting: false }
    }

    /// Obeys a key and says what is to be told.
    pub fn on_key(&mut self, key: &str, shift: bool, control: bool) -> (r: Option<EditorEvent>)
        requires
            old(self).text.wf(),
            byte_len(old(self).text@.text()) < usize::MAX,
        ensures
            final(self).text.wf(),
            obeys(command_of(key@, shift, control), old(self)@.text, final(self)@.text),
            final(self)@.marked == old(self)@.marked,
            final(self)@.selecting == old(self)@.selecting,
            r == event_of(command_of(key@, shift, control)),
    {
        match key_command(key, shift, control) {
            KeyCommand::Backspace => self.text.backspace(),
            KeyCommand::Delete => self.text.delete(),
            KeyCommand::Move(movement, extend) => self.text.move_caret(movement, extend),
            KeyCommand::SelectAll => self.text.select_all(),
            KeyCommand::NewLine => {
                proof {
                    reveal_strlit("\n");
                    assert("\n"@ == seq!['\n']);
                    assert("\n"@.drop_last() == Seq::<char>::empty());
                    assert(byte_len("\n"@.drop_last()) == 0);
                    assert("\n"@.last() == '\n');
                }
                self.text.insert("\n")
            },
            KeyCommand::Cancel => {
                return Some(EditorEvent::Cancel);
            },
            KeyCommand::Ignore => {
                return None;
            },
        }
        Some(EditorEvent::Changed)
    }

    /// The text in a range of the system, and the range that it really is.
    pub fn text_for_range(&self, range: Range<usize>) -> (r: (String, Range<usize>))
        requires
            self.text.wf(),
        ensures
            ({
                let s = self@.text.text();
                let from = char_at_unit(s, range.start as int, 0);
                let end = char_at_unit(s, range.end as int, 0);
                let to = if end >= from {
                    end
                } else {
                    from
                };
                &&& r.0@ == s.subrange(from, to)
                &&& r.1.start == units(s.take(from))
                &&& r.1.end == units(s.take(to))
            }),
    {
        let text = self.text.text();
        let chars = chars_of_str(text.as_str());
        let from: usize = utf16_to_byte(text.as_str(), range.start);
        let end: usize = utf16_to_byte(text.as_str(), range.end);
        let start: usize = count_before(chars.as_slice(), from);
        let stop: usize = count_before(chars.as_slice(), end);
        proof {
            let s = text@;
            lemma_char_at_unit(s, range.start as int, 0);
            lemma_char_at_unit(s, range.end as int, 0);
            offset_round_trip(s, char_at_unit(s, range.start as int, 0));
            offset_round_trip(s, char_at_unit(s, range.end as int, 0));
        }
        if stop >= start {
            let adjusted = byte_to_utf16(text.as_str(), from)..byte_to_utf16(text.as_str(), end);
            (text.as_str().substring_char(start, stop).to_owned(), adjusted)
        } else {
            let at: usize = byte_to_utf16(text.as_str(), from);
            assert(text@.subrange(start as int, start as int) == Seq::<char>::empty());
            (String::new(), at..at)
        }
    }

    /// What is selected, in units of UTF-16.
    pub fn selected_text_range(&self) -> (r: Range<usize>)
        requires
            self.text.wf(),
        ensures
            r.start == unit_of_byte(self@.text.text(), self@.text.start()),
            r.end == unit_of_byte(self@.text.text(), self@.text.end()),
    {
        let text = self.text.text();
        let range = self.text.selection();
        byte_to_utf16(text.as_str(), range.start)..byte_to_utf16(text.as_str(), range.end)
    }

    /// What is marked, in units of UTF-16.
    pub fn marked_text_range(&self) -> (r: Option<Range<usize>>)
        requires
            self@.mark_fits(),
        ensures
            pair(r) == self@.marked_units(),
    {
        let text = self.text.text();
        match &self.marked {
            Some(range) => Some(
                byte_to_utf16(text.as_str(), range.start)..byte_to_utf16(text.as_str(), range.end),
            ),
            None => None,
        }
    }

    /// What is marked stays as it is.
    pub fn unmark_text(&mut self)
        ensures
            final(self)@ == (EditorView { marked: None, ..old(self)@ }),
            final(self).text == old(self).text,
    {
        self.marked = None;
    }

    /// Selects the range that the system names.
    pub fn select_utf16(&mut self, range: Option<Range<usize>>)
        requires
            old(self).text.wf(),
            range is None ==> old(self)@.mark_fits(),
        ensures
            final(self).text.wf(),
            final(self)@ == (EditorView { text: old(self)@.aimed(pair(range)), ..old(self)@ }),
    {
        let named = match range {
            Some(range) => Some(range),
            None => self.marked_text_range(),
        };
        if let Some(range) = named {
            let text = self.text.text();
            let from: usize = utf16_to_byte(text.as_str(), range.start);
            let to: usize = utf16_to_byte(text.as_str(), range.end);
            self.text.set_caret(from);
            self.text.extend_to(to);
        }
    }

    /// Takes a text that the input method gave for good.
    pub fn replace_text_in_range(&mut self, range: Option<Range<usize>>, new_text: &str) -> (r:
        EditorEvent)
        requires
            old(self).text.wf(),
            range is None ==> old(self)@.mark_fits(),
            byte_len(old(self)@.text.text()) + byte_len(new_text@) <= usize::MAX,
        ensures
            final(self).text.wf(),
            old(self)@.aimed(pair(range)).is_inserted(new_text@, final(self)@.text),
            final(self)@.marked is None,
            final(self)@.selecting == old(self)@.selecting,
            r == EditorEvent::Changed,
    {
        self.select_utf16(range);
        self.text.insert(new_text);
        self.marked = None;
        EditorEvent::Changed
    }

    /// Takes a text that the input method may still replace, and marks it.
    pub fn replace_and_mark_text_in_range(
        &mut self,
        range: Option<Range<usize>>,
        new_text: &str,
    ) -> (r: EditorEvent)
        requires
            old(self).text.wf(),
            range is None ==> old(self)@.mark_fits(),
            byte_len(old(self)@.text.text()) + byte_len(new_text@) <= usize::MAX,
        ensures
            final(self).text.wf(),
            ({
                let aimed = old(self)@.aimed(pair(range));
                &&& aimed.is_inserted(new_text@, final(self)@.text)
                &&& final(self)@.marked == Some(
                    (aimed.start(), aimed.start() + byte_len(new_text@)),
                )
            }),
            final(self)@.mark_fits(),
            final(self)@.selecting == old(self)@.selecting,
            r == EditorEvent::Changed,
    {
        self.select_utf16(range);
        let start: usize = self.text.selection().start;
        let ghost aimed = self.text@;
        self.text.insert(new_text);
        proof {
            lemma_replaced(aimed, styled(new_text@, aimed.typing_style()));
            lemma_chars_styled(new_text@, aimed.typing_style());
        }
        self.marked = Some(start..start + str_bytes(new_text));
        EditorEvent::Changed
    }

    /// A press of the mouse on the text puts the caret there.
    pub fn press(&mut self, offset: usize)
        requires
            old(self).text.wf(),
        ensures
            final(self).text.wf(),
            final(self)@ == (EditorView {
                text: TextView {
                    caret: old(self)@.text.settled(offset as int),
                    anchor: old(self)@.text.settled(offset as int),
                    pending: None,
                    ..old(self)@.text
                },
                selecting: true,
                ..old(self)@
            }),
    {
        self.text.set_caret(offset);
        self.selecting = true;
    }

    /// A move with the button held selects, but only where the press was on
    /// the text: dragging a grip of the frame selects nothing.
    pub fn drag_to(&mut self, offset: usize)
        requires
            old(self).text.wf(),
        ensures
            final(self).text.wf(),
            !old(self)@.selecting ==> final(self)@ == old(self)@,
            old(self)@.selecting ==> final(self)@ == (EditorView {
                text: TextView {
                    caret: old(self)@.text.settled(offset as int),
                    pending: old(self)@.text.pending_at(old(self)@.text.settled(offset as int)),
                    ..old(self)@.text
                },
                ..old(self)@
            }),
    {
        if self.selecting {
            self.text.extend_to(offset);
        }
    }

    /// Letting the button go ends the selection.
    pub fn release(&mut self)
        ensures
            final(self)@ == (EditorView { selecting: false, ..old(self)@ }),
            final(self).text == old(self).text,
    {
        self.selecting = false;
    }
}

/// A key that gives the edit up changes nothing, and neither does a key that
/// is not a command.
pub proof fn other_keys_leave_the_text(
    key: Seq<char>,
    shift: bool,
    control: bool,
    before: TextView,
    after: TextView,
)
    requires
        obeys(command_of(key, shift, control), before, after),
        event_of(command_of(key, shift, control)) != Some(EditorEvent::Changed),
    ensures
        after == before,
{
}

impl RichTextEditor {
    /// Where the system shows what belongs to a place of the text, from the
    /// corner of the paragraph.
    pub fn bounds_for_range(&self, start: usize, layout: &TextLayout) -> (r: Mark)
        requires
            layout.wf(),
        ensures
            ({
                let (x, top, height) = layout@.caret(byte_of_unit(self@.text.text(), start as int));
                &&& r.x == pixels(x, layout@.scale)
                &&& r.y == pixels(top, layout@.scale)
                &&& r.width == POINT
                &&& r.height == pixels(height, layout@.scale)
            }),
    {
        let text = self.text.text();
        let mark = layout.caret(utf16_to_byte(text.as_str(), start));
        Mark { x: mark.x, y: mark.y, width: POINT, height: mark.height }
    }

    /// The place of the text, in units of UTF-16, under a point of the
    /// paragraph.
    pub fn character_index_for_point(&self, x: i64, y: i64, layout: &TextLayout) -> (r: usize)
        requires
            layout.wf(),
            near(x),
            near(y),
            ({
                let byte = layout@.offset_at(
                    points(x as int, layout@.scale),
                    points(y as int, layout@.scale),
                );
                byte < byte_len(self@.text.text()) ==> on_boundary(self@.text.text(), byte)
            }),
        ensures
            r == unit_of_byte(
                self@.text.text(),
                layout@.offset_at(
                    points(x as int, layout@.scale),
                    points(y as int, layout@.scale),
                ),
            ),
    {
        let text = self.text.text();
        byte_to_utf16(text.as_str(), layout.offset_at(x, y))
    }
}

/// The least width of the frame around the edited text, in pixels.
pub const NARROWEST_TEXT: i64 = 24 * 0x100_0000;

/// The size of the frame around the edited text: it hugs the text.
pub fn text_frame(layout: &TextLayout) -> (r: (i64, i64))
    requires
        layout.wf(),
    ensures
        r.0 == max_of(
            pixels(layout@.width_of(layout@.lines.len() as int), layout@.scale),
            NARROWEST_TEXT as int,
        ),
        r.1 == pixels(layout@.lines.len() * layout@.leading, layout@.scale),
{
    let width: i64 = layout.width();
    (
        if width > NARROWEST_TEXT {
            width
        } else {
            NARROWEST_TEXT
        },
        layout.height(),
    )
}

/// A character takes one unit, or two beyond the first 65536, and a text takes
/// as many as its parts together.
pub proof fn units_are_counted_character_by_character(a: Seq<char>, b: Seq<char>, c: char)
    ensures
        units(a + b) == units(a) + units(b),
        units(seq![c]) == if (c as int) <= 0xffff {
            1nat
        } else {
            2nat
        },
    decreases b.len(),
{
    assert(seq![c].drop_last() == Seq::<char>::empty());
    assert(units(Seq::<char>::empty()) == 0);
    if b.len() == 0 {
        assert(a + b == a);
    } else {
        units_are_counted_character_by_character(a, b.drop_last(), c);
        assert((a + b).drop_last() == a + b.drop_last());
    }
}

/// An offset of the system leads in front of the first character that begins
/// there or after it.
pub proof fn a_unit_leads_to_its_character(s: Seq<char>, target: int, k: int)
    requires
        0 <= k <= s.len(),
        byte_of_unit(s, target) == byte_len(s.take(k)),
    ensures
        units(s.take(k)) >= target || k == s.len(),
        forall|m: int| 0 <= m < k ==> units(#[trigger] s.take(m)) < target,
{
    let found = char_at_unit(s, target, 0);
    lemma_char_at_unit(s, target, 0);
    offset_round_trip(s, found);
    offset_round_trip(s, k);
    lemma_first_at_unit(s, target, 0);
}

proof fn lemma_first_at_unit(s: Seq<char>, target: int, from: int)
    requires
        0 <= from <= s.len(),
    ensures
        ({
            let k = char_at_unit(s, target, from);
            &&& units(s.take(k)) >= target || k == s.len()
            &&& forall|m: int| from <= m < k ==> units(#[trigger] s.take(m)) < target
        }),
    decreases s.len() - from,
{
    if from < s.len() && units(s.take(from)) < target {
        lemma_first_at_unit(s, target, from + 1);
    }
}

/// Input that comes for a range, which the system names in its units, takes
/// the place of the characters in it, and of no other.
pub proof fn input_takes_the_place_of_its_range(
    before: EditorView,
    new_text: Seq<char>,
    after: TextView,
    i: int,
    j: int,
)
    requires
        before.text.valid(),
        0 <= i <= j <= before.text.text().len(),
        new_text.len() > 0,
        before.aimed(
            Some(
                (
                    units(before.text.text().take(i)) as int,
                    units(before.text.text().take(j)) as int,
                ),
            ),
        ).is_inserted(new_text, after),
    ensures
        after.text() == before.text.text().take(i) + new_text + before.text.text().skip(j),
        after.caret == byte_len(before.text.text().take(i)) + byte_len(new_text),
{
    let s = before.text.text();
    let aimed = before.aimed(Some((units(s.take(i)) as int, units(s.take(j)) as int)));
    lemma_unit_of_char(s, i, 0);
    lemma_unit_of_char(s, j, 0);
    offset_round_trip(s, i);
    offset_round_trip(s, j);
    lemma_chars_before(s, offset_of(s, i) as int);
    lemma_chars_before(s, offset_of(s, j) as int);
    assert(aimed.text() == s);
    assert(aimed.anchor == byte_len(s.take(i)));
    assert(aimed.caret == byte_len(s.take(j)));
    if i < j {
        lemma_offset_grows(s, i, j);
    }
    typing_replaces_the_selection(aimed, new_text, after, i, j);
}

/// Input that comes without a range takes the place of the input that is
/// marked.
pub proof fn input_takes_the_place_of_what_is_marked(before: EditorView, i: int, j: int)
    requires
        0 <= i <= j <= before.text.text().len(),
        before.marked == Some(
            (
                byte_len(before.text.text().take(i)) as int,
                byte_len(before.text.text().take(j)) as int,
            ),
        ),
    ensures
        before.aimed(None) == before.aimed(
            Some(
                (
                    units(before.text.text().take(i)) as int,
                    units(before.text.text().take(j)) as int,
                ),
            ),
        ),
{
    offset_round_trip(before.text.text(), i);
    offset_round_trip(before.text.text(), j);
}

/// The keys of the editor, whatever is held with them: the arrows move by a
/// character, with the control key by a word, and with the shift key they
/// select.
pub proof fn each_key_has_its_command(shift: bool, control: bool)
    ensures
        command_of("backspace"@, shift, control) == KeyCommand::Backspace,
        command_of("delete"@, shift, control) == KeyCommand::Delete,
        command_of("left"@, shift, false) == KeyCommand::Move(Movement::Left, shift),
        command_of("left"@, shift, true) == KeyCommand::Move(Movement::WordLeft, shift),
        command_of("right"@, shift, false) == KeyCommand::Move(Movement::Right, shift),
        command_of("right"@, shift, true) == KeyCommand::Move(Movement::WordRight, shift),
        command_of("home"@, shift, control) == KeyCommand::Move(Movement::Start, shift),
        command_of("end"@, shift, control) == KeyCommand::Move(Movement::End, shift),
        command_of("a"@, shift, true) == KeyCommand::SelectAll,
        command_of("a"@, shift, false) == KeyCommand::Ignore,
        command_of("enter"@, shift, control) == KeyCommand::NewLine,
        command_of("escape"@, shift, control) == KeyCommand::Cancel,
{
    reveal_strlit("backspace");
    reveal_strlit("delete");
    reveal_strlit("left");
    reveal_strlit("right");
    reveal_strlit("home");
    reveal_strlit("end");
    reveal_strlit("a");
    reveal_strlit("enter");
    reveal_strlit("escape");
    assert("backspace"@[0] == 'b');
    assert("delete"@[0] == 'd');
    assert("left"@[0] == 'l');
    assert("right"@[0] == 'r');
    assert("home"@[0] == 'h');
    assert("end"@[0] == 'e' && "end"@.len() == 3);
    assert("a"@[0] == 'a');
    assert("enter"@[0] == 'e' && "enter"@.len() == 5);
    assert("escape"@[0] == 'e' && "escape"@.len() == 6);
}

/// A key whose name none of the commands has does nothing: printed characters
/// come from the input method.
pub proof fn a_single_letter_is_no_command(c: char, shift: bool, control: bool)
    requires
        c != 'a' || !control,
    ensures
        command_of(seq![c], shift, control) == KeyCommand::Ignore,
        event_of(command_of(seq![c], shift, control)) is None,
{
    reveal_strlit("backspace");
    reveal_strlit("delete");
    reveal_strlit("left");
    reveal_strlit("right");
    reveal_strlit("home");
    reveal_strlit("end");
    reveal_strlit("a");
    reveal_strlit("enter");
    reveal_strlit("escape");
    assert("backspace"@.len() == 9 && "delete"@.len() == 6 && "left"@.len() == 4);
    assert("right"@.len() == 5 && "home"@.len() == 4 && "end"@.len() == 3);
    assert("enter"@.len() == 5 && "escape"@.len() == 6);
    assert("a"@[0] == 'a');
    assert(seq![c][0] == c && seq![c].len() == 1);
}

} // verus!
