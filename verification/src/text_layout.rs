//! Laying out a paragraph in lines, by the widths of the document's own fonts.
use crate::chars::{
    byte_len, byte_len_of_concatenation, byte_offset, chars_before, chars_of_str, count_before,
    is_white_space, lemma_chars_before, lemma_offset_ends, lemma_offset_grows, offset_of,
    offset_round_trip, on_boundary, str_bytes, white_space,
};
use crate::document::{copy_text, opt_chars, Script};
use crate::geometry::{greatest, max_of, min_of, near};
use crate::rich_text::{
    cells_of, chars_of, first_text, run_views, styled, RichText, Run, RunStyle, RunView, StyleView,
};
use crate::units::{Points, POINT};
use std::ops::Range;
use vstd::prelude::*;

verus! {

/// The characters at which a word or a gap between words begins.
pub open spec fn word_starts(text: Seq<char>) -> Seq<int>
    decreases text.len(),
{
    if text.len() == 0 {
        Seq::empty()
    } else {
        let before = word_starts(text.drop_last());
        let last = text.len() - 1;
        if last == 0 || white_space(text[last]) != white_space(text[last - 1]) {
            before.push(last)
        } else {
            before
        }
    }
}

/// The character at which the `i`-th word or gap ends.
pub open spec fn word_end(text: Seq<char>, i: int) -> int {
    if i + 1 < word_starts(text).len() {
        word_starts(text)[i + 1]
    } else {
        text.len() as int
    }
}

/// Words and gaps begin at the start of the text and come in order.
proof fn lemma_word_starts(text: Seq<char>)
    ensures
        text.len() == 0 <==> word_starts(text).len() == 0,
        word_starts(text).len() <= text.len(),
        text.len() > 0 ==> word_starts(text)[0] == 0,
        forall|i: int, j: int|
            0 <= i < j < word_starts(text).len() ==> #[trigger] word_starts(text)[i]
                < #[trigger] word_starts(text)[j],
        forall|i: int|
            0 <= i < word_starts(text).len() ==> 0 <= #[trigger] word_starts(text)[i] < text.len(),
    decreases text.len(),
{
    if text.len() > 0 {
        lemma_word_starts(text.drop_last());
    }
}

/// The characters of a word are alike, and so are those of a gap.
proof fn lemma_word_is_uniform(text: Seq<char>, i: int, k: int)
    requires
        0 <= i < word_starts(text).len(),
        word_starts(text)[i] <= k < word_end(text, i),
    ensures
        white_space(text[k]) == white_space(text[word_starts(text)[i]]),
    decreases text.len(),
{
    lemma_word_starts(text);
    let head = text.drop_last();
    let last = text.len() - 1;
    let before = word_starts(head);
    lemma_word_starts(head);
    if k < last {
        lemma_word_is_uniform(head, i, k);
    } else if word_starts(text).len() == before.len() {
        lemma_word_is_uniform(head, i, last - 1);
    }
}

/// A gap follows a word, and a word a gap.
proof fn lemma_words_alternate(text: Seq<char>, i: int)
    requires
        0 <= i,
        i + 1 < word_starts(text).len(),
    ensures
        white_space(text[word_starts(text)[i]]) != white_space(text[word_starts(text)[i + 1]]),
    decreases text.len(),
{
    let head = text.drop_last();
    let last = text.len() - 1;
    let before = word_starts(head);
    lemma_word_starts(text);
    lemma_word_starts(head);
    if i + 1 < before.len() {
        lemma_words_alternate(head, i);
    } else {
        lemma_word_is_uniform(head, i, last - 1);
    }
}

/// The characters at which a word or a gap begins.
fn starts_of(chars: &Vec<char>) -> (r: Vec<usize>)
    ensures
        r@.len() == word_starts(chars@).len(),
        forall|i: int| 0 <= i < r@.len() ==> #[trigger] r@[i] == word_starts(chars@)[i],
{
    let mut starts: Vec<usize> = Vec::new();
    let mut k: usize = 0;
    let ghost s = chars@;
    assert(s.take(0) == Seq::<char>::empty());
    while k < chars.len()
        invariant
            s == chars@,
            k <= s.len(),
            starts@.len() == word_starts(s.take(k as int)).len(),
            forall|i: int|
                0 <= i < starts@.len() ==> #[trigger] starts@[i] == word_starts(
                    s.take(k as int),
                )[i],
        decreases s.len() - k,
    {
        assert(s.take(k + 1).drop_last() == s.take(k as int));
        assert(s.take(k + 1)[k as int] == s[k as int]);
        assert(k > 0 ==> s.take(k + 1)[k - 1] == s[k - 1]);
        if k == 0 || is_white_space(chars[k]) != is_white_space(chars[k - 1]) {
            starts.push(k);
        }
        k = k + 1;
    }
    assert(s.take(s.len() as int) == s);
    starts
}

/// Splits the text into words and the gaps between them, as byte ranges.
pub fn tokenize(text: &str) -> (r: Vec<Range<usize>>)
    ensures
        r@.len() == word_starts(text@).len(),
        forall|i: int|
            0 <= i < r@.len() ==> (#[trigger] r@[i]).start == offset_of(
                text@,
                word_starts(text@)[i],
            ) && r@[i].end == offset_of(text@, word_end(text@, i)),
{
    let length: usize = str_bytes(text);
    let chars = chars_of_str(text);
    let starts = starts_of(&chars);
    let mut tokens: Vec<Range<usize>> = Vec::new();
    let mut i: usize = 0;
    let mut at: usize = 0;
    proof {
        lemma_offset_ends(text@);
        lemma_word_starts(text@);
    }
    while i < starts.len()
        invariant
            length == byte_len(text@),
            chars@ == text@,
            starts@.len() == word_starts(text@).len(),
            forall|k: int|
                0 <= k < starts@.len() ==> #[trigger] starts@[k] == word_starts(text@)[k],
            i <= starts@.len() == tokens@.len() + starts@.len() - i,
            i < starts@.len() ==> at == offset_of(text@, word_starts(text@)[i as int]),
            forall|k: int|
                0 <= k < i ==> (#[trigger] tokens@[k]).start == offset_of(
                    text@,
                    word_starts(text@)[k],
                ) && tokens@[k].end == offset_of(text@, word_end(text@, k)),
        decreases starts@.len() - i,
    {
        proof {
            lemma_word_starts(text@);
            lemma_offset_ends(text@);
        }
        let end: usize = if i + 1 < starts.len() {
            byte_offset(chars.as_slice(), starts[i + 1])
        } else {
            length
        };
        tokens.push(at..end);
        at = end;
        i = i + 1;
    }
    tokens
}

/// The words and gaps cover the text from end to end, none is empty, and words
/// and gaps take turns.
pub proof fn tokens_cover_the_text(text: Seq<char>, i: int)
    requires
        0 <= i < word_starts(text).len(),
    ensures
        word_starts(text)[0] == 0,
        word_starts(text)[i] < word_end(text, i) <= text.len(),
        i + 1 == word_starts(text).len() ==> word_end(text, i) == text.len(),
        i + 1 < word_starts(text).len() ==> word_end(text, i) == word_starts(text)[i + 1]
            && white_space(text[word_starts(text)[i]]) != white_space(text[word_end(text, i)]),
        forall|k: int|
            word_starts(text)[i] <= k < word_end(text, i) ==> white_space(#[trigger] text[k])
                == white_space(text[word_starts(text)[i]]),
{
    lemma_word_starts(text);
    if i + 1 < word_starts(text).len() {
        lemma_words_alternate(text, i);
    }
    assert forall|k: int| word_starts(text)[i] <= k < word_end(text, i) implies white_space(
        #[trigger] text[k],
    ) == white_space(text[word_starts(text)[i]]) by {
        lemma_word_is_uniform(text, i, k);
    }
}

/// The style of a paragraph that its runs start from.
#[derive(Clone, Copy, Debug, PartialEq, Eq, Structural)]
pub struct BaseStyle {
    /// The size of the text.
    pub size_points: Points,
    /// The distance between lines; none is given where it is not positive.
    pub line_height_points: Points,
    /// How many pixels a point takes, in [`POINT`]ths.
    pub points_to_px: i64,
}

/// The widest text that is laid out.
pub const WIDEST: i64 = 0x1000_0000_0000_0000;

/// A word or a gap between words, measured.
#[derive(Debug)]
pub struct Piece {
    pub text: String,
    /// Its place in the whole text, in bytes.
    pub range: Range<usize>,
    /// The width of its first characters: none, one, two and so on.
    pub stops: Vec<Points>,
    /// The size of the text, a script already made smaller.
    pub size: Points,
    /// A gap may hang over the right margin.
    pub blank: bool,
    /// The family by whose font the piece is measured.
    pub family: Option<String>,
}

/// What a [`Piece`] says.
#[verifier::ext_equal]
pub struct PieceView {
    pub text: Seq<char>,
    pub start: int,
    pub end: int,
    pub stops: Seq<Points>,
    pub size: int,
    pub blank: bool,
    pub family: Option<Seq<char>>,
}

impl View for Piece {
    type V = PieceView;

    open spec fn view(&self) -> PieceView {
        PieceView {
            text: self.text@,
            start: self.range.start as int,
            end: self.range.end as int,
            stops: self.stops@,
            size: self.size as int,
            blank: self.blank,
            family: opt_chars(self.family),
        }
    }
}

impl PieceView {
    pub open spec fn width(self) -> int {
        self.stops[self.stops.len() - 1] as int
    }

    /// The piece has characters, a place for them and a width for each head.
    pub open spec fn valid(self) -> bool {
        &&& self.text.len() > 0
        &&& self.end == self.start + byte_len(self.text)
        &&& self.stops.len() == self.text.len() + 1
        &&& self.width() <= WIDEST
        &&& forall|k: int|
            0 <= k < self.stops.len() ==> 0 <= #[trigger] self.stops[k] <= self.width()
    }

    /// Every character adds to the width.
    pub open spec fn grows(self) -> bool {
        &&& self.stops[0] == 0
        &&& forall|i: int, j: int|
            0 <= i < j < self.stops.len() ==> #[trigger] self.stops[i] < #[trigger] self.stops[j]
    }
}

/// The widths of the heads of a text on a page that spreads its characters and
/// draws them wider or narrower, by so many hundredths, out of their widths in
/// the font.
pub open spec fn spread(widths: Seq<Points>, char_spacing: int, h_scale: int) -> Seq<Points> {
    let whole = spread_width(widths, char_spacing, h_scale, widths.len() - 1);
    Seq::new(
        widths.len(),
        |k: int| min_of(spread_width(widths, char_spacing, h_scale, k), whole) as i64,
    )
}

/// The width of the first characters where each is followed by a space and all
/// are stretched.
pub open spec fn spread_width(
    widths: Seq<Points>,
    char_spacing: int,
    h_scale: int,
    k: int,
) -> int {
    let natural = within(widths[k] + k * char_spacing);
    within(natural * h_scale / (100 * POINT))
}

/// The nearest width that a text can have.
pub open spec fn within(width: int) -> int {
    min_of(max_of(width, 0), WIDEST as int)
}

/// The width of one head: see [`spread_width`].
fn spread_one(width: Points, k: usize, char_spacing: Points, h_scale: Points) -> (r: Points)
    ensures
        r == within(
            within(width + k * char_spacing) * h_scale / (100 * POINT),
        ),
        0 <= r <= WIDEST,
{
    assert(-(0xFFFF_FFFF_FFFF_FFFF * 0x8000_0000_0000_0000) <= k * char_spacing
        <= 0xFFFF_FFFF_FFFF_FFFF * 0x7FFF_FFFF_FFFF_FFFF) by (nonlinear_arith)
        requires
            0 <= k <= 0xFFFF_FFFF_FFFF_FFFF,
            -0x8000_0000_0000_0000 <= char_spacing <= 0x7FFF_FFFF_FFFF_FFFF,
    ;
    let sum: i128 = (width as i128) + (k as i128) * (char_spacing as i128);
    let natural: i128 = if sum < 0 {
        0
    } else if sum > WIDEST as i128 {
        WIDEST as i128
    } else {
        sum
    };
    if h_scale <= 0 {
        assert(natural * h_scale <= 0) by (nonlinear_arith)
            requires
                0 <= natural,
                h_scale <= 0,
        ;
        return 0;
    }
    assert(0 <= natural * h_scale <= 0x1000_0000_0000_0000 * 0x8000_0000_0000_0000)
        by (nonlinear_arith)
        requires
            0 <= natural <= 0x1000_0000_0000_0000,
            0 < h_scale <= 0x7FFF_FFFF_FFFF_FFFF,
    ;
    let stretched: i128 = natural * (h_scale as i128) / (100 * (POINT as i128));
    if stretched > WIDEST as i128 {
        WIDEST
    } else {
        stretched as i64
    }
}

impl Piece {
    /// Takes over the widths that the piece has on the page: those of the font,
    /// spread and stretched as the page does it.
    pub fn measure(&mut self, widths: &Vec<Points>, char_spacing: Points, h_scale: Points)
        requires
            widths@.len() == old(self).text@.len() + 1,
        ensures
            final(self)@ == (PieceView {
                stops: spread(widths@, char_spacing as int, h_scale as int),
                ..old(self)@
            }),
            old(self)@.valid() ==> final(self)@.valid(),
    {
        let last: usize = widths.len() - 1;
        let whole: Points = spread_one(widths[last], last, char_spacing, h_scale);
        let mut stops: Vec<Points> = Vec::new();
        let mut k: usize = 0;
        while k < widths.len()
            invariant
                k <= widths@.len(),
                widths@.len() == last + 1,
                whole == spread_width(widths@, char_spacing as int, h_scale as int, last as int),
                0 <= whole <= WIDEST,
                stops@.len() == k,
                forall|i: int|
                    0 <= i < k ==> #[trigger] stops@[i] == min_of(
                        spread_width(widths@, char_spacing as int, h_scale as int, i),
                        whole as int,
                    ) && 0 <= stops@[i] <= whole,
            decreases widths@.len() - k,
        {
            let stop: Points = spread_one(widths[k], k, char_spacing, h_scale);
            stops.push(if stop < whole { stop } else { whole });
            k = k + 1;
        }
        assert(stops@ == spread(widths@, char_spacing as int, h_scale as int));
        self.stops = stops;
    }
}

pub open spec fn piece_views(pieces: Seq<Piece>) -> Seq<PieceView> {
    Seq::new(pieces.len(), |i: int| pieces[i]@)
}

/// The widths of the heads of a text when every character is taken to be half
/// as wide as the text is high: what is known before the document's fonts are.
pub open spec fn estimated(count: nat, size: int) -> Seq<Points> {
    Seq::new(count + 1, |k: int| (k * size / 2) as i64)
}

/// The size of a run: its own, or the paragraph's, smaller for a script.
pub open spec fn effective(style: StyleView, base: int) -> int {
    let size = match style.shown_size() {
        Some(size) => size as int,
        None => base,
    };
    if style.script == Script::Baseline {
        size
    } else {
        size * 3 / 5
    }
}

/// The `i`-th word of a run that starts at a byte offset.
pub open spec fn word_piece(run: RunView, offset: int, base: int, i: int) -> PieceView {
    let from = word_starts(run.text)[i];
    let to = word_end(run.text, i);
    PieceView {
        text: run.text.subrange(from, to),
        start: offset + offset_of(run.text, from),
        end: offset + offset_of(run.text, to),
        stops: estimated((to - from) as nat, effective(run.style, base)),
        size: effective(run.style, base),
        blank: white_space(run.text[from]),
        family: first_text(run.style.family, run.style.document_family),
    }
}

/// The words of a run that starts at a byte offset.
pub open spec fn run_pieces(run: RunView, offset: int, base: int) -> Seq<PieceView> {
    Seq::new(word_starts(run.text).len(), |i: int| word_piece(run, offset, base, i))
}

/// The bytes of a list of runs.
pub open spec fn runs_len(runs: Seq<RunView>) -> nat {
    byte_len(chars_of(cells_of(runs)))
}

/// The words of all runs, in order.
pub open spec fn pieces_of(runs: Seq<RunView>, base: int) -> Seq<PieceView>
    decreases runs.len(),
{
    if runs.len() == 0 {
        Seq::empty()
    } else {
        let head = runs.drop_last();
        pieces_of(head, base) + run_pieces(runs.last(), runs_len(head) as int, base)
    }
}

/// Whether a run can be measured.
pub open spec fn run_fits(run: RunView, base: int) -> bool {
    &&& run.style.shown_size() matches Some(size) ==> 0 <= size
    &&& run.text.len() < usize::MAX
    &&& run.text.len() * effective(run.style, base) <= 2 * WIDEST
}

/// Whether all runs can be measured.
pub open spec fn runs_fit(runs: Seq<RunView>, base: int) -> bool {
    &&& 0 <= base
    &&& forall|i: int| 0 <= i < runs.len() ==> run_fits(#[trigger] runs[i], base)
}

/// The size at which a run is measured.
pub fn effective_size(style: &RunStyle, base_size: Points) -> (r: Points)
    requires
        0 <= base_size,
        style@.shown_size() matches Some(size) ==> 0 <= size,
    ensures
        r == effective(style@, base_size as int),
        0 <= r,
{
    let size: Points = match (style.size, style.document_size) {
        (Some(size), _) => size,
        (None, Some(size)) => size,
        (None, None) => base_size,
    };
    if style.script == Script::Baseline {
        size
    } else {
        (size as i128 * 3 / 5) as i64
    }
}

/// The widths of the heads of a text by the rough estimate.
pub fn estimate(count: usize, size: Points) -> (r: Vec<Points>)
    requires
        0 <= size,
        count * size <= 2 * WIDEST,
        count < usize::MAX,
    ensures
        r@ == estimated(count as nat, size as int),
        forall|k: int| 0 <= k < r@.len() ==> 0 <= #[trigger] r@[k] <= WIDEST,
{
    let mut stops: Vec<Points> = Vec::new();
    let mut k: usize = 0;
    while k <= count
        invariant
            k <= count + 1,
            count < usize::MAX,
            0 <= size,
            count * size <= 2 * WIDEST,
            stops@.len() == k,
            forall|i: int|
                0 <= i < k ==> #[trigger] stops@[i] == i * size / 2 && 0 <= stops@[i] <= WIDEST,
        decreases count + 1 - k,
    {
        assert(0 <= k * size <= count * size) by (nonlinear_arith)
            requires
                0 <= k <= count,
                0 <= size,
        ;
        let width: i128 = (k as i128) * (size as i128) / 2;
        stops.push(width as i64);
        k = k + 1;
    }
    assert(stops@ == estimated(count as nat, size as int));
    stops
}

/// The words of a run: what holds of each.
proof fn lemma_word_piece(run: RunView, offset: int, base: int, i: int)
    requires
        0 <= offset,
        0 <= base,
        run_fits(run, base),
        0 <= i < word_starts(run.text).len(),
    ensures
        ({
            let piece = word_piece(run, offset, base, i);
            &&& piece.valid()
            &&& 0 <= piece.size
            &&& i == 0 ==> piece.start == offset
            &&& i + 1 < word_starts(run.text).len() ==> piece.end == word_piece(
                run,
                offset,
                base,
                i + 1,
            ).start
            &&& i + 1 == word_starts(run.text).len() ==> piece.end == offset + byte_len(run.text)
        }),
{
    let text = run.text;
    let size = effective(run.style, base);
    tokens_cover_the_text(text, i);
    let from = word_starts(text)[i];
    let to = word_end(text, i);
    lemma_word_starts(text);
    lemma_offset_ends(text);
    let piece = word_piece(run, offset, base, i);
    assert(text.take(to) == text.take(from) + text.subrange(from, to));
    byte_len_of_concatenation(text.take(from), text.subrange(from, to));
    let count = to - from;
    assert(0 <= count * size <= text.len() * size) by (nonlinear_arith)
        requires
            0 <= count <= text.len(),
            0 <= size,
    ;
    assert forall|k: int| 0 <= k < piece.stops.len() implies 0 <= #[trigger] piece.stops[k]
        <= piece.width() by {
        assert(0 <= k * size <= count * size) by (nonlinear_arith)
            requires
                0 <= k <= count,
                0 <= size,
        ;
    }
}

/// The words of one run.
fn pieces_of_run(run: &Run, offset: usize, base: Points) -> (r: Vec<Piece>)
    requires
        0 <= base,
        run_fits(run@, base as int),
        offset + byte_len(run.text@) <= usize::MAX,
    ensures
        piece_views(r@) == run_pieces(run@, offset as int, base as int),
{
    let chars = chars_of_str(run.text.as_str());
    let starts = starts_of(&chars);
    let size: Points = effective_size(&run.style, base);
    let mut out: Vec<Piece> = Vec::new();
    let mut i: usize = 0;
    let ghost text = run.text@;
    while i < starts.len()
        invariant
            chars@ == text,
            text == run.text@,
            size == effective(run.style@, base as int),
            0 <= size,
            0 <= base,
            run_fits(run@, base as int),
            offset + byte_len(text) <= usize::MAX,
            starts@.len() == word_starts(text).len(),
            forall|k: int| 0 <= k < starts@.len() ==> #[trigger] starts@[k] == word_starts(text)[k],
            i <= starts@.len(),
            out@.len() == i,
            forall|k: int|
                0 <= k < i ==> (#[trigger] out@[k])@ == word_piece(
                    run@,
                    offset as int,
                    base as int,
                    k,
                ),
        decreases starts@.len() - i,
    {
        proof {
            tokens_cover_the_text(text, i as int);
            lemma_word_starts(text);
            lemma_offset_ends(text);
            lemma_offset_grows(text, word_end(text, i as int), text.len() as int);
            lemma_offset_grows(text, word_starts(text)[i as int], text.len() as int);
        }
        let from: usize = starts[i];
        let to: usize = if i + 1 < starts.len() {
            starts[i + 1]
        } else {
            chars.len()
        };
        assert((to - from) * size <= 2 * WIDEST) by {
            assert((to - from) * size <= text.len() * size) by (nonlinear_arith)
                requires
                    0 <= from <= to <= text.len(),
                    0 <= size,
            ;
        }
        let start: usize = byte_offset(chars.as_slice(), from);
        let end: usize = byte_offset(chars.as_slice(), to);
        let piece = Piece {
            text: run.text.as_str().substring_char(from, to).to_owned(),
            range: offset + start..offset + end,
            stops: estimate(to - from, size),
            size,
            blank: is_white_space(chars[from]),
            family: if run.style.family.is_some() {
                copy_text(&run.style.family)
            } else {
                copy_text(&run.style.document_family)
            },
        };
        assert(piece@ == word_piece(run@, offset as int, base as int, i as int));
        out.push(piece);
        i = i + 1;
    }
    out
}

/// The pieces start at the first byte, follow each other without a hole and
/// can each be laid out.
pub open spec fn in_a_row(pieces: Seq<PieceView>) -> bool {
    &&& pieces.len() > 0 ==> pieces[0].start == 0
    &&& forall|i: int| 0 <= i < pieces.len() ==> (#[trigger] pieces[i]).valid()
    &&& forall|i: int, j: int|
        0 <= i && j == i + 1 && j < pieces.len() ==> (#[trigger] pieces[i]).end == (
        #[trigger] pieces[j]).start
}

/// Where the last piece ends.
pub open spec fn end_of(pieces: Seq<PieceView>) -> int {
    if pieces.len() == 0 {
        0
    } else {
        pieces[pieces.len() - 1].end
    }
}

/// The pieces of a text are in a row and end where the text ends.
proof fn lemma_pieces_in_a_row(runs: Seq<RunView>, base: int)
    requires
        runs_fit(runs, base),
        forall|i: int| 0 <= i < runs.len() ==> (#[trigger] runs[i]).text.len() > 0,
    ensures
        in_a_row(pieces_of(runs, base)),
        end_of(pieces_of(runs, base)) == runs_len(runs),
        forall|i: int|
            0 <= i < pieces_of(runs, base).len() ==> 0 <= (#[trigger] pieces_of(runs, base)[i]).size,
    decreases runs.len(),
{
    if runs.len() > 0 {
        let head = runs.drop_last();
        let last = runs[runs.len() - 1];
        assert forall|i: int| 0 <= i < head.len() implies run_fits(#[trigger] head[i], base) by {
            assert(head[i] == runs[i]);
        }
        assert forall|i: int| 0 <= i < head.len() implies (#[trigger] head[i]).text.len() > 0 by {
            assert(head[i] == runs[i]);
        }
        lemma_pieces_in_a_row(head, base);
        lemma_runs_len_step(head, last);
        assert(runs == head.push(last));
        let before = pieces_of(head, base);
        let offset = runs_len(head) as int;
        let added = run_pieces(last, offset, base);
        let all = pieces_of(runs, base);
        let n = before.len() as int;
        let m = word_starts(last.text).len() as int;
        lemma_word_starts(last.text);
        assert(run_fits(last, base));
        assert forall|i: int| 0 <= i < all.len() implies (#[trigger] all[i]).valid() && 0
            <= all[i].size by {
            if i >= n {
                lemma_word_piece(last, offset, base, i - n);
                assert(all[i] == word_piece(last, offset, base, i - n));
            } else {
                assert(all[i] == before[i]);
            }
        }
        assert forall|i: int, j: int| 0 <= i && j == i + 1 && j < all.len() implies (
        #[trigger] all[i]).end == (#[trigger] all[j]).start by {
            if i >= n {
                lemma_word_piece(last, offset, base, i - n);
                assert(all[i] == word_piece(last, offset, base, i - n));
                assert(all[j] == word_piece(last, offset, base, j - n));
            } else if j < n {
                assert(all[i] == before[i] && all[j] == before[j]);
            } else {
                lemma_word_piece(last, offset, base, 0);
                assert(all[i] == before[n - 1]);
                assert(all[j] == word_piece(last, offset, base, 0));
            }
        }
        lemma_word_piece(last, offset, base, 0);
        lemma_word_piece(last, offset, base, m - 1);
        assert(all[all.len() - 1] == word_piece(last, offset, base, m - 1));
        if n == 0 {
            assert(all[0] == word_piece(last, offset, base, 0));
        } else {
            assert(all[0] == before[0]);
        }
    }
}

/// A run adds its bytes.
proof fn lemma_runs_len_step(runs: Seq<RunView>, run: RunView)
    ensures
        runs_len(runs.push(run)) == runs_len(runs) + byte_len(run.text),
{
    assert(runs.push(run).drop_last() == runs);
    let tail = styled(run.text, run.style);
    assert(chars_of(cells_of(runs) + tail) == chars_of(cells_of(runs)) + chars_of(tail));
    assert(chars_of(tail) == run.text);
    byte_len_of_concatenation(chars_of(cells_of(runs)), run.text);
}

/// The first runs have no more bytes than all.
proof fn lemma_runs_len_grows(runs: Seq<RunView>, k: int)
    requires
        0 <= k <= runs.len(),
    ensures
        runs_len(runs.take(k)) <= runs_len(runs),
    decreases runs.len() - k,
{
    if k == runs.len() {
        assert(runs.take(k) == runs);
    } else {
        lemma_runs_len_grows(runs, k + 1);
        assert(runs.take(k + 1) == runs.take(k).push(runs[k]));
        lemma_runs_len_step(runs.take(k), runs[k]);
    }
}

/// Whether a text can be measured.
pub fn is_measurable(text: &RichText, base_size: Points) -> (r: bool)
    requires
        text.wf(),
    ensures
        r == runs_fit(text@.runs, base_size as int),
{
    if base_size < 0 {
        return false;
    }
    let runs = text.runs();
    let ghost views = text@.runs;
    let mut i: usize = 0;
    while i < runs.len()
        invariant
            0 <= base_size,
            views == text@.runs,
            views == run_views(runs@),
            i <= runs@.len(),
            forall|k: int| 0 <= k < i ==> run_fits(#[trigger] views[k], base_size as int),
        decreases runs@.len() - i,
    {
        assert(views[i as int] == runs@[i as int]@);
        if !run_is_measurable(&runs[i], base_size) {
            return false;
        }
        i = i + 1;
    }
    true
}

/// Whether a run can be measured.
fn run_is_measurable(run: &Run, base_size: Points) -> (r: bool)
    requires
        0 <= base_size,
    ensures
        r == run_fits(run@, base_size as int),
{
    let size: Points = match (run.style.size, run.style.document_size) {
        (Some(size), _) => size,
        (None, Some(size)) => size,
        (None, None) => base_size,
    };
    if size < 0 {
        return false;
    }
    let count: usize = chars_of_str(run.text.as_str()).len();
    let size: Points = effective_size(&run.style, base_size);
    if count == usize::MAX {
        return false;
    }
    assert(0 <= count * size <= 0x1_0000_0000_0000_0000 * 0x8000_0000_0000_0000 - 0x1_0000)
        by (nonlinear_arith)
        requires
            0 <= count < 0xFFFF_FFFF_FFFF_FFFF,
            0 <= size <= 0x7FFF_FFFF_FFFF_FFFF,
    ;
    (count as i128) * (size as i128) <= 2 * (WIDEST as i128)
}

/// The words of the text, in order, measured by the rough estimate.
pub fn measure_pieces(text: &RichText, base_size: Points) -> (r: Vec<Piece>)
    requires
        text.wf(),
        runs_fit(text@.runs, base_size as int),
    ensures
        piece_views(r@) == pieces_of(text@.runs, base_size as int),
        in_a_row(piece_views(r@)),
        end_of(piece_views(r@)) == byte_len(text@.text()),
{
    let runs = text.runs();
    let ghost views = text@.runs;
    let ghost base = base_size as int;
    let mut out: Vec<Piece> = Vec::new();
    let mut offset: usize = 0;
    let mut i: usize = 0;
    assert(views.take(0) == Seq::<RunView>::empty());
    assert(byte_len(chars_of(cells_of(views.take(0)))) == 0);
    while i < runs.len()
        invariant
            views == run_views(runs@),
            base == base_size,
            runs_fit(views, base),
            runs_len(views) <= usize::MAX,
            i <= runs@.len(),
            offset == runs_len(views.take(i as int)),
            piece_views(out@) == pieces_of(views.take(i as int), base),
        decreases runs@.len() - i,
    {
        let ghost run = runs@[i as int]@;
        proof {
            assert(views[i as int] == run);
            assert(run_fits(views[i as int], base));
            assert(views.take(i + 1) == views.take(i as int).push(run));
            assert(views.take(i + 1).drop_last() == views.take(i as int));
            lemma_runs_len_step(views.take(i as int), run);
            lemma_runs_len_grows(views, i + 1);
        }
        let ghost before = piece_views(out@);
        let mut added = pieces_of_run(&runs[i], offset, base_size);
        let ghost more = piece_views(added@);
        out.append(&mut added);
        assert(piece_views(out@) == before + more);
        offset = offset + str_bytes(runs[i].text.as_str());
        i = i + 1;
    }
    assert(views.take(views.len() as int) == views);
    proof {
        lemma_pieces_in_a_row(views, base);
    }
    out
}

/// The width of the pieces `from..to` side by side.
pub open spec fn row_width(pieces: Seq<PieceView>, from: int, to: int) -> int
    decreases to - from,
{
    if from >= to {
        0
    } else {
        row_width(pieces, from, to - 1) + pieces[to - 1].width()
    }
}

/// The first piece of the line on which the `i`-th piece stands.
///
/// A word that does not fit starts a line. A gap never does: it would indent
/// the next line.
pub open spec fn line_start(pieces: Seq<PieceView>, wrap: int, i: int) -> int
    decreases i,
{
    if i <= 0 {
        0
    } else {
        let start = line_start(pieces, wrap, i - 1);
        if row_width(pieces, start, i) + pieces[i].width() > wrap && !pieces[i].blank {
            i
        } else {
            start
        }
    }
}

/// A line: consecutive pieces, each at its distance from the left margin.
#[derive(Debug)]
pub struct LaidLine {
    first: usize,
    places: Vec<Points>,
    range: Range<usize>,
    top: Points,
    height: Points,
}

/// What a [`LaidLine`] says.
#[verifier::ext_equal]
pub struct LineView {
    /// Its first piece.
    pub first: int,
    /// Where its pieces stand.
    pub places: Seq<Points>,
    pub start: int,
    pub end: int,
    pub top: int,
    pub height: int,
}

impl View for LaidLine {
    type V = LineView;

    closed spec fn view(&self) -> LineView {
        LineView {
            first: self.first as int,
            places: self.places@,
            start: self.range.start as int,
            end: self.range.end as int,
            top: self.top as int,
            height: self.height as int,
        }
    }
}

pub open spec fn line_views(lines: Seq<LaidLine>) -> Seq<LineView> {
    Seq::new(lines.len(), |i: int| lines[i]@)
}

/// Whether a line holds the pieces that belong on it.
pub open spec fn line_holds(
    pieces: Seq<PieceView>,
    wrap: int,
    line_height: int,
    line: LineView,
    k: int,
) -> bool {
    let next = line.first + line.places.len();
    &&& 0 <= line.first < next <= pieces.len()
    &&& forall|i: int|
        line.first <= i < next ==> #[trigger] line_start(pieces, wrap, i) == line.first
            && line.places[i - line.first] == row_width(pieces, line.first, i)
    &&& line.start == pieces[line.first].start
    &&& line.end == pieces[next - 1].end
    &&& line.top == k * line_height
    &&& line.height == line_height
}

/// Whether the pieces up to `next` stand on the lines they belong on.
pub open spec fn lines_hold(
    pieces: Seq<PieceView>,
    wrap: int,
    line_height: int,
    lines: Seq<LineView>,
    next: int,
) -> bool {
    &&& forall|k: int|
        0 <= k < lines.len() ==> line_holds(pieces, wrap, line_height, #[trigger] lines[k], k)
    &&& lines.len() > 0 ==> lines[0].first == 0 && lines[lines.len() - 1].first + lines[lines.len()
        - 1].places.len() == next
    &&& lines.len() == 0 ==> next == 0
    &&& forall|k: int, m: int|
        0 <= k && m == k + 1 && m < lines.len() ==> (#[trigger] lines[k]).first
            + lines[k].places.len() == (#[trigger] lines[m]).first
}

/// The one line of a text without pieces.
pub open spec fn empty_line(line_height: int) -> LineView {
    LineView { first: 0, places: Seq::empty(), start: 0, end: 0, top: 0, height: line_height }
}

/// The lines that the pieces are broken into.
pub open spec fn is_wrapped(
    pieces: Seq<PieceView>,
    wrap: int,
    line_height: int,
    lines: Seq<LineView>,
) -> bool {
    if pieces.len() == 0 {
        lines == seq![empty_line(line_height)]
    } else {
        lines_hold(pieces, wrap, line_height, lines, pieces.len() as int)
    }
}

proof fn lemma_row_width_grows(pieces: Seq<PieceView>, from: int, to: int, all: int)
    requires
        0 <= from <= to <= all <= pieces.len(),
        forall|i: int| 0 <= i < pieces.len() ==> (#[trigger] pieces[i]).valid(),
    ensures
        0 <= row_width(pieces, from, to) <= row_width(pieces, from, all),
        row_width(pieces, from, all) <= row_width(pieces, 0, all),
    decreases all - to,
{
    lemma_row_widths(pieces, from, to);
    lemma_row_widths(pieces, from, all);
    if to < all {
        lemma_row_width_grows(pieces, from, to, all - 1);
        assert(pieces[all - 1].valid());
    }
}

proof fn lemma_row_widths(pieces: Seq<PieceView>, from: int, to: int)
    requires
        0 <= from <= to <= pieces.len(),
        forall|i: int| 0 <= i < pieces.len() ==> (#[trigger] pieces[i]).valid(),
    ensures
        0 <= row_width(pieces, from, to) <= row_width(pieces, 0, to),
    decreases to,
{
    if from < to {
        lemma_row_widths(pieces, from, to - 1);
        assert(pieces[to - 1].valid());
    } else if to > 0 {
        lemma_row_widths(pieces, 0, to - 1);
        assert(pieces[to - 1].valid());
    }
}

proof fn lemma_line_start(pieces: Seq<PieceView>, wrap: int, i: int)
    requires
        0 <= i,
    ensures
        0 <= line_start(pieces, wrap, i) <= i,
    decreases i,
{
    if i > 0 {
        lemma_line_start(pieces, wrap, i - 1);
    }
}

/// The height of lines, as many as there can be.
pub open spec fn heights_fit(count: int, line_height: int) -> bool {
    (count + 1) * line_height <= WIDEST
}

/// Breaks the pieces into lines of a width.
#[verifier::spinoff_prover]
fn wrap_pieces(pieces: &Vec<Piece>, wrap: Points, line_height: Points) -> (r: Vec<LaidLine>)
    requires
        in_a_row(piece_views(pieces@)),
        row_width(piece_views(pieces@), 0, pieces@.len() as int) <= WIDEST,
        0 <= line_height,
        heights_fit(pieces@.len() as int, line_height as int),
    ensures
        is_wrapped(piece_views(pieces@), wrap as int, line_height as int, line_views(r@)),
        0 < r@.len() <= pieces@.len() + 1,
{
    let ghost views = piece_views(pieces@);
    let ghost lh = line_height as int;
    let ghost n = pieces@.len() as int;
    let mut lines: Vec<LaidLine> = Vec::new();
    if pieces.len() == 0 {
        lines.push(
            LaidLine {
                first: 0,
                places: Vec::new(),
                range: 0..0,
                top: 0,
                height: line_height,
            },
        );
        assert(line_views(lines@) == seq![empty_line(lh)]);
        return lines;
    }
    let mut first: usize = 0;
    let mut places: Vec<Points> = Vec::new();
    let mut x: Points = 0;
    let mut top: Points = 0;
    let mut i: usize = 0;
    while i < pieces.len()
        invariant
            views == piece_views(pieces@),
            lh == line_height,
            n == pieces@.len(),
            0 <= lh,
            heights_fit(n, lh),
            in_a_row(views),
            row_width(views, 0, n) <= WIDEST,
            i <= n,
            first <= i,
            i > 0 ==> first < i && line_start(views, wrap as int, i - 1) == first,
            i == 0 ==> first == 0 && lines@.len() == 0,
            places@.len() == i - first,
            forall|k: int|
                first <= k < i ==> #[trigger] line_start(views, wrap as int, k) == first
                    && places@[k - first] == row_width(views, first as int, k),
            x == row_width(views, first as int, i as int),
            lines@.len() <= first,
            top == lines@.len() * lh,
            lines_hold(views, wrap as int, lh, line_views(lines@), first as int),
        decreases n - i,
    {
        let ghost done = line_views(lines@);
        let ghost places_before = places@;
        proof {
            assert(views[i as int] == pieces@[i as int]@);
            assert(views[i as int].valid());
            lemma_row_width_grows(views, first as int, i as int, n);
            lemma_row_width_grows(views, first as int, i + 1, n);
            assert(pieces@[i as int].stops@.len() > 0);
        }
        let width: Points = pieces[i].stops[pieces[i].stops.len() - 1];
        assert(width == views[i as int].width());
        if x + width > wrap && places.len() > 0 && !pieces[i].blank {
            assert(i > first);
            proof {
                assert((lines@.len() + 1) * lh <= (n + 1) * lh) by (nonlinear_arith)
                    requires
                        lines@.len() <= n,
                        0 <= lh,
                ;
                assert((lines@.len() + 1) * lh == lines@.len() * lh + lh) by (nonlinear_arith);
            }
            let line = LaidLine {
                first,
                places,
                range: pieces[first].range.start..pieces[i - 1].range.end,
                top,
                height: line_height,
            };
            let ghost view = line@;
            assert(view.places == places_before);
            assert(views[first as int] == pieces@[first as int]@);
            assert(views[i - 1] == pieces@[i - 1]@);
            assert(view.first == first && view.start == views[first as int].start);
            assert(view.end == views[i - 1].end && view.top == done.len() * lh);
            assert(line_holds(views, wrap as int, lh, view, done.len() as int));
            lines.push(line);
            assert(line_views(lines@) == done.push(view));
            assert(lines_hold(views, wrap as int, lh, done.push(view), i as int)) by {
                let more = done.push(view);
                assert forall|k: int| 0 <= k < more.len() implies line_holds(
                    views,
                    wrap as int,
                    lh,
                    #[trigger] more[k],
                    k,
                ) by {
                    if k < done.len() {
                        assert(more[k] == done[k]);
                    }
                }
            }
            top = top + line_height;
            first = i;
            places = Vec::new();
            x = 0;
            assert(row_width(views, i as int, i as int) == 0);
        }
        assert(line_start(views, wrap as int, i as int) == first);
        let ghost placed = places@;
        places.push(x);
        x = x + width;
        i = i + 1;
        assert forall|k: int| first <= k < i implies #[trigger] line_start(views, wrap as int, k)
            == first && places@[k - first] == row_width(views, first as int, k) by {
            if k < i - 1 {
                assert(places@[k - first] == placed[k - first]);
            }
        }
    }
    let ghost done = line_views(lines@);
    let ghost places_before = places@;
    let line = LaidLine {
        first,
        places,
        range: pieces[first].range.start..pieces[i - 1].range.end,
        top,
        height: line_height,
    };
    let ghost view = line@;
    assert(views[first as int] == pieces@[first as int]@);
    assert(views[i - 1] == pieces@[i - 1]@);
    assert(line_holds(views, wrap as int, lh, view, done.len() as int));
    lines.push(line);
    assert(line_views(lines@) == done.push(view));
    assert(lines_hold(views, wrap as int, lh, done.push(view), n)) by {
        let more = done.push(view);
        assert forall|k: int| 0 <= k < more.len() implies line_holds(
            views,
            wrap as int,
            lh,
            #[trigger] more[k],
            k,
        ) by {
            if k < done.len() {
                assert(more[k] == done[k]);
            }
        }
    }
    lines
}

/// A length in pixels at so many pixels to a point.
pub open spec fn pixels(length: int, scale: int) -> int {
    length * scale / POINT as int
}

/// A length in points that takes so many pixels.
pub open spec fn points(length: int, scale: int) -> int {
    length * POINT / scale
}

/// The least number of pixels to a point that is worked with.
pub const SMALLEST_SCALE: i64 = 167_772;

/// The distance between the lines of a paragraph.
pub open spec fn leading(base: BaseStyle) -> int {
    if base.line_height_points > 0 {
        base.line_height_points as int
    } else {
        base.size_points * 6 / 5
    }
}

/// The distance between the lines, which a large size can put beyond a length.
fn line_height_of(base: &BaseStyle) -> (r: i128)
    requires
        0 <= base.size_points,
    ensures
        r == leading(*base),
        0 <= r <= 2 * i64::MAX,
{
    if base.line_height_points > 0 {
        base.line_height_points as i128
    } else {
        base.size_points as i128 * 6 / 5
    }
}

/// A finished layout.
#[derive(Debug)]
pub struct TextLayout {
    pieces: Vec<Piece>,
    lines: Vec<LaidLine>,
    scale: i64,
    wrap: Points,
    leading: Points,
}

/// What a [`TextLayout`] holds.
#[verifier::ext_equal]
pub struct LayoutView {
    pub pieces: Seq<PieceView>,
    pub lines: Seq<LineView>,
    /// Pixels to a point.
    pub scale: int,
    /// The width that the text was broken at.
    pub wrap: int,
    /// The distance between lines.
    pub leading: int,
}

impl View for TextLayout {
    type V = LayoutView;

    closed spec fn view(&self) -> LayoutView {
        LayoutView {
            pieces: piece_views(self.pieces@),
            lines: line_views(self.lines@),
            scale: self.scale as int,
            wrap: self.wrap as int,
            leading: self.leading as int,
        }
    }
}

/// Whether a length can be told in pixels.
pub open spec fn tellable(length: int, scale: int) -> bool {
    &&& length <= WIDEST
    &&& length * scale <= WIDEST * POINT
}

/// Whether a length can be told in pixels.
fn is_tellable(length: i128, scale: i64) -> (r: bool)
    requires
        0 <= length,
        0 <= scale,
    ensures
        r == tellable(length as int, scale as int),
{
    if length > WIDEST as i128 {
        return false;
    }
    assert(0 <= length * scale <= 0x1000_0000_0000_0000 * 0x8000_0000_0000_0000)
        by (nonlinear_arith)
        requires
            0 <= length <= 0x1000_0000_0000_0000,
            0 <= scale <= 0x7FFF_FFFF_FFFF_FFFF,
    ;
    length * (scale as i128) <= (WIDEST as i128) * (POINT as i128)
}

/// How many pixels a point takes in a layout.
pub open spec fn scale_of(base: BaseStyle) -> int {
    max_of(base.points_to_px as int, SMALLEST_SCALE as int)
}

/// Whether the layout of the pieces can be told in pixels: all of them side by
/// side, and each on a line of its own.
pub open spec fn fits_in_pixels(pieces: Seq<PieceView>, base: BaseStyle) -> bool {
    &&& tellable(row_width(pieces, 0, pieces.len() as int), scale_of(base))
    &&& tellable((pieces.len() + 1) * leading(base), scale_of(base))
}

/// Whether a layout is the one of the pieces in lines of a width, given in
/// pixels.
pub open spec fn is_laid_out(
    layout: LayoutView,
    pieces: Seq<PieceView>,
    base: BaseStyle,
    wrap_width: int,
) -> bool {
    &&& layout.valid()
    &&& layout.pieces == pieces
    &&& layout.scale == scale_of(base)
    &&& layout.wrap == max_of(points(wrap_width, scale_of(base)), POINT as int)
    &&& layout.leading == leading(base)
}

/// A mark on the page: a caret or a piece of the selection.
#[derive(Clone, Copy, Debug, PartialEq, Eq, Structural)]
pub struct Mark {
    pub x: i64,
    pub y: i64,
    pub width: i64,
    pub height: i64,
}

/// The first of the stops from the `k`-th on that lies beyond a distance; the
/// last stop where none does.
pub open spec fn stop_beyond(stops: Seq<Points>, distance: int, k: int) -> int
    decreases stops.len() - k,
{
    if k + 1 >= stops.len() || stops[k] > distance {
        k
    } else {
        stop_beyond(stops, distance, k + 1)
    }
}

/// The stop nearest to a distance from the start of a piece; the left one of
/// two that are as near.
pub open spec fn nearest_stop(stops: Seq<Points>, distance: int) -> int {
    let k = stop_beyond(stops, distance, 1);
    if distance - stops[k - 1] <= stops[k] - distance {
        k - 1
    } else {
        k
    }
}

impl LayoutView {
    /// The width of the widest line can be told, and so can the height.
    pub open spec fn valid(self) -> bool {
        &&& in_a_row(self.pieces)
        &&& is_wrapped(self.pieces, self.wrap, self.leading, self.lines)
        &&& 0 < self.lines.len() <= self.pieces.len() + 1
        &&& self.scale >= SMALLEST_SCALE
        &&& 0 <= self.leading
        &&& tellable(row_width(self.pieces, 0, self.pieces.len() as int), self.scale)
        &&& tellable((self.pieces.len() + 1) * self.leading, self.scale)
    }

    /// The first line from the `k`-th on that ends behind an offset; the last
    /// line where none does.
    pub open spec fn line_of(self, offset: int, k: int) -> int
        decreases self.lines.len() - k,
    {
        if k + 1 >= self.lines.len() || offset < self.lines[k].end {
            k
        } else {
            self.line_of(offset, k + 1)
        }
    }

    /// The first line from the `k`-th on whose foot lies below an ordinate.
    pub open spec fn line_under(self, y: int, k: int) -> int
        decreases self.lines.len() - k,
    {
        if k + 1 >= self.lines.len() || y < self.lines[k].top + self.lines[k].height {
            k
        } else {
            self.line_under(y, k + 1)
        }
    }

    /// How far an offset is from the left margin on a line, looked for from
    /// the `j`-th piece of the line on.
    pub open spec fn x_on(self, line: LineView, offset: int, j: int) -> int
        decreases line.places.len() - j,
    {
        let piece = self.pieces[line.first + j];
        if j < 0 || j >= line.places.len() {
            if line.places.len() == 0 {
                0
            } else {
                line.places.last() + self.pieces[line.first + line.places.len() - 1].width()
            }
        } else if offset <= piece.start {
            line.places[j] as int
        } else if offset <= piece.end {
            line.places[j] + piece.stops[chars_before(piece.text, offset - piece.start)]
        } else {
            self.x_on(line, offset, j + 1)
        }
    }

    /// The offset at a distance from the left margin on a line, looked for
    /// from the `j`-th piece of the line on.
    pub open spec fn offset_on(self, line: LineView, x: int, j: int) -> int
        decreases line.places.len() - j,
    {
        let piece = self.pieces[line.first + j];
        if j < 0 || j >= line.places.len() {
            line.end
        } else if x < line.places[j] {
            piece.start
        } else if x <= line.places[j] + piece.width() {
            piece.start + offset_of(piece.text, nearest_stop(piece.stops, x - line.places[j]))
        } else {
            self.offset_on(line, x, j + 1)
        }
    }

    /// Where the caret stands at an offset: its distance from the left margin,
    /// the top of its line and the height of the line.
    pub open spec fn caret(self, offset: int) -> (int, int, int) {
        let line = self.lines[self.line_of(offset, 0)];
        (self.x_on(line, offset, 0), line.top, line.height)
    }

    /// The offset at a point of the paragraph.
    pub open spec fn offset_at(self, x: int, y: int) -> int {
        self.offset_on(self.lines[self.line_under(y, 0)], x, 0)
    }

    /// The width of the first lines.
    pub open spec fn width_of(self, count: int) -> int
        decreases count,
    {
        if count <= 0 {
            0
        } else {
            let line = self.lines[count - 1];
            let last = line.places.len() - 1;
            let width = if last < 0 {
                0
            } else {
                line.places[last] + self.pieces[line.first + last].width()
            };
            max_of(self.width_of(count - 1), width)
        }
    }

    /// The part of a line that a range covers.
    pub open spec fn mark_on(self, line: LineView, from: int, to: int) -> Mark {
        let start = max_of(from, line.start);
        let end = min_of(to, line.end);
        Mark {
            x: pixels(self.x_on(line, start, 0), self.scale) as i64,
            y: pixels(line.top, self.scale) as i64,
            width: pixels(self.x_on(line, end, 0) - self.x_on(line, start, 0), self.scale) as i64,
            height: pixels(line.height, self.scale) as i64,
        }
    }

    /// One mark for each of the first lines that a range reaches.
    pub open spec fn marks(self, from: int, to: int, count: int) -> Seq<Mark>
        decreases count,
    {
        if count <= 0 {
            Seq::empty()
        } else {
            let line = self.lines[count - 1];
            let before = self.marks(from, to, count - 1);
            if max_of(from, line.start) < min_of(to, line.end) {
                before.push(self.mark_on(line, from, to))
            } else {
                before
            }
        }
    }
}

/// A line of a valid layout holds pieces that can be measured.
proof fn lemma_line(v: LayoutView, k: int)
    requires
        v.valid(),
        0 <= k < v.lines.len(),
    ensures
        ({
            let line = v.lines[k];
            let total = row_width(v.pieces, 0, v.pieces.len() as int);
            &&& 0 <= line.first
            &&& line.first + line.places.len() <= v.pieces.len()
            &&& v.pieces.len() > 0 ==> line.places.len() > 0
            &&& line.height == v.leading
            &&& line.top == k * v.leading
            &&& 0 <= line.top
            &&& line.top + line.height <= (v.pieces.len() + 1) * v.leading
            &&& forall|j: int|
                0 <= j < line.places.len() ==> {
                    &&& 0 <= #[trigger] line.places[j]
                    &&& line.places[j] + v.pieces[line.first + j].width() <= total
                    &&& j == 0 ==> line.places[j] == 0
                }
            &&& line.places.len() > 0 ==> line.start == v.pieces[line.first].start && line.end
                == v.pieces[line.first + line.places.len() - 1].end
        }),
{
    let line = v.lines[k];
    let lh = v.leading;
    assert(k * lh + lh <= (v.pieces.len() + 1) * lh) by (nonlinear_arith)
        requires
            0 <= k < v.lines.len() <= v.pieces.len() + 1,
            0 <= lh,
    ;
    assert(0 <= k * lh) by (nonlinear_arith)
        requires
            0 <= k,
            0 <= lh,
    ;
    if v.pieces.len() > 0 {
        assert(line_holds(v.pieces, v.wrap, lh, v.lines[k], k));
        assert forall|j: int| 0 <= j < line.places.len() implies {
            &&& 0 <= #[trigger] line.places[j]
            &&& line.places[j] + v.pieces[line.first + j].width() <= row_width(
                v.pieces,
                0,
                v.pieces.len() as int,
            )
            &&& j == 0 ==> line.places[j] == 0
        } by {
            let i = line.first + j;
            assert(line_start(v.pieces, v.wrap, i) == line.first);
            lemma_row_width_grows(v.pieces, line.first, i, v.pieces.len() as int);
            lemma_row_width_grows(v.pieces, line.first, i + 1, v.pieces.len() as int);
        }
    } else {
        assert(v.lines[0] == empty_line(lh));
        assert(0 * lh == 0) by (nonlinear_arith);
    }
}

/// A piece on a line of a valid layout.
proof fn lemma_piece_on_line(v: LayoutView, k: int, j: int)
    requires
        v.valid(),
        0 <= k < v.lines.len(),
        0 <= j < v.lines[k].places.len(),
    ensures
        ({
            let line = v.lines[k];
            let piece = v.pieces[line.first + j];
            &&& 0 <= line.first
            &&& line.first + line.places.len() <= v.pieces.len()
            &&& piece.valid()
            &&& 0 <= line.places[j]
            &&& line.places[j] + piece.width() <= row_width(v.pieces, 0, v.pieces.len() as int)
                <= WIDEST
            &&& j + 1 < line.places.len() ==> line.places[j + 1] == line.places[j] + piece.width()
        }),
{
    lemma_line(v, k);
    assert(0 <= v.lines[k].places[j]);
    let line = v.lines[k];
    let i = line.first + j;
    assert(line_holds(v.pieces, v.wrap, v.leading, line, k));
    assert(line_start(v.pieces, v.wrap, i) == line.first);
    if j + 1 < line.places.len() {
        assert(line_start(v.pieces, v.wrap, i + 1) == line.first);
        assert(line.places[i + 1 - line.first] == row_width(v.pieces, line.first, i + 1));
    }
}

/// What can be told stays within bounds.
proof fn lemma_pixels(length: int, total: int, scale: int)
    requires
        0 <= length <= total,
        tellable(total, scale),
        scale >= 0,
    ensures
        0 <= pixels(length, scale) <= WIDEST,
        -WIDEST <= pixels(-length, scale) <= 0,
        0 <= length * scale <= WIDEST * POINT,
{
    assert(0 <= length * scale <= total * scale) by (nonlinear_arith)
        requires
            0 <= length <= total,
            0 <= scale,
    ;
    assert((-length) * scale == -(length * scale)) by (nonlinear_arith);
    let n = length * scale;
    assert(0 <= n / 0x100_0000 <= WIDEST);
    assert(-WIDEST <= (-n) / 0x100_0000 <= 0);
}

/// How far an offset can be from the left margin.
proof fn lemma_x_on(v: LayoutView, k: int, offset: int, j: int)
    requires
        v.valid(),
        0 <= k < v.lines.len(),
        0 <= j,
    ensures
        0 <= v.x_on(v.lines[k], offset, j) <= row_width(v.pieces, 0, v.pieces.len() as int),
    decreases v.lines[k].places.len() - j,
{
    lemma_line(v, k);
    lemma_row_widths(v.pieces, 0, v.pieces.len() as int);
    let line = v.lines[k];
    if j < line.places.len() {
        let piece = v.pieces[line.first + j];
        assert(piece.valid());
        assert(0 <= line.places[j]);
        if offset > piece.start && offset <= piece.end {
            lemma_chars_before(piece.text, offset - piece.start);
        }
        lemma_x_on(v, k, offset, j + 1);
    } else if line.places.len() > 0 {
        let last = line.places.len() - 1;
        assert(v.pieces[line.first + last].valid());
        assert(0 <= line.places[last]);
    }
}

impl TextLayout {
    /// Whether the layout is in order: see [`LayoutView::valid`].
    pub open spec fn wf(&self) -> bool {
        self@.valid()
    }

    /// Lays out measured pieces in lines of a width, given in pixels.
    pub fn lay_out(pieces: Vec<Piece>, base: &BaseStyle, wrap_width: i64) -> (r: TextLayout)
        requires
            in_a_row(piece_views(pieces@)),
            0 <= base.size_points,
            near(wrap_width),
            fits_in_pixels(piece_views(pieces@), *base),
        ensures
            is_laid_out(r@, piece_views(pieces@), *base, wrap_width as int),
    {
        let scale: i64 = greatest(base.points_to_px, SMALLEST_SCALE);
        proof {
            let count = pieces@.len() as int;
            assert(leading(*base) <= (count + 1) * leading(*base)) by (nonlinear_arith)
                requires
                    0 <= count,
                    0 <= leading(*base),
            ;
        }
        let line_height: Points = line_height_of(base) as i64;
        let wrap: Points = greatest(points_of(wrap_width, scale), POINT);
        let lines = wrap_pieces(&pieces, wrap, line_height);
        TextLayout { pieces, lines, scale, wrap, leading: line_height }
    }

    /// Lays out measured pieces, where the result can be told in pixels.
    pub fn try_lay_out(pieces: Vec<Piece>, base: &BaseStyle, wrap_width: i64) -> (r: Option<
        TextLayout,
    >)
        requires
            in_a_row(piece_views(pieces@)),
            0 <= base.size_points,
            near(wrap_width),
        ensures
            r is Some <==> fits_in_pixels(piece_views(pieces@), *base),
            r matches Some(layout) ==> is_laid_out(
                layout@,
                piece_views(pieces@),
                *base,
                wrap_width as int,
            ),
    {
        let scale: i64 = greatest(base.points_to_px, SMALLEST_SCALE);
        let line_height: i128 = line_height_of(base);
        let ghost views = piece_views(pieces@);
        let ghost count = pieces@.len() as int;
        if line_height > WIDEST as i128 {
            assert(leading(*base) <= (count + 1) * leading(*base)) by (nonlinear_arith)
                requires
                    0 <= count,
                    0 <= leading(*base),
            ;
            return None;
        }
        let mut total: i128 = 0;
        let mut i: usize = 0;
        while i < pieces.len()
            invariant
                views == piece_views(pieces@),
                in_a_row(views),
                i <= pieces@.len(),
                total == row_width(views, 0, i as int),
                0 <= total <= i * WIDEST,
            decreases pieces@.len() - i,
        {
            let piece = &pieces[i];
            assert(views[i as int] == piece@);
            assert(views[i as int].valid());
            assert((i + 1) * WIDEST == i * WIDEST + WIDEST) by (nonlinear_arith);
            total = total + piece.stops[piece.stops.len() - 1] as i128;
            i = i + 1;
        }
        assert(0 <= (count + 1) * line_height <= 0x1_0000_0000_0000_0000 * 0x1000_0000_0000_0000)
            by (nonlinear_arith)
            requires
                0 <= count <= 0xFFFF_FFFF_FFFF_FFFF,
                0 <= line_height <= 0x1000_0000_0000_0000,
        ;
        let height: i128 = (pieces.len() as i128 + 1) * line_height;
        if is_tellable(total, scale) && is_tellable(height, scale) {
            Some(TextLayout::lay_out(pieces, base, wrap_width))
        } else {
            None
        }
    }

    /// Lays out a text by the rough estimate of its widths.
    pub fn build(text: &RichText, base: &BaseStyle, wrap_width: i64) -> (r: TextLayout)
        requires
            text.wf(),
            runs_fit(text@.runs, base.size_points as int),
            near(wrap_width),
            fits_in_pixels(pieces_of(text@.runs, base.size_points as int), *base),
        ensures
            is_laid_out(
                r@,
                pieces_of(text@.runs, base.size_points as int),
                *base,
                wrap_width as int,
            ),
    {
        let pieces = measure_pieces(text, base.size_points);
        TextLayout::lay_out(pieces, base, wrap_width)
    }

    /// The number of lines.
    pub fn line_count(&self) -> (r: usize)
        ensures
            r == self@.lines.len(),
    {
        self.lines.len()
    }

    /// A length in pixels.
    fn to_px(&self, length: Points) -> (r: i64)
        requires
            self.wf(),
            ({
                let total = row_width(self@.pieces, 0, self@.pieces.len() as int);
                ||| -total <= length <= total
                ||| 0 <= length <= (self@.pieces.len() + 1) * self@.leading
            }),
        ensures
            r == pixels(length as int, self@.scale),
    {
        proof {
            let total = row_width(self@.pieces, 0, self@.pieces.len() as int);
            let size = if length >= 0 {
                length as int
            } else {
                -length
            };
            if -total <= length <= total {
                lemma_pixels(size, total, self@.scale);
            } else {
                lemma_pixels(size, (self@.pieces.len() + 1) * self@.leading, self@.scale);
            }
            assert(length * self.scale == -((-length) * self.scale)) by (nonlinear_arith);
        }
        let product: i128 = (length as i128) * (self.scale as i128);
        floor_divide(product) as i64
    }

    /// The width of the widest line, in pixels.
    pub fn width(&self) -> (r: i64)
        requires
            self.wf(),
        ensures
            r == pixels(self@.width_of(self@.lines.len() as int), self@.scale),
    {
        let ghost v = self@;
        let ghost total = row_width(v.pieces, 0, v.pieces.len() as int);
        let mut widest: Points = 0;
        let mut k: usize = 0;
        proof {
            lemma_row_widths(v.pieces, 0, v.pieces.len() as int);
        }
        while k < self.lines.len()
            invariant
                self.wf(),
                v == self@,
                total == row_width(v.pieces, 0, v.pieces.len() as int),
                0 <= total,
                k <= v.lines.len(),
                v.lines.len() == self.lines@.len(),
                widest == v.width_of(k as int),
                0 <= widest <= total,
            decreases v.lines.len() - k,
        {
            proof {
                lemma_line(v, k as int);
                assert(v.lines[k as int] == self.lines@[k as int]@);
            }
            let line = &self.lines[k];
            let count: usize = line.places.len();
            if count > 0 {
                let ghost last = line.places@.len() - 1;
                assert(v.lines[k as int].places[last] == line.places@[last]);
                proof {
                    lemma_piece_on_line(v, k as int, last);
                    assert(self.pieces@.len() == self.pieces.len());
                }
                assert(v.pieces[line.first + last] == self.pieces@[line.first + last]@);
                let piece = &self.pieces[line.first + (count - 1)];
                let end: Points = line.places[count - 1] + piece.stops[piece.stops.len() - 1];
                widest = greatest(widest, end);
            }
            k = k + 1;
        }
        self.to_px(widest)
    }

    /// The height of all lines, in pixels.
    pub fn height(&self) -> (r: i64)
        requires
            self.wf(),
        ensures
            r == pixels(self@.lines.len() * self@.leading, self@.scale),
    {
        let last: usize = self.lines.len() - 1;
        proof {
            lemma_line(self@, last as int);
            assert(self@.lines[last as int] == self.lines@[last as int]@);
            assert((last + 1) * self@.leading == last * self@.leading + self@.leading)
                by (nonlinear_arith);
        }
        self.to_px(self.lines[last].top + self.lines[last].height)
    }

    /// The line that an offset belongs to. At a break it is the next line: a
    /// caret behind a wrapped line is seen in front of the next.
    fn line_for_offset(&self, offset: usize) -> (r: usize)
        requires
            self.wf(),
        ensures
            r < self@.lines.len(),
            r == self@.line_of(offset as int, 0),
    {
        let mut k: usize = 0;
        while k < self.lines.len() - 1 && offset >= self.lines[k].range.end
            invariant
                self.wf(),
                k < self.lines@.len(),
                self@.lines.len() == self.lines@.len(),
                self@.line_of(offset as int, 0) == self@.line_of(offset as int, k as int),
            decreases self.lines@.len() - k,
        {
            assert(self@.lines[k as int] == self.lines@[k as int]@);
            k = k + 1;
        }
        assert(self@.lines[k as int] == self.lines@[k as int]@);
        k
    }

    /// The line at an ordinate.
    fn line_at(&self, y: Points) -> (r: usize)
        requires
            self.wf(),
        ensures
            r < self@.lines.len(),
            r == self@.line_under(y as int, 0),
    {
        let mut k: usize = 0;
        while k < self.lines.len() - 1
            invariant
                self.wf(),
                k < self.lines@.len(),
                self@.lines.len() == self.lines@.len(),
                self@.line_under(y as int, 0) == self@.line_under(y as int, k as int),
            decreases self.lines@.len() - k,
        {
            proof {
                lemma_line(self@, k as int);
                assert(self@.lines[k as int] == self.lines@[k as int]@);
            }
            if y < self.lines[k].top + self.lines[k].height {
                return k;
            }
            k = k + 1;
        }
        k
    }

    /// How far an offset is from the left margin on a line.
    fn x_in_line(&self, k: usize, offset: usize) -> (r: Points)
        requires
            self.wf(),
            k < self@.lines.len(),
        ensures
            r == self@.x_on(self@.lines[k as int], offset as int, 0),
            0 <= r <= row_width(self@.pieces, 0, self@.pieces.len() as int),
    {
        let ghost v = self@;
        let ghost line_view = v.lines[k as int];
        proof {
            lemma_line(v, k as int);
            lemma_x_on(v, k as int, offset as int, 0);
            assert(line_view == self.lines@[k as int]@);
        }
        let line = &self.lines[k];
        let mut j: usize = 0;
        let mut x: Points = 0;
        while j < line.places.len()
            invariant
                v == self@,
                self.wf(),
                k < v.lines.len(),
                line_view == v.lines[k as int],
                line_view == line@,
                j <= line.places@.len(),
                line.first + line.places@.len() <= self.pieces@.len(),
                0 <= v.x_on(line_view, offset as int, 0) <= row_width(
                    v.pieces,
                    0,
                    v.pieces.len() as int,
                ) <= WIDEST,
                j == 0 ==> x == 0,
                j > 0 ==> x == line_view.places[j - 1] + v.pieces[line_view.first + j - 1].width(),
                v.x_on(line_view, offset as int, 0) == v.x_on(line_view, offset as int, j as int),
            decreases line.places@.len() - j,
        {
            proof {
                lemma_piece_on_line(v, k as int, j as int);
                assert(self.pieces@.len() == self.pieces.len());
                assert(v.pieces[line_view.first + j] == self.pieces@[line.first + j]@);
            }
            let piece = &self.pieces[line.first + j];
            let place: Points = line.places[j];
            if offset <= piece.range.start {
                return place;
            }
            if offset <= piece.range.end {
                let chars = chars_of_str(piece.text.as_str());
                let index: usize = count_before(chars.as_slice(), offset - piece.range.start);
                proof {
                    lemma_chars_before(piece.text@, offset - piece.range.start);
                }
                return place + piece.stops[index];
            }
            x = place + piece.stops[piece.stops.len() - 1];
            j = j + 1;
        }
        x
    }

    /// The offset at a distance from the left margin on a line.
    fn offset_in_line(&self, k: usize, x: Points) -> (r: usize)
        requires
            self.wf(),
            k < self@.lines.len(),
        ensures
            r == self@.offset_on(self@.lines[k as int], x as int, 0),
    {
        let ghost v = self@;
        let ghost line_view = v.lines[k as int];
        proof {
            lemma_line(v, k as int);
            assert(line_view == self.lines@[k as int]@);
        }
        let line = &self.lines[k];
        let mut j: usize = 0;
        while j < line.places.len()
            invariant
                v == self@,
                self.wf(),
                k < v.lines.len(),
                line_view == v.lines[k as int],
                line_view == line@,
                j <= line.places@.len(),
                line.first + line.places@.len() <= self.pieces@.len(),
                v.offset_on(line_view, x as int, 0) == v.offset_on(line_view, x as int, j as int),
            decreases line.places@.len() - j,
        {
            proof {
                lemma_piece_on_line(v, k as int, j as int);
                assert(self.pieces@.len() == self.pieces.len());
                assert(v.pieces[line_view.first + j] == self.pieces@[line.first + j]@);
            }
            let piece = &self.pieces[line.first + j];
            let place: Points = line.places[j];
            if x < place {
                return piece.range.start;
            }
            if x <= place + piece.stops[piece.stops.len() - 1] {
                let chars = chars_of_str(piece.text.as_str());
                let stop: usize = stop_near(&piece.stops, x - place);
                proof {
                    lemma_offset_ends(piece.text@);
                    lemma_offset_grows(piece.text@, stop as int, piece.text@.len() as int);
                }
                return piece.range.start + byte_offset(chars.as_slice(), stop);
            }
            j = j + 1;
        }
        line.range.end
    }

    /// The offset at a point of the paragraph, in points.
    pub fn offset_at_points(&self, x: Points, y: Points) -> (r: usize)
        requires
            self.wf(),
        ensures
            r == self@.offset_at(x as int, y as int),
    {
        let k: usize = self.line_at(y);
        self.offset_in_line(k, x)
    }

    /// The caret at an offset, in pixels.
    pub fn caret(&self, offset: usize) -> (r: Mark)
        requires
            self.wf(),
        ensures
            ({
                let (x, top, height) = self@.caret(offset as int);
                &&& r.x == pixels(x, self@.scale)
                &&& r.y == pixels(top, self@.scale)
                &&& r.width == 0
                &&& r.height == pixels(height, self@.scale)
            }),
    {
        let k: usize = self.line_for_offset(offset);
        let x: Points = self.x_in_line(k, offset);
        proof {
            lemma_line(self@, k as int);
            assert(self@.lines[k as int] == self.lines@[k as int]@);
        }
        Mark {
            x: self.to_px(x),
            y: self.to_px(self.lines[k].top),
            width: 0,
            height: self.to_px(self.lines[k].height),
        }
    }

    /// The offset at a point of the paragraph, in pixels.
    pub fn offset_at(&self, x: i64, y: i64) -> (r: usize)
        requires
            self.wf(),
            near(x),
            near(y),
        ensures
            r == self@.offset_at(
                points(x as int, self@.scale),
                points(y as int, self@.scale),
            ),
    {
        self.offset_at_points(points_of(x, self.scale), points_of(y, self.scale))
    }

    /// The rectangles of a selected range, in pixels: one for each line that
    /// it reaches.
    pub fn selection_rects(&self, range: Range<usize>) -> (r: Vec<Mark>)
        requires
            self.wf(),
        ensures
            r@ == self@.marks(range.start as int, range.end as int, self@.lines.len() as int),
    {
        let ghost v = self@;
        let mut out: Vec<Mark> = Vec::new();
        let mut k: usize = 0;
        while k < self.lines.len()
            invariant
                self.wf(),
                v == self@,
                v.lines.len() == self.lines@.len(),
                k <= v.lines.len(),
                out@ == v.marks(range.start as int, range.end as int, k as int),
            decreases v.lines.len() - k,
        {
            proof {
                lemma_line(v, k as int);
                assert(v.lines[k as int] == self.lines@[k as int]@);
            }
            let line = &self.lines[k];
            let from: usize = if range.start >= line.range.start {
                range.start
            } else {
                line.range.start
            };
            let to: usize = if range.end <= line.range.end {
                range.end
            } else {
                line.range.end
            };
            if from < to {
                let start: Points = self.x_in_line(k, from);
                let end: Points = self.x_in_line(k, to);
                out.push(
                    Mark {
                        x: self.to_px(start),
                        y: self.to_px(line.top),
                        width: self.to_px(end - start),
                        height: self.to_px(line.height),
                    },
                );
            }
            k = k + 1;
        }
        out
    }
}

/// The quotient by [`POINT`], rounded down.
pub(crate) fn floor_divide(n: i128) -> (r: i128)
    ensures
        r == n as int / POINT as int,
{
    if n >= 0 {
        n / 0x100_0000
    } else if n % 0x100_0000 == 0 {
        n / 0x100_0000
    } else {
        n / 0x100_0000 - 1
    }
}

/// A length in points that takes so many pixels.
pub fn points_of(length: i64, scale: i64) -> (r: Points)
    requires
        -0x20_0000_0000_0000 <= length <= 0x20_0000_0000_0000,
        scale >= SMALLEST_SCALE,
    ensures
        r == points(length as int, scale as int),
{
    let size: i128 = if length >= 0 {
        length as i128
    } else {
        -(length as i128)
    };
    let n: i128 = size * 0x100_0000;
    let d: i128 = scale as i128;
    let q: i128 = n / d;
    let rest: i128 = n % d;
    proof {
        vstd::arithmetic::div_mod::lemma_fundamental_div_mod(n as int, d as int);
        assert(q * 131_072 <= q * d) by (nonlinear_arith)
            requires
                0 <= q,
                d >= 131_072,
        ;
        assert(q * d == d * q) by (nonlinear_arith);
    }
    if length >= 0 {
        q as i64
    } else if rest == 0 {
        proof {
            assert(-n == (-q) * d + 0) by (nonlinear_arith)
                requires
                    n == d * q + rest,
                    rest == 0,
            ;
            vstd::arithmetic::div_mod::lemma_fundamental_div_mod_converse(
                -n as int,
                d as int,
                -q as int,
                0,
            );
        }
        (-q) as i64
    } else {
        proof {
            assert(-n == (-q - 1) * d + (d - rest)) by (nonlinear_arith)
                requires
                    n == d * q + rest,
            ;
            vstd::arithmetic::div_mod::lemma_fundamental_div_mod_converse(
                -n as int,
                d as int,
                -q - 1,
                d - rest,
            );
        }
        (-q - 1) as i64
    }
}

/// The stop nearest to a distance from the start of a piece.
fn stop_near(stops: &Vec<Points>, distance: Points) -> (r: usize)
    requires
        stops@.len() >= 2,
        0 <= distance <= WIDEST,
        forall|k: int| 0 <= k < stops@.len() ==> 0 <= #[trigger] stops@[k] <= WIDEST,
    ensures
        r == nearest_stop(stops@, distance as int),
        r < stops@.len(),
{
    let mut k: usize = 1;
    while k < stops.len() - 1 && stops[k] <= distance
        invariant
            1 <= k < stops@.len(),
            stop_beyond(stops@, distance as int, 1) == stop_beyond(stops@, distance as int, k as int),
        decreases stops@.len() - k,
    {
        k = k + 1;
    }
    if distance - stops[k - 1] <= stops[k] - distance {
        k - 1
    } else {
        k
    }
}

/// The lines up to the `k`-th are the same wherever the pieces and the width
/// are.
proof fn lemma_same_lines(
    pieces: Seq<PieceView>,
    wrap: int,
    line_height: int,
    a: Seq<LineView>,
    b: Seq<LineView>,
    k: int,
)
    requires
        lines_hold(pieces, wrap, line_height, a, pieces.len() as int),
        lines_hold(pieces, wrap, line_height, b, pieces.len() as int),
        0 <= k < a.len(),
    ensures
        k < b.len(),
        a[k] == b[k],
    decreases k,
{
    if k > 0 {
        lemma_same_lines(pieces, wrap, line_height, a, b, k - 1);
        assert(a[k - 1].first + a[k - 1].places.len() == a[k].first);
        assert(line_holds(pieces, wrap, line_height, a[k], k));
        if k == b.len() {
            assert(b[b.len() - 1] == a[k - 1]);
        }
        assert(b[k - 1].first + b[k - 1].places.len() == b[k].first);
    } else {
        assert(line_holds(pieces, wrap, line_height, a[0], 0));
    }
    assert(line_holds(pieces, wrap, line_height, a[k], k));
    assert(line_holds(pieces, wrap, line_height, b[k], k));
    lemma_line_is_as_long(pieces, wrap, line_height, a, b, k);
    lemma_line_is_as_long(pieces, wrap, line_height, b, a, k);
    let n = a[k].places.len() as int;
    assert forall|j: int| 0 <= j < n implies a[k].places[j] == b[k].places[j] by {
        let i = a[k].first + j;
        assert(line_start(pieces, wrap, i) == a[k].first);
        assert(a[k].places[i - a[k].first] == row_width(pieces, a[k].first, i));
        assert(b[k].places[i - b[k].first] == row_width(pieces, b[k].first, i));
    }
    assert(a[k].places == b[k].places);
    assert(a[k] == b[k]);
}

/// A line takes every piece that belongs on it.
proof fn lemma_line_is_as_long(
    pieces: Seq<PieceView>,
    wrap: int,
    line_height: int,
    a: Seq<LineView>,
    b: Seq<LineView>,
    k: int,
)
    requires
        lines_hold(pieces, wrap, line_height, a, pieces.len() as int),
        lines_hold(pieces, wrap, line_height, b, pieces.len() as int),
        0 <= k < a.len(),
        k < b.len(),
        a[k].first == b[k].first,
    ensures
        a[k].places.len() >= b[k].places.len(),
{
    assert(line_holds(pieces, wrap, line_height, a[k], k));
    assert(line_holds(pieces, wrap, line_height, b[k], k));
    let next = a[k].first + a[k].places.len();
    if a[k].places.len() < b[k].places.len() {
        assert(line_start(pieces, wrap, next) == b[k].first);
        assert(k + 1 < a.len());
        assert(line_holds(pieces, wrap, line_height, a[k + 1], k + 1));
        assert(a[k + 1].first == next);
        assert(line_start(pieces, wrap, next) == next);
    }
}

/// Lines break where the widths in points say: two layouts of the same pieces
/// at the same width have the same lines, whatever the zoom.
pub proof fn lines_break_by_points(a: LayoutView, b: LayoutView)
    requires
        a.valid(),
        b.valid(),
        a.pieces == b.pieces,
        a.wrap == b.wrap,
        a.leading == b.leading,
    ensures
        a.lines == b.lines,
        forall|offset: int| #[trigger] a.caret(offset) == b.caret(offset),
{
    if a.pieces.len() > 0 {
        if a.lines.len() < b.lines.len() {
            lemma_same_lines(a.pieces, a.wrap, a.leading, b.lines, a.lines, a.lines.len() as int);
        }
        if b.lines.len() < a.lines.len() {
            lemma_same_lines(a.pieces, a.wrap, a.leading, a.lines, b.lines, b.lines.len() as int);
        }
        assert forall|k: int| 0 <= k < a.lines.len() implies a.lines[k] == b.lines[k] by {
            lemma_same_lines(a.pieces, a.wrap, a.leading, a.lines, b.lines, k);
        }
    }
    assert(a.lines == b.lines);
    assert forall|offset: int| #[trigger] a.caret(offset) == b.caret(offset) by {
        lemma_same_caret(a, b, offset, 0);
        lemma_same_x(a, b, a.lines[a.line_of(offset, 0)], offset, 0);
    }
}

/// Words do not stick out of the block, and no line breaks too early: a word that
/// is not the first piece of its line ends within the width of the block, and a
/// line other than the first begins with a word that would have ended beyond it
/// on the line above.
pub proof fn words_stay_within_the_block(v: LayoutView, k: int)
    requires
        v.valid(),
        0 <= k < v.lines.len(),
    ensures
        ({
            let line = v.lines[k];
            forall|j: int|
                0 < j < line.places.len() && !v.pieces[line.first + j].blank ==> (
                #[trigger] line.places[j]) + v.pieces[line.first + j].stops.last() <= v.wrap
        }),
        k > 0 ==> {
            let word = v.pieces[v.lines[k].first];
            let above = v.lines[k - 1];
            let last = v.pieces[above.first + above.places.len() - 1];
            &&& !word.blank
            &&& above.places.last() + last.stops.last() + word.stops.last() > v.wrap
        },
{
    lemma_line(v, k);
    let line = v.lines[k];
    if v.pieces.len() > 0 {
        assert(line_holds(v.pieces, v.wrap, v.leading, v.lines[k], k));
        assert forall|j: int|
            0 < j < line.places.len() && !v.pieces[line.first + j].blank implies (
        #[trigger] line.places[j]) + v.pieces[line.first + j].stops.last() <= v.wrap by {
            let i = line.first + j;
            assert(line_start(v.pieces, v.wrap, i) == line.first);
            assert(line_start(v.pieces, v.wrap, i - 1) == line.first);
            assert(line.places[i - line.first] == row_width(v.pieces, line.first, i));
        }
    } else {
        assert(v.lines[0] == empty_line(v.leading));
        assert(v.lines.len() == 1);
    }
    if k > 0 {
        let above = v.lines[k - 1];
        assert(line_holds(v.pieces, v.wrap, v.leading, v.lines[k - 1], k - 1));
        let i = line.first;
        assert(above.first + above.places.len() == i);
        assert(line_start(v.pieces, v.wrap, i) == i);
        assert(line_start(v.pieces, v.wrap, i - 1) == above.first);
        assert(above.places[i - 1 - above.first] == row_width(v.pieces, above.first, i - 1));
    }
}

/// Every piece stands on one line, in the order of the text and without a hole:
/// the first of a line at the margin, each other one where the one before it
/// ends. The lines stand below each other at the distance of the lines.
pub proof fn pieces_stand_side_by_side(v: LayoutView, k: int)
    requires
        v.valid(),
        0 <= k < v.lines.len(),
    ensures
        v.lines[0].first == 0,
        v.lines.last().first + v.lines.last().places.len() == v.pieces.len(),
        v.pieces.len() > 0 ==> v.lines[k].places.len() > 0,
        v.lines[k].places.len() > 0 ==> {
            let line = v.lines[k];
            &&& line.places[0] == 0
            &&& line.start == v.pieces[line.first].start
            &&& line.end == v.pieces[line.first + line.places.len() - 1].end
        },
        forall|j: int|
            0 < j < v.lines[k].places.len() ==> #[trigger] v.lines[k].places[j]
                == v.lines[k].places[j - 1] + v.pieces[v.lines[k].first + j - 1].stops.last(),
        v.lines[0].top == 0,
        v.lines[k].height == v.leading,
        k > 0 ==> {
            &&& v.lines[k].first == v.lines[k - 1].first + v.lines[k - 1].places.len()
            &&& v.lines[k].start == v.lines[k - 1].end
            &&& v.lines[k].top == v.lines[k - 1].top + v.leading
        },
{
    lemma_line(v, k);
    lemma_line(v, 0);
    lemma_line(v, v.lines.len() - 1);
    assert(0 * v.leading == 0) by (nonlinear_arith);
    if v.pieces.len() > 0 {
        assert(v.lines[k].places[0] == 0);
    } else {
        assert(v.lines[0] == empty_line(v.leading));
    }
    assert forall|j: int| 0 < j < v.lines[k].places.len() implies #[trigger] v.lines[k].places[j]
        == v.lines[k].places[j - 1] + v.pieces[v.lines[k].first + j - 1].stops.last() by {
        lemma_piece_on_line(v, k, j - 1);
    }
    if k > 0 {
        lemma_line(v, k - 1);
        let above = v.lines[k - 1];
        assert(above.first + above.places.len() == v.lines[k].first);
        let i = v.lines[k].first;
        assert(v.pieces[i - 1].end == v.pieces[i].start);
        assert(k * v.leading == (k - 1) * v.leading + v.leading) by (nonlinear_arith);
    }
}

/// The width of a paragraph is the one of its widest line: no line is wider, and
/// one is as wide.
pub proof fn the_widest_line_gives_the_width(v: LayoutView, k: int)
    requires
        v.valid(),
        v.pieces.len() > 0,
        0 <= k < v.lines.len(),
    ensures
        ({
            let width = v.width_of(v.lines.len() as int);
            let line = v.lines[k];
            &&& line.places.last() + v.pieces[line.first + line.places.len() - 1].stops.last()
                <= width
            &&& exists|m: int|
                0 <= m < v.lines.len() && (#[trigger] v.lines[m]).places.last()
                    + v.pieces[v.lines[m].first + v.lines[m].places.len() - 1].stops.last()
                    == width
        }),
{
    lemma_width_of(v, k, v.lines.len() as int);
}

proof fn lemma_width_of(v: LayoutView, k: int, count: int)
    requires
        v.valid(),
        v.pieces.len() > 0,
        0 < count <= v.lines.len(),
    ensures
        0 <= k < count ==> v.lines[k].places.last() + v.pieces[v.lines[k].first
            + v.lines[k].places.len() - 1].stops.last() <= v.width_of(count),
        exists|m: int|
            0 <= m < count && (#[trigger] v.lines[m]).places.last() + v.pieces[v.lines[m].first
                + v.lines[m].places.len() - 1].stops.last() == v.width_of(count),
    decreases count,
{
    let last = count - 1;
    lemma_line(v, last);
    let line = v.lines[last];
    let edge = line.places.last() + v.pieces[line.first + line.places.len() - 1].stops.last();
    assert(v.pieces[line.first + line.places.len() - 1].valid());
    assert(0 <= line.places[line.places.len() - 1]);
    if count > 1 {
        lemma_width_of(v, k, count - 1);
        let m = choose|m: int|
            0 <= m < count - 1 && (#[trigger] v.lines[m]).places.last() + v.pieces[v.lines[m].first
                + v.lines[m].places.len() - 1].stops.last() == v.width_of(count - 1);
        assert(v.lines[m].places.last() + v.pieces[v.lines[m].first + v.lines[m].places.len()
            - 1].stops.last() == v.width_of(count - 1));
    } else {
        assert(v.width_of(0) == 0);
    }
    assert(v.lines[last].places.last() + v.pieces[v.lines[last].first + v.lines[last].places.len()
        - 1].stops.last() == edge);
}

/// The numbers of a layout: it is broken at the width of the block in points, to
/// the next smaller length and at least a point, its lines are as far apart as
/// asked for or one and a fifth of the size, and what is told in pixels is the
/// length times the pixels of a point, cut to a whole number.
pub proof fn a_layout_has_the_measures_of_its_block(
    v: LayoutView,
    pieces: Seq<PieceView>,
    base: BaseStyle,
    wrap_width: int,
    length: int,
)
    requires
        is_laid_out(v, pieces, base, wrap_width),
        base.points_to_px >= SMALLEST_SCALE,
    ensures
        v.pieces == pieces,
        v.scale == base.points_to_px,
        v.wrap >= POINT,
        v.wrap > POINT ==> v.wrap * v.scale <= wrap_width * POINT,
        (v.wrap + 1) * v.scale > wrap_width * POINT,
        base.line_height_points > 0 ==> v.leading == base.line_height_points,
        base.line_height_points <= 0 ==> 5 * v.leading <= 6 * base.size_points < 5 * v.leading + 5,
        pixels(length, v.scale) * POINT <= length * v.scale < pixels(length, v.scale) * POINT + POINT,
{
    let scale = v.scale;
    let n = wrap_width * POINT;
    vstd::arithmetic::div_mod::lemma_fundamental_div_mod(n, scale);
    let q = n / scale;
    assert(q == points(wrap_width, scale));
    assert(0 <= n % scale < scale);
    assert(scale * q == q * scale) by (nonlinear_arith);
    assert((q + 1) * scale == q * scale + scale) by (nonlinear_arith);
    if v.wrap > q {
        assert((v.wrap + 1) * scale > (q + 1) * scale) by (nonlinear_arith)
            requires
                v.wrap > q,
                scale > 0,
        ;
    }
}

/// Zoom scales everything together: at `k` pixels to a point and at a width that
/// grows with it, a paragraph breaks where it breaks at one pixel to a point,
/// and its width, its height and every caret are those at one pixel to a point
/// times `k`, cut to a whole number.
pub proof fn zoom_scales_everything_together(
    pieces: Seq<PieceView>,
    base: BaseStyle,
    width: int,
    k: i64,
    one: LayoutView,
    many: LayoutView,
)
    requires
        k >= SMALLEST_SCALE,
        (width * k) % (POINT as int) == 0,
        is_laid_out(one, pieces, (BaseStyle { points_to_px: POINT, ..base }), width),
        is_laid_out(
            many,
            pieces,
            (BaseStyle { points_to_px: k, ..base }),
            width * k / (POINT as int),
        ),
    ensures
        many.wrap == one.wrap,
        many.lines == one.lines,
        pixels(many.width_of(many.lines.len() as int), many.scale) == pixels(
            pixels(one.width_of(one.lines.len() as int), one.scale),
            k as int,
        ),
        pixels(many.lines.len() * many.leading, many.scale) == pixels(
            pixels(one.lines.len() * one.leading, one.scale),
            k as int,
        ),
        forall|offset: int|
            #![trigger many.caret(offset)]
            {
                let (x, top, height) = one.caret(offset);
                let scaled = many.caret(offset);
                &&& pixels(scaled.0, many.scale) == pixels(pixels(x, one.scale), k as int)
                &&& pixels(scaled.1, many.scale) == pixels(pixels(top, one.scale), k as int)
                &&& pixels(scaled.2, many.scale) == pixels(pixels(height, one.scale), k as int)
            },
{
    let unit = POINT as int;
    let scale = k as int;
    let wider = width * scale / unit;
    assert(wider * unit == width * scale);
    assert(width * scale == scale * width + 0) by (nonlinear_arith);
    vstd::arithmetic::div_mod::lemma_fundamental_div_mod_converse(
        width * scale,
        scale,
        width,
        0,
    );
    assert(points(wider, scale) == width);
    vstd::arithmetic::div_mod::lemma_fundamental_div_mod_converse(width * unit, unit, width, 0);
    assert(points(width, unit) == width);
    lines_break_by_points(many, one);
    lemma_same_width(many, one, many.lines.len() as int);
    assert(forall|length: int| #[trigger] pixels(length, unit) == length);
}

proof fn lemma_same_width(a: LayoutView, b: LayoutView, count: int)
    requires
        a.pieces == b.pieces,
        a.lines == b.lines,
    ensures
        a.width_of(count) == b.width_of(count),
    decreases count,
{
    if count > 0 {
        lemma_same_width(a, b, count - 1);
    }
}

proof fn lemma_same_caret(a: LayoutView, b: LayoutView, offset: int, k: int)
    requires
        a.lines == b.lines,
    ensures
        a.line_of(offset, k) == b.line_of(offset, k),
    decreases a.lines.len() - k,
{
    if !(k + 1 >= a.lines.len() || offset < a.lines[k].end) {
        lemma_same_caret(a, b, offset, k + 1);
    }
}

proof fn lemma_same_x(a: LayoutView, b: LayoutView, line: LineView, offset: int, j: int)
    requires
        a.pieces == b.pieces,
    ensures
        a.x_on(line, offset, j) == b.x_on(line, offset, j),
    decreases line.places.len() - j,
{
    if 0 <= j < line.places.len() {
        lemma_same_x(a, b, line, offset, j + 1);
    }
}

/// A later piece starts no earlier than an earlier one ends.
proof fn lemma_starts_grow(pieces: Seq<PieceView>, i: int, j: int)
    requires
        in_a_row(pieces),
        0 <= i < j < pieces.len(),
    ensures
        pieces[i].start < pieces[i].end <= pieces[j].start,
    decreases j - i,
{
    assert(pieces[i].valid());
    lemma_nonempty_has_bytes(pieces[i].text);
    assert(pieces[j - 1].end == pieces[j].start);
    if i < j - 1 {
        lemma_starts_grow(pieces, i, j - 1);
        assert(pieces[j - 1].valid());
        lemma_nonempty_has_bytes(pieces[j - 1].text);
    }
}

proof fn lemma_nonempty_has_bytes(text: Seq<char>)
    requires
        text.len() > 0,
    ensures
        byte_len(text) > 0,
{
}

/// The line that a piece stands on.
proof fn lemma_line_with_piece(v: LayoutView, p: int, k: int) -> (r: int)
    requires
        v.valid(),
        0 <= p < v.pieces.len(),
        0 <= k < v.lines.len(),
        v.lines[k].first <= p,
    ensures
        k <= r < v.lines.len(),
        v.lines[r].first <= p < v.lines[r].first + v.lines[r].places.len(),
    decreases v.lines.len() - k,
{
    if p < v.lines[k].first + v.lines[k].places.len() {
        k
    } else {
        assert(k + 1 < v.lines.len());
        assert(v.lines[k].first + v.lines[k].places.len() == v.lines[k + 1].first);
        lemma_line_with_piece(v, p, k + 1)
    }
}

/// A line ends where the next one starts.
proof fn lemma_line_ends(v: LayoutView, m: int, k: int)
    requires
        v.valid(),
        v.pieces.len() > 0,
        0 <= m < k < v.lines.len(),
    ensures
        v.lines[m].end <= v.pieces[v.lines[k].first].start,
    decreases k - m,
{
    assert(line_holds(v.pieces, v.wrap, v.leading, v.lines[m], m));
    assert(line_holds(v.pieces, v.wrap, v.leading, v.lines[k], k));
    assert(line_holds(v.pieces, v.wrap, v.leading, v.lines[m + 1], m + 1));
    let next = v.lines[m + 1].first;
    assert(v.lines[m].first + v.lines[m].places.len() == next);
    assert(v.pieces[next - 1].end == v.pieces[next].start);
    if m + 1 < k {
        lemma_line_ends(v, m + 1, k);
        let last = next + v.lines[m + 1].places.len() - 1;
        assert(v.pieces[next].valid());
        lemma_nonempty_has_bytes(v.pieces[next].text);
        if next < last {
            lemma_starts_grow(v.pieces, next, last);
            assert(v.pieces[last].valid());
        }
    }
}

/// Every piece grows with its characters, and lines have a height.
pub open spec fn shows_every_character(v: LayoutView) -> bool {
    &&& v.leading > 0
    &&& forall|i: int| 0 <= i < v.pieces.len() ==> (#[trigger] v.pieces[i]).grows()
}

/// The byte offset of the `c`-th character of the `p`-th piece.
pub open spec fn offset_in(v: LayoutView, p: int, c: int) -> int {
    v.pieces[p].start + offset_of(v.pieces[p].text, c)
}

/// The line of a character.
proof fn lemma_line_of(v: LayoutView, k: int, p: int, c: int, m: int)
    requires
        v.valid(),
        0 <= p < v.pieces.len(),
        0 <= c < v.pieces[p].text.len() || (c == v.pieces[p].text.len() && p + 1
            == v.pieces.len()),
        0 <= m <= k < v.lines.len(),
        v.lines[k].first <= p < v.lines[k].first + v.lines[k].places.len(),
    ensures
        v.line_of(offset_in(v, p, c), m) == k,
    decreases k - m,
{
    let offset = offset_in(v, p, c);
    let piece = v.pieces[p];
    assert(piece.valid());
    lemma_offset_ends(piece.text);
    assert(line_holds(v.pieces, v.wrap, v.leading, v.lines[k], k));
    if m < k {
        lemma_line_ends(v, m, k);
        if v.lines[k].first < p {
            lemma_starts_grow(v.pieces, v.lines[k].first, p);
        }
        lemma_line_of(v, k, p, c, m + 1);
    } else if c < piece.text.len() {
        lemma_offset_grows(piece.text, c, piece.text.len() as int);
        let last = v.lines[k].first + v.lines[k].places.len() - 1;
        if p < last {
            lemma_starts_grow(v.pieces, p, last);
            assert(v.pieces[last].valid());
        }
    } else {
        assert(line_holds(v.pieces, v.wrap, v.leading, v.lines[v.lines.len() - 1], v.lines.len()
            - 1));
        if k + 1 < v.lines.len() {
            lemma_line_ends(v, k, v.lines.len() - 1);
            assert(line_holds(v.pieces, v.wrap, v.leading, v.lines[k + 1], k + 1));
            assert(v.lines[k].first + v.lines[k].places.len() == v.lines[k + 1].first);
        }
    }
}

/// Where a character stands on its line.
proof fn lemma_x_of(v: LayoutView, k: int, p: int, c: int, j: int)
    requires
        v.valid(),
        0 <= p < v.pieces.len(),
        v.pieces[p].stops[0] == 0,
        0 <= c <= v.pieces[p].text.len(),
        0 <= k < v.lines.len(),
        v.lines[k].first <= p < v.lines[k].first + v.lines[k].places.len(),
        0 <= j <= p - v.lines[k].first,
    ensures
        v.x_on(v.lines[k], offset_in(v, p, c), j) == v.lines[k].places[p - v.lines[k].first]
            + v.pieces[p].stops[c],
    decreases p - j,
{
    let line = v.lines[k];
    let offset = offset_in(v, p, c);
    let piece = v.pieces[p];
    lemma_line(v, k);
    assert(piece.valid());
    lemma_offset_ends(piece.text);
    lemma_offset_grows(piece.text, 0, c);
    lemma_offset_grows(piece.text, c, piece.text.len() as int);
    if line.first + j < p {
        let other = v.pieces[line.first + j];
        lemma_starts_grow(v.pieces, line.first + j, p);
        assert(other.valid());
        if offset <= other.end {
            assert(offset == other.end && c == 0);
            if line.first + j + 1 < p {
                lemma_starts_grow(v.pieces, line.first + j + 1, p);
                assert(v.pieces[line.first + j].end == v.pieces[line.first + j + 1].start);
            }
            lemma_offset_ends(other.text);
            offset_round_trip(other.text, other.text.len() as int);
            lemma_piece_on_line(v, k, j);
        } else {
            lemma_x_of(v, k, p, c, j + 1);
        }
    } else {
        offset_round_trip(piece.text, c);
    }
}

/// The stop at a distance where a stop is, is that stop.
proof fn lemma_nearest_stop(stops: Seq<Points>, c: int, k: int)
    requires
        stops.len() >= 2,
        forall|i: int, j: int|
            0 <= i < j < stops.len() ==> #[trigger] stops[i] < #[trigger] stops[j],
        0 <= c < stops.len(),
        1 <= k < stops.len(),
        k <= c + 1,
    ensures
        stop_beyond(stops, stops[c] as int, k) == if c + 1 < stops.len() {
            c + 1
        } else {
            c
        },
    decreases stops.len() - k,
{
    if !(k + 1 >= stops.len() || stops[k] > stops[c]) {
        lemma_nearest_stop(stops, c, k + 1);
    }
}

/// The offset that a click on a character's place finds.
proof fn lemma_click(v: LayoutView, k: int, p: int, c: int, j: int)
    requires
        v.valid(),
        shows_every_character(v),
        0 <= p < v.pieces.len(),
        0 <= c <= v.pieces[p].text.len(),
        0 <= k < v.lines.len(),
        v.lines[k].first <= p < v.lines[k].first + v.lines[k].places.len(),
        0 <= j <= p - v.lines[k].first,
    ensures
        v.offset_on(
            v.lines[k],
            v.lines[k].places[p - v.lines[k].first] + v.pieces[p].stops[c],
            j,
        ) == offset_in(v, p, c),
    decreases p - j,
{
    let line = v.lines[k];
    let piece = v.pieces[p];
    let x = line.places[p - line.first] + piece.stops[c];
    lemma_line(v, k);
    assert(piece.valid() && piece.grows());
    let other = v.pieces[line.first + j];
    assert(other.valid() && other.grows());
    assert(0 <= line.places[j]);
    assert(0 <= line.places[p - line.first]);
    lemma_offset_ends(other.text);
    lemma_offset_ends(piece.text);
    if line.first + j < p {
        lemma_places_grow(v, k, j, p - line.first);
        if x <= line.places[j] + other.width() {
            assert(x == line.places[j] + other.width());
            assert(c == 0) by {
                if c > 0 {
                    assert(piece.stops[0] < piece.stops[c]);
                }
            }
            lemma_nearest_stop(other.stops, other.stops.len() - 1, 1);
            lemma_piece_on_line(v, k, j);
            if line.first + j + 1 < p {
                lemma_places_grow(v, k, j + 1, p - line.first);
                assert(v.pieces[line.first + j + 1].grows());
                assert(v.pieces[line.first + j + 1].valid());
                let next = v.pieces[line.first + j + 1];
                assert(next.stops[0] < next.stops[next.stops.len() - 1]);
                assert(0 <= line.places[j + 1]);
            }
            assert(v.pieces[line.first + j].end == v.pieces[line.first + j + 1].start);
        } else {
            lemma_click(v, k, p, c, j + 1);
        }
    } else {
        lemma_nearest_stop(piece.stops, c, 1);
        assert(nearest_stop(piece.stops, piece.stops[c] as int) == c);
        assert(x - line.places[j] == piece.stops[c]);
        assert(piece.stops[c] <= piece.width());
    }
}

/// A later piece of a line stands behind an earlier one.
proof fn lemma_places_grow(v: LayoutView, k: int, i: int, j: int)
    requires
        v.valid(),
        0 <= k < v.lines.len(),
        0 <= i < j < v.lines[k].places.len(),
    ensures
        v.lines[k].places[i] + v.pieces[v.lines[k].first + i].width() <= v.lines[k].places[j],
    decreases j - i,
{
    lemma_piece_on_line(v, k, i);
    if i + 1 < j {
        lemma_piece_on_line(v, k, i + 1);
        lemma_places_grow(v, k, i + 1, j);
    }
}

/// The line at the top of the `k`-th line is that line.
proof fn lemma_line_under(v: LayoutView, k: int, m: int)
    requires
        v.valid(),
        v.leading > 0,
        0 <= m <= k < v.lines.len(),
    ensures
        v.line_under(v.lines[k].top, m) == k,
    decreases k - m,
{
    lemma_line(v, k);
    lemma_line(v, m);
    if m < k {
        assert(m * v.leading + v.leading <= k * v.leading) by (nonlinear_arith)
            requires
                m + 1 <= k,
                v.leading > 0,
        ;
        lemma_line_under(v, k, m + 1);
    }
}

/// A click where the caret is drawn puts the caret back to the same offset:
/// in front of every character, and at the end of the text.
pub proof fn a_click_on_the_caret_finds_its_offset(v: LayoutView, p: int, c: int)
    requires
        v.valid(),
        shows_every_character(v),
        0 <= p < v.pieces.len(),
        0 <= c < v.pieces[p].text.len() || (c == v.pieces[p].text.len() && p + 1
            == v.pieces.len()),
    ensures
        ({
            let (x, top, _) = v.caret(offset_in(v, p, c));
            v.offset_at(x, top) == offset_in(v, p, c)
        }),
{
    assert(v.pieces[p].valid() && v.pieces[p].grows());
    let k = lemma_line_with_piece(v, p, 0);
    lemma_line_of(v, k, p, c, 0);
    lemma_x_of(v, k, p, c, 0);
    lemma_line_under(v, k, 0);
    lemma_click(v, k, p, c, 0);
}

/// The caret in front of a character stands on the line of its piece, as far from
/// the margin as the piece and the characters before it reach.
pub proof fn the_caret_stands_in_front_of_its_character(v: LayoutView, k: int, p: int, c: int)
    requires
        v.valid(),
        0 <= k < v.lines.len(),
        v.lines[k].first <= p < v.lines[k].first + v.lines[k].places.len(),
        v.pieces[p].stops[0] == 0,
        0 <= c < v.pieces[p].text.len() || (c == v.pieces[p].text.len() && p + 1
            == v.pieces.len()),
    ensures
        v.caret((v.pieces[p].start + byte_len(v.pieces[p].text.take(c))) as int) == (
            v.lines[k].places[p - v.lines[k].first] + v.pieces[p].stops[c],
            v.lines[k].top,
            v.leading,
        ),
{
    lemma_line(v, k);
    assert(v.pieces[p].valid());
    lemma_line_of(v, k, p, c, 0);
    lemma_x_of(v, k, p, c, 0);
}

/// Whether a mark lies on the `m`-th line, and a range reaches that line.
pub open spec fn marks_line(v: LayoutView, mark: Mark, from: int, to: int, m: int) -> bool {
    &&& 0 <= m < v.lines.len()
    &&& from < v.lines[m].end
    &&& v.lines[m].start < to
    &&& mark.y == pixels(v.lines[m].top, v.scale) as i64
}

/// Whether a mark lies on a line that a range reaches.
pub open spec fn marks_a_line(v: LayoutView, mark: Mark, from: int, to: int) -> bool {
    exists|m: int| marks_line(v, mark, from, to, m)
}

/// A selection marks the lines that it reaches and no others: a line that lies in
/// it is marked from the margin to its end.
pub proof fn a_selection_marks_the_lines_it_reaches(v: LayoutView, from: int, to: int, k: int)
    requires
        v.valid(),
        v.pieces.len() > 0,
        forall|i: int| 0 <= i < v.pieces.len() ==> (#[trigger] v.pieces[i]).stops[0] == 0,
        0 <= k < v.lines.len(),
    ensures
        ({
            let marks = v.marks(from, to, v.lines.len() as int);
            let line = v.lines[k];
            let last = v.pieces[line.first + line.places.len() - 1];
            &&& from <= line.start && line.end <= to ==> exists|i: int|
                0 <= i < marks.len() && (#[trigger] marks[i]).x == 0 && marks[i].y == pixels(
                    line.top,
                    v.scale,
                ) && marks[i].height == pixels(v.leading, v.scale) && marks[i].width == pixels(
                    line.places.last() + last.stops.last(),
                    v.scale,
                )
            &&& forall|i: int|
                0 <= i < marks.len() ==> marks_a_line(v, #[trigger] marks[i], from, to)
        }),
{
    lemma_line(v, k);
    lemma_marks(v, from, to, v.lines.len() as int);
    let marks = v.marks(from, to, v.lines.len() as int);
    let line = v.lines[k];
    let p = line.first + line.places.len() - 1;
    let piece = v.pieces[p];
    assert(piece.valid());
    assert(v.pieces[line.first].valid());
    if from <= line.start && line.end <= to {
        lemma_nonempty_has_bytes(piece.text);
        if line.first < p {
            lemma_starts_grow(v.pieces, line.first, p);
        }
        lemma_offset_ends(piece.text);
        lemma_x_of(v, k, p, piece.text.len() as int, 0);
        assert(v.x_on(line, line.end, 0) == line.places.last() + piece.stops.last());
        assert(line.places[0] == 0);
        assert(v.x_on(line, line.start, 0) == 0);
        let total = row_width(v.pieces, 0, v.pieces.len() as int);
        lemma_row_widths(v.pieces, 0, v.pieces.len() as int);
        assert(0 <= line.places[line.places.len() - 1]);
        lemma_pixels(line.places.last() + piece.stops.last(), total, v.scale);
        lemma_pixels(0, total, v.scale);
        lemma_pixels(line.top, (v.pieces.len() + 1) * v.leading, v.scale);
        lemma_pixels(line.height, (v.pieces.len() + 1) * v.leading, v.scale);
        assert(0 * v.scale == 0) by (nonlinear_arith);
        let mark = v.mark_on(line, from, to);
        assert(marks.contains(mark));
        let i = choose|i: int| 0 <= i < marks.len() && marks[i] == mark;
        assert(marks[i].x == 0);
    }
}

proof fn lemma_marks(v: LayoutView, from: int, to: int, count: int)
    requires
        0 <= count <= v.lines.len(),
    ensures
        forall|k: int|
            0 <= k < count && max_of(from, (#[trigger] v.lines[k]).start) < min_of(
                to,
                v.lines[k].end,
            ) ==> v.marks(from, to, count).contains(v.mark_on(v.lines[k], from, to)),
        forall|i: int|
            0 <= i < v.marks(from, to, count).len() ==> marks_a_line(
                v,
                #[trigger] v.marks(from, to, count)[i],
                from,
                to,
            ),
    decreases count,
{
    if count > 0 {
        lemma_marks(v, from, to, count - 1);
        let line = v.lines[count - 1];
        let before = v.marks(from, to, count - 1);
        let all = v.marks(from, to, count);
        if max_of(from, line.start) < min_of(to, line.end) {
            let mark = v.mark_on(line, from, to);
            assert(all[all.len() - 1] == mark);
            assert forall|k: int|
                0 <= k < count && max_of(from, (#[trigger] v.lines[k]).start) < min_of(
                    to,
                    v.lines[k].end,
                ) implies all.contains(v.mark_on(v.lines[k], from, to)) by {
                if k < count - 1 {
                    let wanted = v.mark_on(v.lines[k], from, to);
                    assert(before.contains(wanted));
                    let i = choose|i: int| 0 <= i < before.len() && before[i] == wanted;
                    assert(all[i] == wanted);
                }
            }
            assert forall|i: int| 0 <= i < all.len() implies marks_a_line(
                v,
                #[trigger] all[i],
                from,
                to,
            ) by {
                if i < before.len() {
                    assert(all[i] == before[i]);
                } else {
                    assert(marks_line(v, all[i], from, to, count - 1));
                }
            }
        }
    }
}

/// The texts of pieces, one after another.
pub open spec fn spelt(pieces: Seq<PieceView>) -> Seq<char>
    decreases pieces.len(),
{
    if pieces.len() == 0 {
        Seq::empty()
    } else {
        spelt(pieces.drop_last()) + pieces.last().text
    }
}

proof fn lemma_spelt_add(a: Seq<PieceView>, b: Seq<PieceView>)
    ensures
        spelt(a + b) == spelt(a) + spelt(b),
    decreases b.len(),
{
    if b.len() == 0 {
        assert(a + b == a);
    } else {
        lemma_spelt_add(a, b.drop_last());
        assert((a + b).drop_last() == a + b.drop_last());
    }
}

proof fn lemma_run_spelt(run: RunView, offset: int, base: int, count: int)
    requires
        0 <= count <= word_starts(run.text).len(),
    ensures
        spelt(run_pieces(run, offset, base).take(count)) == run.text.take(
            if count == 0 {
                0
            } else {
                word_end(run.text, count - 1)
            },
        ),
    decreases count,
{
    let all = run_pieces(run, offset, base);
    lemma_word_starts(run.text);
    if count > 0 {
        lemma_run_spelt(run, offset, base, count - 1);
        tokens_cover_the_text(run.text, count - 1);
        if count > 1 {
            tokens_cover_the_text(run.text, count - 2);
        }
        assert(all.take(count).drop_last() == all.take(count - 1));
        let from = word_starts(run.text)[count - 1];
        let to = word_end(run.text, count - 1);
        assert(run.text.take(from) + run.text.subrange(from, to) == run.text.take(to));
    } else {
        assert(all.take(0) == Seq::<PieceView>::empty());
        assert(run.text.take(0) == Seq::<char>::empty());
    }
}

proof fn lemma_whole_run_spelt(run: RunView, offset: int, base: int)
    ensures
        spelt(run_pieces(run, offset, base)) == run.text,
{
    let all = run_pieces(run, offset, base);
    let n = word_starts(run.text).len() as int;
    lemma_word_starts(run.text);
    lemma_run_spelt(run, offset, base, n);
    assert(all.take(n) == all);
    if n > 0 {
        tokens_cover_the_text(run.text, n - 1);
    }
    assert(run.text.take(run.text.len() as int) == run.text);
}

/// The pieces of a text spell it: no character is lost, none comes twice and none
/// changes its place.
pub proof fn the_pieces_spell_the_text(runs: Seq<RunView>, base: int)
    ensures
        spelt(pieces_of(runs, base)) == chars_of(cells_of(runs)),
    decreases runs.len(),
{
    if runs.len() > 0 {
        let head = runs.drop_last();
        let last = runs.last();
        let offset = runs_len(head) as int;
        the_pieces_spell_the_text(head, base);
        lemma_spelt_add(pieces_of(head, base), run_pieces(last, offset, base));
        lemma_whole_run_spelt(last, offset, base);
        let tail = styled(last.text, last.style);
        assert(chars_of(cells_of(head) + tail) == chars_of(cells_of(head)) + chars_of(tail));
        assert(chars_of(tail) == last.text);
    }
}

/// A piece is a word or a gap, all of one run, and before the fonts of the
/// document are known every character of it is half as wide as it is high. Its
/// size is the run's own, else the document's, else the paragraph's; a script is
/// three fifths of that.
pub proof fn a_piece_is_measured_by_its_run(run: RunView, offset: int, base: int, i: int, k: int)
    requires
        0 <= offset,
        0 <= base,
        run_fits(run, base),
        0 <= i < word_starts(run.text).len(),
        0 <= k <= run_pieces(run, offset, base)[i].text.len(),
    ensures
        ({
            let piece = run_pieces(run, offset, base)[i];
            let size = match (run.style.size, run.style.document_size) {
                (Some(size), _) => size as int,
                (None, Some(size)) => size as int,
                (None, None) => base,
            };
            &&& piece.stops.len() == piece.text.len() + 1
            &&& 2 * piece.stops[k] <= k * piece.size < 2 * piece.stops[k] + 2
            &&& run.style.script == Script::Baseline ==> piece.size == size
            &&& run.style.script != Script::Baseline ==> 5 * piece.size <= 3 * size < 5 * piece.size
                + 5
            &&& k < piece.text.len() ==> piece.blank == white_space(piece.text[k])
            &&& run.style.family is Some ==> piece.family == run.style.family
            &&& run.style.family is None ==> piece.family == run.style.document_family
        }),
{
    lemma_word_piece(run, offset, base, i);
    tokens_cover_the_text(run.text, i);
    lemma_word_starts(run.text);
    let piece = word_piece(run, offset, base, i);
    let size = effective(run.style, base);
    let from = word_starts(run.text)[i];
    let to = word_end(run.text, i);
    assert(piece.text.len() == to - from);
    assert(0 <= k * size <= run.text.len() * size) by (nonlinear_arith)
        requires
            0 <= k <= run.text.len(),
            0 <= size,
    ;
    if k < piece.text.len() {
        assert(piece.text[k] == run.text[from + k]);
    }
}

/// The word or gap that a character stands in.
proof fn lemma_word_of(text: Seq<char>, k: int, i: int) -> (r: int)
    requires
        0 <= i < word_starts(text).len(),
        word_starts(text)[i] <= k < text.len(),
    ensures
        i <= r < word_starts(text).len(),
        word_starts(text)[r] <= k < word_end(text, r),
    decreases word_starts(text).len() - i,
{
    if k < word_end(text, i) {
        i
    } else {
        lemma_word_of(text, k, i + 1)
    }
}

/// The piece and the character in it that stand at a character of the text, or
/// at its end.
proof fn lemma_piece_at(runs: Seq<RunView>, base: int, k: int) -> (r: (int, int))
    requires
        forall|i: int| 0 <= i < runs.len() ==> (#[trigger] runs[i]).text.len() > 0,
        0 <= k <= chars_of(cells_of(runs)).len(),
        0 < chars_of(cells_of(runs)).len(),
    ensures
        ({
            let pieces = pieces_of(runs, base);
            let text = chars_of(cells_of(runs));
            let (p, c) = r;
            &&& 0 <= p < pieces.len()
            &&& 0 <= c < pieces[p].text.len() || (k == text.len() && c == pieces[p].text.len() && p
                + 1 == pieces.len())
            &&& pieces[p].start + offset_of(pieces[p].text, c) == offset_of(text, k)
        }),
    decreases runs.len(),
{
    let head = runs.drop_last();
    let last = runs[runs.len() - 1];
    let tail = styled(last.text, last.style);
    let before = chars_of(cells_of(head));
    let text = chars_of(cells_of(runs));
    assert(chars_of(cells_of(head) + tail) == before + chars_of(tail));
    assert(chars_of(tail) == last.text);
    assert(text == before + last.text);
    let pieces = pieces_of(runs, base);
    let fewer = pieces_of(head, base);
    if k < before.len() {
        assert forall|i: int| 0 <= i < head.len() implies (#[trigger] head[i]).text.len() > 0 by {
            assert(head[i] == runs[i]);
        }
        let (p, c) = lemma_piece_at(head, base, k);
        assert(pieces[p] == fewer[p]);
        assert(text.take(k) == before.take(k));
        (p, c)
    } else {
        let word = last.text;
        let at = k - before.len();
        lemma_word_starts(word);
        let i = if at < word.len() {
            lemma_word_of(word, at, 0)
        } else {
            word_starts(word).len() - 1
        };
        tokens_cover_the_text(word, i);
        let from = word_starts(word)[i];
        let to = word_end(word, i);
        let c = at - from;
        let p = fewer.len() + i;
        assert(pieces[p] == word_piece(last, runs_len(head) as int, base, i));
        assert(word.take(at) == word.take(from) + word.subrange(from, to).take(c));
        byte_len_of_concatenation(word.take(from), word.subrange(from, to).take(c));
        assert(text.take(k) == before + word.take(at));
        byte_len_of_concatenation(before, word.take(at));
        (p, c)
    }
}

/// Whether every run is large enough for the estimate to tell its characters
/// apart.
pub open spec fn sizes_show(runs: Seq<RunView>, base: int) -> bool {
    forall|i: int| 0 <= i < runs.len() ==> effective((#[trigger] runs[i]).style, base) >= 2
}

/// The estimate makes every character wider than nothing.
proof fn lemma_estimate_grows(runs: Seq<RunView>, base: int, p: int)
    requires
        runs_fit(runs, base),
        sizes_show(runs, base),
        0 <= p < pieces_of(runs, base).len(),
    ensures
        pieces_of(runs, base)[p].grows(),
    decreases runs.len(),
{
    let head = runs.drop_last();
    let last = runs[runs.len() - 1];
    let fewer = pieces_of(head, base);
    let pieces = pieces_of(runs, base);
    if p < fewer.len() {
        assert forall|i: int| 0 <= i < head.len() implies run_fits(#[trigger] head[i], base)
            && effective(head[i].style, base) >= 2 by {
            assert(head[i] == runs[i]);
        }
        lemma_estimate_grows(head, base, p);
        assert(pieces[p] == fewer[p]);
    } else {
        let i = p - fewer.len();
        let size = effective(last.style, base);
        let piece = word_piece(last, runs_len(head) as int, base, i);
        assert(pieces[p] == piece);
        assert(run_fits(last, base) && size >= 2);
        tokens_cover_the_text(last.text, i);
        lemma_word_starts(last.text);
        let stops = piece.stops;
        assert(0 * size == 0) by (nonlinear_arith);
        assert forall|a: int, b: int| 0 <= a < b < stops.len() implies #[trigger] stops[a]
            < #[trigger] stops[b] by {
            assert(0 <= a * size && a * size + 2 <= b * size && b * size <= last.text.len() * size)
                by (nonlinear_arith)
                requires
                    0 <= a,
                    a + 1 <= b <= last.text.len(),
                    size >= 2,
            ;
        }
    }
}

/// Whether a layout is of a text: its pieces are the words of the text, and its
/// lines have a height.
pub open spec fn is_layout_of(v: LayoutView, runs: Seq<RunView>, base: int) -> bool {
    &&& v.valid()
    &&& v.pieces == pieces_of(runs, base)
    &&& v.leading > 0
    &&& runs_fit(runs, base)
    &&& sizes_show(runs, base)
    &&& forall|i: int| 0 <= i < runs.len() ==> (#[trigger] runs[i]).text.len() > 0
}

/// In the layout of a text, a click where the caret is drawn at an offset puts
/// it back to that offset, wherever the offset lies between two characters or
/// at an end of the text.
pub proof fn a_click_on_the_caret_finds_the_byte(
    v: LayoutView,
    runs: Seq<RunView>,
    base: int,
    offset: int,
)
    requires
        is_layout_of(v, runs, base),
        0 <= offset <= runs_len(runs),
        on_boundary(chars_of(cells_of(runs)), offset),
    ensures
        ({
            let (x, top, _) = v.caret(offset);
            v.offset_at(x, top) == offset
        }),
{
    let text = chars_of(cells_of(runs));
    let k = chars_before(text, offset);
    lemma_chars_before(text, offset);
    if text.len() > 0 {
        assert forall|i: int| 0 <= i < v.pieces.len() implies (#[trigger] v.pieces[i]).grows() by {
            lemma_estimate_grows(runs, base, i);
        }
        let (p, c) = lemma_piece_at(runs, base, k);
        a_click_on_the_caret_finds_its_offset(v, p, c);
    } else {
        lemma_pieces_in_a_row(runs, base);
        if v.pieces.len() > 0 {
            let last = v.pieces[v.pieces.len() - 1];
            assert(last.valid());
            lemma_nonempty_has_bytes(last.text);
            if v.pieces.len() > 1 {
                lemma_starts_grow(v.pieces, 0, v.pieces.len() - 1);
            }
        }
        assert(v.lines[0] == empty_line(v.leading));
    }
}

/// The same in pixels, where a point takes a whole number of them: the pixels
/// that the caret is drawn at lead back to its offset.
pub proof fn a_click_on_the_pixels_of_the_caret_finds_the_byte(
    v: LayoutView,
    runs: Seq<RunView>,
    base: int,
    offset: int,
)
    requires
        is_layout_of(v, runs, base),
        v.scale % (POINT as int) == 0,
        0 <= offset <= runs_len(runs),
        on_boundary(chars_of(cells_of(runs)), offset),
    ensures
        ({
            let (x, top, _) = v.caret(offset);
            v.offset_at(
                points(pixels(x, v.scale), v.scale),
                points(pixels(top, v.scale), v.scale),
            ) == offset
        }),
{
    let (x, top, _) = v.caret(offset);
    lemma_whole_pixels(x, v.scale);
    lemma_whole_pixels(top, v.scale);
    a_click_on_the_caret_finds_the_byte(v, runs, base, offset);
}

/// Where a point takes a whole number of pixels, none of a length is lost.
proof fn lemma_whole_pixels(length: int, scale: int)
    requires
        scale >= SMALLEST_SCALE,
        scale % (POINT as int) == 0,
    ensures
        points(pixels(length, scale), scale) == length,
{
    let unit = POINT as int;
    let m = scale / unit;
    assert(scale == unit * m);
    assert(length * scale == (length * m) * unit + 0) by (nonlinear_arith)
        requires
            scale == unit * m,
    ;
    vstd::arithmetic::div_mod::lemma_fundamental_div_mod_converse(
        length * scale,
        unit,
        length * m,
        0,
    );
    assert(pixels(length, scale) == length * m);
    assert((length * m) * unit == length * scale + 0) by (nonlinear_arith)
        requires
            scale == unit * m,
    ;
    vstd::arithmetic::div_mod::lemma_fundamental_div_mod_converse(
        (length * m) * unit,
        scale,
        length,
        0,
    );
}

/// On one line the caret moves to the right from character to character.
pub proof fn the_caret_moves_right(v: LayoutView, k: int, p: int, c: int, q: int, d: int)
    requires
        v.valid(),
        shows_every_character(v),
        0 <= k < v.lines.len(),
        v.lines[k].first <= p <= q < v.lines[k].first + v.lines[k].places.len(),
        q < v.pieces.len(),
        0 <= c < v.pieces[p].text.len(),
        0 <= d < v.pieces[q].text.len(),
        p < q || c < d,
    ensures
        v.caret(offset_in(v, p, c)).1 == v.caret(offset_in(v, q, d)).1,
        v.caret(offset_in(v, p, c)).0 < v.caret(offset_in(v, q, d)).0,
{
    lemma_line(v, k);
    let a = v.pieces[p];
    let b = v.pieces[q];
    assert(a.valid() && a.grows() && b.valid() && b.grows());
    lemma_line_of(v, k, p, c, 0);
    lemma_line_of(v, k, q, d, 0);
    lemma_x_of(v, k, p, c, 0);
    lemma_x_of(v, k, q, d, 0);
    if p < q {
        lemma_places_grow(v, k, p - v.lines[k].first, q - v.lines[k].first);
        assert(a.stops[c] < a.stops[a.stops.len() - 1]);
    } else {
        assert(a.stops[c] < a.stops[d]);
    }
}

/// A piece that takes over the widths of a font is drawn with a space behind each
/// character and stretched by so many hundredths, to the rounding: the head of `k`
/// characters is as wide as in the font, with `k` spaces, times the stretch. No head
/// is wider than the whole.
pub proof fn a_piece_takes_over_the_widths_of_its_font(
    widths: Seq<Points>,
    char_spacing: int,
    h_scale: int,
    k: int,
)
    requires
        0 <= k < widths.len(),
    ensures
        ({
            let stops = spread(widths, char_spacing, h_scale);
            let natural = widths[k] + k * char_spacing;
            &&& stops.len() == widths.len()
            &&& 0 <= stops[k] <= stops.last()
            &&& 0 <= natural <= WIDEST && 0 <= natural * h_scale <= 100 * POINT * WIDEST ==> {
                &&& stops[k] * (100 * POINT) <= natural * h_scale
                &&& stops[k] == stops.last() || natural * h_scale < (stops[k] + 1) * (100 * POINT)
                &&& k == widths.len() - 1 ==> natural * h_scale < (stops[k] + 1) * (100 * POINT)
            }
        }),
{
    let natural = widths[k] + k * char_spacing;
    let n = natural * h_scale;
    let d = 100 * POINT as int;
    vstd::arithmetic::div_mod::lemma_fundamental_div_mod(n, d);
    vstd::arithmetic::div_mod::lemma_mod_bound(n, d);
    if 0 <= natural <= WIDEST && 0 <= n <= d * WIDEST {
        let q = n / d;
        assert(0 <= q <= WIDEST) by (nonlinear_arith)
            requires
                d * q <= n < d * q + d,
                0 <= n <= d * WIDEST,
                d > 0,
        ;
        let stops = spread(widths, char_spacing, h_scale);
        assert(spread_width(widths, char_spacing, h_scale, k) == q);
        assert(stops[k] <= q);
        assert(stops[k] == q || stops[k] == stops.last());
        assert(stops[k] * d <= d * q) by (nonlinear_arith)
            requires
                stops[k] <= q,
                d > 0,
        ;
        assert(d * q + d == (q + 1) * d) by (nonlinear_arith);
    }
}

} // verus!
