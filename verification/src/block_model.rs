//! From a block of a page to the text that is edited.
use crate::chars::{byte_len, chars_of_str};
use crate::document::{Align, Block, BlockLine, BlockRun, Script};
use crate::numerals::{in_places, nearest_whole, rounded};
use crate::rich_text::{
    cells_of, chars_of, lemma_cells_add, lemma_cells_push, lemma_chars_add, lemma_chars_styled,
    plain_style, run_views, same_color, styled, RichText, Run, RunStyle, RunView, StyleView,
};
use crate::units::{Color, Points, POINT};
use vstd::prelude::*;

verus! {

/// The largest size and ordinate that a line is read with.
pub const READABLE: i64 = 0x10_0000_0000_0000;

/// Whether the numbers of a line can be computed with.
pub open spec fn line_fits(line: BlockLine) -> bool {
    &&& -READABLE <= line.baseline <= READABLE
    &&& -READABLE <= line.dominant_size <= READABLE
    &&& forall|i: int|
        0 <= i < line.runs@.len() ==> -READABLE <= (#[trigger] line.runs@[i]).baseline <= READABLE
            && -READABLE <= line.runs@[i].style.size <= READABLE
}

/// The size of a line's letters, at least a point.
pub open spec fn base_size(line: BlockLine) -> int {
    if line.dominant_size > POINT {
        line.dominant_size as int
    } else {
        POINT as int
    }
}

/// Indices are known by their looks: clearly smaller than the line and off its
/// baseline.
pub open spec fn script_of(run: BlockRun, line: BlockLine) -> Script {
    let offset = run.baseline - line.baseline;
    let far = if offset >= 0 {
        100 * offset > 4 * base_size(line)
    } else {
        -100 * offset > 4 * base_size(line)
    };
    if 100 * run.style.size < 85 * base_size(line) && far {
        if offset > 0 {
            Script::Superscript
        } else {
            Script::Subscript
        }
    } else {
        Script::Baseline
    }
}

/// The run that a piece of a line is read as. Its family, size, weight and
/// slant are remembered as the document's; its colour only where it differs
/// from that of the block.
pub open spec fn run_of_piece(run: BlockRun, line: BlockLine, dominant: Color) -> RunView {
    RunView {
        text: run.text@,
        style: StyleView {
            bold: run.style.bold,
            italic: run.style.italic,
            document_family: Some(run.style.family@),
            document_size: Some(
                if script_of(run, line) == Script::Baseline {
                    run.style.size
                } else {
                    base_size(line) as i64
                },
            ),
            document_color: if run.style.color != dominant {
                Some(run.style.color)
            } else {
                None
            },
            document_script: script_of(run, line),
            document_bold: run.style.bold,
            document_italic: run.style.italic,
            ..plain_style()
        },
    }
}

/// A text made ready for the next line: a hyphen at its end goes, for it cut a
/// word in two; anything else gets a space.
pub open spec fn seam(text: Seq<char>) -> Seq<char> {
    if text.len() > 0 && text.last() == '-' {
        text.drop_last()
    } else {
        text.push(' ')
    }
}

/// Runs made ready for the next line.
pub open spec fn seamed(runs: Seq<RunView>) -> Seq<RunView> {
    if runs.len() == 0 {
        runs
    } else {
        runs.drop_last().push(RunView { text: seam(runs.last().text), ..runs.last() })
    }
}

/// The runs of a line.
pub open spec fn line_runs(line: BlockLine, dominant: Color) -> Seq<RunView> {
    Seq::new(line.runs@.len(), |i: int| run_of_piece(line.runs@[i], line, dominant))
}

/// The runs of the lines of a block, one after another.
pub open spec fn block_runs(lines: Seq<BlockLine>, dominant: Color) -> Seq<RunView>
    decreases lines.len(),
{
    if lines.len() == 0 {
        Seq::empty()
    } else {
        seamed(block_runs(lines.drop_last(), dominant)) + line_runs(lines.last(), dominant)
    }
}

/// Whether a block can be read.
pub open spec fn block_fits(block: Block, dominant: Color) -> bool {
    &&& forall|i: int| 0 <= i < block.lines@.len() ==> line_fits(#[trigger] block.lines@[i])
    &&& byte_len(chars_of(cells_of(block_runs(block.lines@, dominant)))) <= usize::MAX
}

/// Makes a text ready for the next line.
fn sew(text: &String) -> (r: String)
    ensures
        r@ == seam(text@),
{
    let chars = chars_of_str(text.as_str());
    let n: usize = chars.len();
    if n > 0 && chars[n - 1] == '-' {
        let head = text.as_str().substring_char(0, n - 1);
        assert(head@ == text@.drop_last());
        head.to_owned()
    } else {
        let mut out = text.clone();
        out.append(" ");
        proof {
            reveal_strlit(" ");
        }
        assert(out@ == text@.push(' '));
        out
    }
}

impl BlockRun {
    /// The run that the piece is read as.
    fn to_run(&self, line: &BlockLine, dominant: Color) -> (r: Run)
        requires
            line_fits(*line),
            -READABLE <= self.baseline <= READABLE,
            -READABLE <= self.style.size <= READABLE,
        ensures
            r@ == run_of_piece(*self, *line, dominant),
    {
        let base: Points = if line.dominant_size > POINT {
            line.dominant_size
        } else {
            POINT
        };
        let offset: Points = self.baseline - line.baseline;
        let away: Points = if offset >= 0 {
            offset
        } else {
            -offset
        };
        let script = if 100 * self.style.size < 85 * base && 100 * away > 4 * base {
            if offset > 0 {
                Script::Superscript
            } else {
                Script::Subscript
            }
        } else {
            Script::Baseline
        };
        let size: Points = if script == Script::Baseline {
            self.style.size
        } else {
            base
        };
        let color = if self.style.color != dominant {
            Some(self.style.color)
        } else {
            None
        };
        let mut style = RunStyle::from_document(self.style.family.as_str(), size, color);
        style.document_script = script;
        style.bold = self.style.bold;
        style.italic = self.style.italic;
        style.document_bold = self.style.bold;
        style.document_italic = self.style.italic;
        Run { text: self.text.clone(), style }
    }
}

/// The text of a block, every piece with the look that it has in the document.
pub fn model_from_block(block: &Block, dominant: Color) -> (r: RichText)
    requires
        block_fits(*block, dominant),
    ensures
        r.wf(),
        r@.cells() == cells_of(block_runs(block.lines@, dominant)),
        r@.caret == byte_len(r@.text()),
        r@.anchor == byte_len(r@.text()),
        r@.pending is None,
{
    let ghost lines = block.lines@;
    let mut runs: Vec<Run> = Vec::new();
    let mut i: usize = 0;
    assert(lines.take(0) == Seq::<BlockLine>::empty());
    while i < block.lines.len()
        invariant
            i <= lines.len(),
            lines == block.lines@,
            forall|k: int| 0 <= k < lines.len() ==> line_fits(#[trigger] lines[k]),
            run_views(runs@) == block_runs(lines.take(i as int), dominant),
        decreases lines.len() - i,
    {
        assert(lines.take(i + 1).drop_last() == lines.take(i as int));
        assert(lines.take(i + 1).last() == lines[i as int]);
        let line = &block.lines[i];
        assert(line_fits(lines[i as int]));
        let ghost before = run_views(runs@);
        if runs.len() > 0 {
            let mut last = runs.pop().unwrap();
            assert(run_views(runs@) == before.drop_last());
            assert(last@ == before.last());
            last.text = sew(&last.text);
            runs.push(last);
        }
        assert(run_views(runs@) == seamed(before));
        let ghost sewn = run_views(runs@);
        let mut j: usize = 0;
        while j < line.runs.len()
            invariant
                j <= line.runs@.len(),
                line_fits(*line),
                run_views(runs@) == sewn + line_runs(*line, dominant).take(j as int),
            decreases line.runs@.len() - j,
        {
            let ghost so_far = run_views(runs@);
            let run = line.runs[j].to_run(line, dominant);
            runs.push(run);
            assert(run_views(runs@) == so_far.push(run@));
            assert(line_runs(*line, dominant).take(j + 1) == line_runs(*line, dominant).take(
                j as int,
            ).push(run@));
            assert(run_views(runs@) == sewn + line_runs(*line, dominant).take(j + 1));
            j = j + 1;
        }
        assert(line_runs(*line, dominant).take(j as int) == line_runs(*line, dominant));
        i = i + 1;
    }
    assert(lines.take(lines.len() as int) == lines);
    RichText::from_runs(runs)
}

/// The texts of the pieces of a line, one after another.
pub open spec fn texts_of(pieces: Seq<BlockRun>) -> Seq<char>
    decreases pieces.len(),
{
    if pieces.len() == 0 {
        Seq::empty()
    } else {
        texts_of(pieces.drop_last()) + pieces.last().text@
    }
}

/// The text of a line is read as it stands.
proof fn lemma_line_text(line: BlockLine, dominant: Color, count: int)
    requires
        0 <= count <= line.runs@.len(),
    ensures
        chars_of(cells_of(line_runs(line, dominant).take(count))) == texts_of(
            line.runs@.take(count),
        ),
    decreases count,
{
    let runs = line_runs(line, dominant);
    let pieces = line.runs@;
    if count > 0 {
        lemma_line_text(line, dominant, count - 1);
        assert(runs.take(count).drop_last() == runs.take(count - 1));
        assert(pieces.take(count).drop_last() == pieces.take(count - 1));
        let last = runs[count - 1];
        lemma_chars_add(cells_of(runs.take(count - 1)), styled(last.text, last.style));
        lemma_chars_styled(last.text, last.style);
    } else {
        assert(runs.take(0) == Seq::<RunView>::empty());
        assert(pieces.take(0) == Seq::<BlockRun>::empty());
    }
}

/// The text of all lines of a block, with one line more.
proof fn lemma_next_line(lines: Seq<BlockLine>, next: BlockLine, dominant: Color)
    ensures
        block_runs(lines.push(next), dominant) == seamed(block_runs(lines, dominant)) + line_runs(
            next,
            dominant,
        ),
        chars_of(cells_of(block_runs(lines.push(next), dominant))) == chars_of(
            cells_of(seamed(block_runs(lines, dominant))),
        ) + texts_of(next.runs@),
{
    assert(lines.push(next).drop_last() == lines);
    let before = seamed(block_runs(lines, dominant));
    let added = line_runs(next, dominant);
    lemma_cells_add(before, added);
    lemma_chars_add(cells_of(before), cells_of(added));
    lemma_line_text(next, dominant, next.runs@.len() as int);
    assert(added.take(next.runs@.len() as int) == added);
    assert(next.runs@.take(next.runs@.len() as int) == next.runs@);
}

/// The last run of a block is the last piece of its last line.
proof fn lemma_last_run(lines: Seq<BlockLine>, dominant: Color)
    requires
        lines.len() > 0,
        lines.last().runs@.len() > 0,
    ensures
        block_runs(lines, dominant).len() > 0,
        block_runs(lines, dominant).last().text == lines.last().runs@.last().text@,
{
    let added = line_runs(lines.last(), dominant);
    assert(block_runs(lines, dominant).last() == added.last());
}

/// More lines never leave fewer runs.
proof fn lemma_runs_stay(head: Seq<BlockLine>, lines: Seq<BlockLine>, dominant: Color)
    requires
        head.len() <= lines.len(),
        head == lines.take(head.len() as int),
    ensures
        block_runs(head, dominant).len() <= block_runs(lines, dominant).len(),
    decreases lines.len(),
{
    if head.len() == lines.len() {
        assert(head == lines);
    } else {
        assert(lines.drop_last().take(head.len() as int) == head);
        lemma_runs_stay(head, lines.drop_last(), dominant);
    }
}

/// The text of a block whose last line has pieces, with one line more: a hyphen
/// at the end of the line goes, for it cut a word in two; else the lines are
/// parted by a space.
pub proof fn lines_are_sewn_together(lines: Seq<BlockLine>, next: BlockLine, dominant: Color)
    requires
        lines.len() > 0,
        lines.last().runs@.len() > 0,
    ensures
        ({
            let text = chars_of(cells_of(block_runs(lines, dominant)));
            let sewn = chars_of(cells_of(block_runs(lines.push(next), dominant)));
            let end = lines.last().runs@.last().text@;
            if end.len() > 0 && end.last() == '-' {
                text.len() > 0 && text.last() == '-' && sewn == text.drop_last() + texts_of(
                    next.runs@,
                )
            } else {
                sewn == text + seq![' '] + texts_of(next.runs@)
            }
        }),
{
    lemma_next_line(lines, next, dominant);
    lemma_last_run(lines, dominant);
    let runs = block_runs(lines, dominant);
    let last = runs.last();
    assert(lines.last() == lines[lines.len() - 1]);
    lemma_seamed_text(runs);
    let head = runs.drop_last();
    assert(runs == head.push(last));
    lemma_cells_push(head, last);
    lemma_chars_add(cells_of(head), styled(last.text, last.style));
    lemma_chars_styled(last.text, last.style);
    let text = chars_of(cells_of(runs));
    if last.text.len() > 0 && last.text.last() == '-' {
        assert(text.last() == last.text.last());
    }
}

/// What a seam does to the text.
proof fn lemma_seamed_text(runs: Seq<RunView>)
    requires
        runs.len() > 0,
    ensures
        ({
            let text = chars_of(cells_of(runs));
            let last = runs.last().text;
            chars_of(cells_of(seamed(runs))) == if last.len() > 0 && last.last() == '-' {
                text.drop_last()
            } else {
                text + seq![' ']
            }
        }),
{
    let head = runs.drop_last();
    let last = runs.last();
    let after = RunView { text: seam(last.text), ..last };
    assert(runs == head.push(last));
    lemma_cells_push(head, last);
    lemma_cells_push(head, after);
    lemma_chars_add(cells_of(head), styled(last.text, last.style));
    lemma_chars_add(cells_of(head), styled(after.text, after.style));
    lemma_chars_styled(last.text, last.style);
    lemma_chars_styled(after.text, after.style);
    let before = chars_of(cells_of(head));
    if last.text.len() > 0 && last.text.last() == '-' {
        assert(before + last.text.drop_last() == (before + last.text).drop_last());
    } else {
        assert(before + last.text.push(' ') == before + last.text + seq![' ']);
    }
}

/// A line without pieces parts nothing on its own: behind it the text gets the
/// space of a line, but for a hyphen, and the first pieces of a block get none
/// before them.
pub proof fn empty_lines_are_sewn_too(lines: Seq<BlockLine>, next: BlockLine, dominant: Color)
    ensures
        ({
            let text = chars_of(cells_of(block_runs(lines, dominant)));
            let sewn = chars_of(cells_of(block_runs(lines.push(next), dominant)));
            let pieces = exists|k: int| 0 <= k < lines.len() && (#[trigger] lines[k]).runs@.len()
                > 0;
            &&& !pieces ==> sewn == texts_of(next.runs@)
            &&& pieces && !(text.len() > 0 && text.last() == '-') ==> sewn == text + seq![' ']
                + texts_of(next.runs@)
            &&& pieces ==> sewn == text + seq![' '] + texts_of(next.runs@) || sewn
                == text.drop_last() + texts_of(next.runs@)
        }),
{
    lemma_next_line(lines, next, dominant);
    let runs = block_runs(lines, dominant);
    if exists|k: int| 0 <= k < lines.len() && (#[trigger] lines[k]).runs@.len() > 0 {
        let k = choose|k: int| 0 <= k < lines.len() && (#[trigger] lines[k]).runs@.len() > 0;
        lemma_runs_stay(lines.take(k + 1), lines, dominant);
        assert(lines.take(k + 1).last() == lines[k]);
        assert(line_runs(lines[k], dominant).len() > 0);
        assert(runs.len() > 0);
        lemma_seamed_text(runs);
        let head = runs.drop_last();
        let last = runs.last();
        assert(runs == head.push(last));
        lemma_cells_push(head, last);
        lemma_chars_add(cells_of(head), styled(last.text, last.style));
        lemma_chars_styled(last.text, last.style);
        let text = chars_of(cells_of(runs));
        if last.text.len() > 0 && last.text.last() == '-' {
            assert(text.last() == last.text.last());
        }
    } else {
        lemma_no_runs(lines, dominant);
        assert(chars_of(cells_of(seamed(runs))) == Seq::<char>::empty());
    }
}

proof fn lemma_no_runs(lines: Seq<BlockLine>, dominant: Color)
    requires
        forall|k: int| 0 <= k < lines.len() ==> (#[trigger] lines[k]).runs@.len() == 0,
    ensures
        block_runs(lines, dominant) == Seq::<RunView>::empty(),
    decreases lines.len(),
{
    if lines.len() > 0 {
        let head = lines.drop_last();
        assert forall|k: int| 0 <= k < head.len() implies (#[trigger] head[k]).runs@.len() == 0 by {
            assert(head[k] == lines[k]);
        }
        lemma_no_runs(head, dominant);
        assert(lines.last() == lines[lines.len() - 1]);
        assert(line_runs(lines.last(), dominant) == Seq::<RunView>::empty());
    }
}

/// The text of a block of two lines is the text of the first, a space and the
/// text of the second; where the first ends in a hyphen, the two are joined in
/// its place.
pub proof fn two_lines_are_parted_by_a_space(a: BlockLine, b: BlockLine, dominant: Color)
    requires
        a.runs@.len() > 0,
        a.runs@.last().text@.len() > 0,
    ensures
        ({
            let text = chars_of(cells_of(block_runs(seq![a, b], dominant)));
            let first = texts_of(a.runs@);
            let second = texts_of(b.runs@);
            &&& first.last() != '-' ==> text == first + seq![' '] + second
            &&& first.last() == '-' ==> text == first.drop_last() + second
        }),
{
    let none = Seq::<BlockLine>::empty();
    empty_lines_are_sewn_too(none, a, dominant);
    assert(none.push(a) == seq![a]);
    lines_are_sewn_together(seq![a], b, dominant);
    assert(seq![a].push(b) == seq![a, b]);
    assert(texts_of(a.runs@).last() == a.runs@.last().text@.last());
}

/// Reading a block changes nothing of it: no run is given a family, a size, a
/// colour, an underline or a script, and none another weight or slant than it has
/// in the document.
pub proof fn reading_a_block_edits_nothing(lines: Seq<BlockLine>, dominant: Color, i: int)
    requires
        0 <= i < block_runs(lines, dominant).len(),
    ensures
        ({
            let style = block_runs(lines, dominant)[i].style;
            &&& style.family is None
            &&& style.size is None
            &&& style.color is None
            &&& !style.underline
            &&& style.script == Script::Baseline
            &&& style.bold == style.document_bold
            &&& style.italic == style.document_italic
            &&& style.document_family is Some
            &&& style.document_size is Some
        }),
    decreases lines.len(),
{
    let head = lines.drop_last();
    let before = block_runs(head, dominant);
    let sewn = seamed(before);
    if i < sewn.len() {
        reading_a_block_edits_nothing(head, dominant, i);
        assert(sewn[i].style == before[i].style);
    }
}

/// The pieces of a line are read one by one, in their order and behind those of
/// the lines before, each with its text and with the look that it has in the
/// document: family, weight, slant, and the colour where it is not the block's.
/// A piece that is smaller than the line and off its baseline is an index, set at
/// the size of the line.
pub proof fn a_piece_is_read_with_its_look(
    lines: Seq<BlockLine>,
    next: BlockLine,
    dominant: Color,
    i: int,
)
    requires
        0 <= i < next.runs@.len(),
        line_fits(next),
    ensures
        ({
            let all = block_runs(lines.push(next), dominant);
            let run = all[all.len() - next.runs@.len() + i];
            let piece = next.runs@[i];
            let size = if next.dominant_size > POINT {
                next.dominant_size
            } else {
                POINT
            };
            let small = 100 * piece.style.size < 85 * size;
            let above = 100 * (piece.baseline - next.baseline) > 4 * size;
            let below = 100 * (next.baseline - piece.baseline) > 4 * size;
            &&& all.len() >= next.runs@.len()
            &&& run.text == piece.text@
            &&& run.style.bold == piece.style.bold
            &&& run.style.italic == piece.style.italic
            &&& run.style.document_family == Some(piece.style.family@)
            &&& piece.style.color == dominant ==> run.style.document_color is None
            &&& piece.style.color != dominant ==> run.style.document_color == Some(
                piece.style.color,
            )
            &&& small && above ==> run.style.document_script == Script::Superscript
            &&& small && below ==> run.style.document_script == Script::Subscript
            &&& !(small && (above || below)) ==> run.style.document_script == Script::Baseline
            &&& run.style.document_script == Script::Baseline ==> run.style.document_size == Some(
                piece.style.size,
            )
            &&& run.style.document_script != Script::Baseline ==> run.style.document_size == Some(
                size,
            )
        }),
{
    lemma_next_line(lines, next, dominant);
}

/// The colour that all runs were given, if they were all given the same.
pub open spec fn one_color(runs: Seq<RunView>) -> Option<Color> {
    if runs.len() > 0 && runs[0].style.color is Some && forall|i: int|
        0 <= i < runs.len() ==> (#[trigger] runs[i]).style.color == runs[0].style.color {
        runs[0].style.color
    } else {
        None
    }
}

/// The colour of the whole text, where one was given to all of it.
///
/// Moving a block recolours all of it or nothing, so a text of several colours
/// is left as it is.
pub fn single_color(text: &RichText) -> (r: Option<Color>)
    ensures
        r == one_color(text@.runs),
{
    let runs = text.runs();
    let ghost views = run_views(runs@);
    if runs.len() == 0 {
        return None;
    }
    let first = runs[0].style.color;
    if first.is_none() {
        assert(views[0].style.color is None);
        return None;
    }
    let mut i: usize = 1;
    while i < runs.len()
        invariant
            1 <= i <= runs@.len(),
            views == run_views(runs@),
            views == text@.runs,
            first == views[0].style.color,
            forall|k: int| 0 <= k < i ==> (#[trigger] views[k]).style.color == first,
        decreases runs@.len() - i,
    {
        if !same_color(runs[i].style.color, first) {
            assert(views[i as int].style.color != first);
            return None;
        }
        assert(views[i as int].style.color == first);
        i = i + 1;
    }
    first
}

/// The distance between neighbouring single-precision numbers around `tenths`
/// tenths of a point, at least `unit`.
pub open spec fn spacing(tenths: int, unit: int) -> int
    decreases tenths - unit,
{
    if tenths < 10 * unit || unit <= 0 {
        unit
    } else {
        spacing(tenths, 2 * unit)
    }
}

/// The single-precision number nearest to so many tenths of a point.
pub open spec fn tenths_as_points(tenths: int) -> int {
    let unit = spacing(tenths, 1);
    nearest_whole(tenths * POINT, 10 * unit) * unit
}

/// A size as it is read back from a field that shows it with one decimal.
pub open spec fn shown_size(size: Points) -> int {
    if size < 0 {
        -tenths_as_points(rounded(size, 1))
    } else {
        tenths_as_points(rounded(size, 1))
    }
}

/// How far numbers are apart is a tenth of a number or less.
proof fn lemma_spacing(tenths: int, unit: int)
    requires
        0 <= tenths,
        1 <= unit,
    ensures
        unit <= spacing(tenths, unit),
        tenths < 10 * spacing(tenths, unit),
        spacing(tenths, unit) == unit || 5 * spacing(tenths, unit) <= tenths,
    decreases tenths - unit,
{
    if tenths >= 10 * unit {
        lemma_spacing(tenths, 2 * unit);
    }
}

/// A size is shown with one decimal: it keeps its sign and is read back off by no
/// more than half of a tenth, and what a single-precision number loses.
pub proof fn a_size_is_shown_to_the_tenth(size: Points)
    requires
        -READABLE <= size <= READABLE,
    ensures
        size >= 0 ==> shown_size(size) >= 0,
        size <= 0 ==> shown_size(size) <= 0,
        ({
            let off = 10 * (shown_size(size) - size);
            let lost = 5 + rounded(size, 1);
            &&& -(POINT / 2) - lost <= off <= POINT / 2 + lost
            &&& 2 * (rounded(size, 1) * POINT) <= 20 * crate::numerals::magnitude(size) + POINT
            &&& 2 * (rounded(size, 1) * POINT) >= 20 * crate::numerals::magnitude(size) - POINT
        }),
{
    reveal_with_fuel(crate::numerals::power_of_ten, 2);
    let m = crate::numerals::magnitude(size);
    let tenths = rounded(size, 1);
    assert(tenths == nearest_whole(m * 10, POINT as int));
    let unit = spacing(tenths, 1);
    lemma_spacing(tenths, 1);
    let n = tenths * POINT;
    let d = 10 * unit;
    let near = nearest_whole(n, d);
    vstd::arithmetic::div_mod::lemma_fundamental_div_mod(n, d);
    assert(n % d < d);
    let q = n / d;
    assert(0 <= q) by (nonlinear_arith)
        requires
            q == n / d,
            n >= 0,
            d > 0,
    ;
    assert(q * d == d * q && (q + 1) * d == q * d + d) by (nonlinear_arith);
    assert(near == q || near == q + 1);
    assert(2 * (near * d - n) <= d && 2 * (n - near * d) <= d);
    assert(near * d == 10 * (near * unit)) by (nonlinear_arith)
        requires
            d == 10 * unit,
    ;
    assert(0 <= near * unit) by (nonlinear_arith)
        requires
            0 <= near,
            1 <= unit,
    ;
    assert(tenths_as_points(tenths) == near * unit);
}

/// A size in the form in which the field of the panel shows it.
///
/// The field shows one decimal, so a size of 20.56 reads back as 20.6. What was
/// typed can only be told from what was shown by comparing with this.
pub fn seeded_size(size: Points) -> (r: Points)
    requires
        -READABLE <= size <= READABLE,
    ensures
        r == shown_size(size),
{
    let tenths: u64 = in_places(size, 1);
    proof {
        let m = if size < 0 { -size } else { size as int };
        assert(crate::numerals::power_of_ten(1) == 10) by {
            reveal_with_fuel(crate::numerals::power_of_ten, 2);
        }
        assert(tenths <= 10 * 0x1000_0000 + 1);
    }
    let mut unit: u64 = 1;
    while tenths >= 10 * unit
        invariant
            1 <= unit <= 0x2000_0000,
            tenths <= 10 * 0x1000_0000 + 1,
            spacing(tenths as int, 1) == spacing(tenths as int, unit as int),
        decreases tenths - unit,
    {
        unit = 2 * unit;
    }
    let n: u128 = (tenths as u128) * 0x100_0000;
    let d: u128 = 10 * (unit as u128);
    let q: u128 = n / d;
    let rest: u128 = n % d;
    let near: u128 = if 2 * rest < d {
        q
    } else if 2 * rest > d {
        q + 1
    } else {
        q + q % 2
    };
    proof {
        assert(q <= 0x100_0000) by (nonlinear_arith)
            requires
                q == n / d,
                n == tenths * 0x100_0000,
                d == 10 * unit,
                tenths < 10 * unit,
                unit > 0,
        ;
        assert(near * unit <= 0x100_0001 * 0x2000_0000) by (nonlinear_arith)
            requires
                near <= 0x100_0001,
                unit <= 0x2000_0000,
        ;
    }
    let value: u128 = near * (unit as u128);
    if size < 0 {
        -(value as i64)
    } else {
        value as i64
    }
}

/// What the panel calls an alignment.
pub open spec fn align_name(align: Align) -> Seq<char> {
    match align {
        Align::Left => "по левому краю"@,
        Align::Center => "по центру"@,
        Align::Right => "по правому краю"@,
        Align::Justify => "по формату"@,
    }
}

/// What the panel calls an alignment.
pub fn align_label(align: Align) -> (r: &'static str)
    ensures
        r@ == align_name(align),
{
    match align {
        Align::Left => "по левому краю",
        Align::Center => "по центру",
        Align::Right => "по правому краю",
        Align::Justify => "по формату",
    }
}

} // verus!
