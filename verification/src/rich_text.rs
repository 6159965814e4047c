//! Text with a style of its own on every piece, a caret and a selection.
//!
//! The text is a list of runs. Offsets are byte offsets, as usual for `str`,
//! and always lie between two characters: a caret between the bytes of one
//! letter would cut the letter in two.
use crate::chars::{
    byte_len, byte_len_of_concatenation, byte_offset, chars_before, chars_of_str, count_before,
    is_white_space, lemma_chars_before, lemma_offset_ends, lemma_offset_grows, lemma_offset_step,
    offset_of, offset_round_trip, on_boundary, str_bytes, white_space,
};
use crate::document::{
    copy_text, opt_chars, plain_request, read_spans, same_text, span_views, FontRequest,
    FontRequestView, Script, SpanView, StyledSpan,
};
use crate::units::{Color, Points};
use vstd::prelude::*;

verus! {

/// The style of a piece of text.
///
/// No family, size or colour means "as the paragraph has it".
#[derive(Debug)]
pub struct RunStyle {
    pub family: Option<String>,
    pub size: Option<Points>,
    pub color: Option<Color>,
    pub bold: bool,
    pub italic: bool,
    pub underline: bool,
    pub script: Script,
    /// Family, size and colour that the piece has in the document itself. They
    /// are no edit: the fields above always win over them.
    pub document_family: Option<String>,
    pub document_size: Option<Points>,
    pub document_color: Option<Color>,
    pub document_script: Script,
    /// Weight and slant in the document: only a difference from them is an
    /// edit.
    pub document_bold: bool,
    pub document_italic: bool,
}

/// What a [`RunStyle`] says.
#[verifier::ext_equal]
pub struct StyleView {
    pub family: Option<Seq<char>>,
    pub size: Option<Points>,
    pub color: Option<Color>,
    pub bold: bool,
    pub italic: bool,
    pub underline: bool,
    pub script: Script,
    pub document_family: Option<Seq<char>>,
    pub document_size: Option<Points>,
    pub document_color: Option<Color>,
    pub document_script: Script,
    pub document_bold: bool,
    pub document_italic: bool,
}

impl View for RunStyle {
    type V = StyleView;

    open spec fn view(&self) -> StyleView {
        StyleView {
            family: opt_chars(self.family),
            size: self.size,
            color: self.color,
            bold: self.bold,
            italic: self.italic,
            underline: self.underline,
            script: self.script,
            document_family: opt_chars(self.document_family),
            document_size: self.document_size,
            document_color: self.document_color,
            document_script: self.document_script,
            document_bold: self.document_bold,
            document_italic: self.document_italic,
        }
    }
}

/// The style that changes nothing.
pub open spec fn plain_style() -> StyleView {
    StyleView {
        family: None,
        size: None,
        color: None,
        bold: false,
        italic: false,
        underline: false,
        script: Script::Baseline,
        document_family: None,
        document_size: None,
        document_color: None,
        document_script: Script::Baseline,
        document_bold: false,
        document_italic: false,
    }
}

impl StyleView {
    /// Whether the letters stay as they are set: everything but the colour
    /// needs the line to be laid out anew.
    pub open spec fn keeps_typesetting(self) -> bool {
        &&& self.family is None
        &&& self.size is None
        &&& self.bold == self.document_bold
        &&& self.italic == self.document_italic
        &&& !self.underline
        &&& self.script == Script::Baseline
    }
}

impl Default for RunStyle {
    fn default() -> (r: RunStyle)
        ensures
            r@ == plain_style(),
    {
        RunStyle {
            family: None,
            size: None,
            color: None,
            bold: false,
            italic: false,
            underline: false,
            script: Script::Baseline,
            document_family: None,
            document_size: None,
            document_color: None,
            document_script: Script::Baseline,
            document_bold: false,
            document_italic: false,
        }
    }
}

impl Clone for RunStyle {
    fn clone(&self) -> (r: RunStyle)
        ensures
            r == *self,
    {
        RunStyle {
            family: copy_text(&self.family),
            size: self.size,
            color: self.color,
            bold: self.bold,
            italic: self.italic,
            underline: self.underline,
            script: self.script,
            document_family: copy_text(&self.document_family),
            document_size: self.document_size,
            document_color: self.document_color,
            document_script: self.document_script,
            document_bold: self.document_bold,
            document_italic: self.document_italic,
        }
    }
}

impl PartialEq for RunStyle {
    fn eq(&self, other: &RunStyle) -> (r: bool) {
        self.same_as(other)
    }
}

impl vstd::std_specs::cmp::PartialEqSpecImpl for RunStyle {
    open spec fn obeys_eq_spec() -> bool {
        true
    }

    open spec fn eq_spec(&self, other: &RunStyle) -> bool {
        self@ == other@
    }
}

impl RunStyle {
    /// Whether two styles say the same.
    pub fn same_as(&self, other: &RunStyle) -> (r: bool)
        ensures
            r == (self@ == other@),
    {
        same_text(&self.family, &other.family) && same_points(self.size, other.size) && same_color(
            self.color,
            other.color,
        ) && self.bold == other.bold && self.italic == other.italic && self.underline
            == other.underline && self.script == other.script && same_text(
            &self.document_family,
            &other.document_family,
        ) && same_points(self.document_size, other.document_size) && same_color(
            self.document_color,
            other.document_color,
        ) && self.document_script == other.document_script && self.document_bold
            == other.document_bold && self.document_italic == other.document_italic
    }

    /// Whether this style leaves the text set as it is.
    ///
    /// The colour does not count: text can be recoloured without touching a
    /// letter.
    pub fn keeps_typesetting(&self) -> (r: bool)
        ensures
            r == self@.keeps_typesetting(),
    {
        self.family.is_none() && self.size.is_none() && self.bold == self.document_bold
            && self.italic == self.document_italic && !self.underline && self.script
            == Script::Baseline
    }

    /// The style of a piece as it stands in the document.
    pub fn from_document(family: &str, size: Points, color: Option<Color>) -> (r: RunStyle)
        ensures
            r@ == (StyleView {
                document_family: Some(family@),
                document_size: Some(size),
                document_color: color,
                ..plain_style()
            }),
    {
        RunStyle {
            family: None,
            size: None,
            color: None,
            bold: false,
            italic: false,
            underline: false,
            script: Script::Baseline,
            document_family: Some(family.to_owned()),
            document_size: Some(size),
            document_color: color,
            document_script: Script::Baseline,
            document_bold: false,
            document_italic: false,
        }
    }
}

/// Whether two optional lengths are the same.
pub fn same_points(a: Option<Points>, b: Option<Points>) -> (r: bool)
    ensures
        r == (a == b),
{
    match (a, b) {
        (Some(x), Some(y)) => x == y,
        (None, None) => true,
        _ => false,
    }
}

/// Whether two optional colours are the same.
pub fn same_color(a: Option<Color>, b: Option<Color>) -> (r: bool)
    ensures
        r == (a == b),
{
    match (a, b) {
        (Some(x), Some(y)) => x == y,
        (None, None) => true,
        _ => false,
    }
}

/// A piece of text in one style.
#[derive(Debug)]
pub struct Run {
    pub text: String,
    pub style: RunStyle,
}

/// What a [`Run`] says.
#[verifier::ext_equal]
pub struct RunView {
    pub text: Seq<char>,
    pub style: StyleView,
}

impl View for Run {
    type V = RunView;

    open spec fn view(&self) -> RunView {
        RunView { text: self.text@, style: self.style@ }
    }
}

impl Clone for Run {
    fn clone(&self) -> (r: Run)
        ensures
            r == *self,
    {
        Run { text: self.text.clone(), style: self.style.clone() }
    }
}

/// What a list of runs says.
pub open spec fn run_views(runs: Seq<Run>) -> Seq<RunView> {
    Seq::new(runs.len(), |i: int| runs[i]@)
}

/// A character with its style.
pub type Cell = (char, StyleView);

/// A text all in one style.
pub open spec fn styled(text: Seq<char>, style: StyleView) -> Seq<Cell> {
    Seq::new(text.len(), |i: int| (text[i], style))
}

/// The characters of a list of runs, each with its style.
pub open spec fn cells_of(runs: Seq<RunView>) -> Seq<Cell>
    decreases runs.len(),
{
    if runs.len() == 0 {
        Seq::empty()
    } else {
        cells_of(runs.drop_last()) + styled(runs.last().text, runs.last().style)
    }
}

/// The bare characters.
pub open spec fn chars_of(cells: Seq<Cell>) -> Seq<char> {
    Seq::new(cells.len(), |i: int| cells[i].0)
}

/// No run is empty and no two neighbours have the same style.
pub open spec fn tidy(runs: Seq<RunView>) -> bool {
    &&& forall|i: int| 0 <= i < runs.len() ==> (#[trigger] runs[i]).text.len() > 0
    &&& forall|i: int, j: int|
        0 <= i && j == i + 1 && j < runs.len() ==> (#[trigger] runs[i]).style != (
        #[trigger] runs[j]).style
}

/// Where to move the caret.
#[derive(Clone, Copy, Debug, PartialEq, Eq, Structural)]
pub enum Movement {
    Left,
    Right,
    WordLeft,
    WordRight,
    Start,
    End,
}

/// Where a walk to the left from character `k` stops, over characters that are
/// blank or that are not.
pub open spec fn skip_back(text: Seq<char>, k: int, blank: bool) -> int
    decreases k,
{
    if 0 < k <= text.len() && white_space(text[k - 1]) == blank {
        skip_back(text, k - 1, blank)
    } else {
        k
    }
}

/// Where a walk to the right from character `k` stops.
pub open spec fn skip_ahead(text: Seq<char>, k: int, blank: bool) -> int
    decreases text.len() - k,
{
    if 0 <= k < text.len() && white_space(text[k]) == blank {
        skip_ahead(text, k + 1, blank)
    } else {
        k
    }
}

/// The character that a movement leads to from character `k`.
pub open spec fn moved_index(text: Seq<char>, k: int, movement: Movement) -> int {
    match movement {
        Movement::Left => if k > 0 {
            k - 1
        } else {
            0
        },
        Movement::Right => if k < text.len() {
            k + 1
        } else {
            k
        },
        Movement::WordLeft => skip_back(text, skip_back(text, k, true), false),
        Movement::WordRight => skip_ahead(text, skip_ahead(text, k, true), false),
        Movement::Start => 0,
        Movement::End => text.len() as int,
    }
}

/// What a [`RichText`] holds.
#[verifier::ext_equal]
pub struct TextView {
    pub runs: Seq<RunView>,
    pub caret: int,
    /// The other end of the selection; the caret itself where there is none.
    pub anchor: int,
    /// The style that a button chose for what is typed next.
    pub pending: Option<StyleView>,
}

impl TextView {
    pub open spec fn cells(self) -> Seq<Cell> {
        cells_of(self.runs)
    }

    pub open spec fn text(self) -> Seq<char> {
        chars_of(self.cells())
    }

    /// The runs are tidy, the text can be measured, and the caret and the
    /// anchor stand between characters.
    pub open spec fn valid(self) -> bool {
        &&& tidy(self.runs)
        &&& byte_len(self.text()) <= usize::MAX
        &&& 0 <= self.caret <= byte_len(self.text())
        &&& 0 <= self.anchor <= byte_len(self.text())
        &&& on_boundary(self.text(), self.caret)
        &&& on_boundary(self.text(), self.anchor)
    }

    pub open spec fn start(self) -> int {
        if self.caret <= self.anchor {
            self.caret
        } else {
            self.anchor
        }
    }

    pub open spec fn end(self) -> int {
        if self.caret <= self.anchor {
            self.anchor
        } else {
            self.caret
        }
    }

    /// The index of the character at a byte offset.
    pub open spec fn index(self, offset: int) -> int {
        chars_before(self.text(), offset)
    }

    /// The nearest place for the caret at or before a byte offset.
    pub open spec fn settled(self, offset: int) -> int {
        offset_of(self.text(), self.index(offset)) as int
    }

    /// The style of what is typed at the caret: the one that was chosen, or
    /// the one to the left of the caret.
    pub open spec fn typing_style(self) -> StyleView {
        match self.pending {
            Some(style) => style,
            None => if self.index(self.caret) > 0 {
                self.cells()[self.index(self.caret) - 1].1
            } else {
                plain_style()
            },
        }
    }

    /// What is left when the selected characters are replaced.
    pub open spec fn replaced(self, middle: Seq<Cell>) -> Seq<Cell> {
        self.cells().take(self.index(self.start())) + middle + self.cells().skip(
            self.index(self.end()),
        )
    }

    /// The style for typing survives only while the caret stays in place.
    pub open spec fn pending_at(self, caret: int) -> Option<StyleView> {
        if caret == self.caret {
            self.pending
        } else {
            None
        }
    }
}

/// The cells of runs with one more.
pub(crate) proof fn lemma_cells_push(runs: Seq<RunView>, run: RunView)
    ensures
        cells_of(runs.push(run)) == cells_of(runs) + styled(run.text, run.style),
{
    assert(runs.push(run).drop_last() == runs);
}

/// The cells of two lists of runs in a row.
pub(crate) proof fn lemma_cells_add(a: Seq<RunView>, b: Seq<RunView>)
    ensures
        cells_of(a + b) == cells_of(a) + cells_of(b),
    decreases b.len(),
{
    if b.len() == 0 {
        assert(a + b == a);
    } else {
        lemma_cells_add(a, b.drop_last());
        assert((a + b).drop_last() == a + b.drop_last());
        assert((a + b).last() == b.last());
    }
}

/// The bare characters of two pieces in a row.
pub(crate) proof fn lemma_chars_add(a: Seq<Cell>, b: Seq<Cell>)
    ensures
        chars_of(a + b) == chars_of(a) + chars_of(b),
{
}

/// The bare characters of a styled text are the text.
pub(crate) proof fn lemma_chars_styled(text: Seq<char>, style: StyleView)
    ensures
        chars_of(styled(text, style)) == text,
{
}

/// Adds a piece of text to a tidy list of runs, to the last run where it has
/// the same style.
fn push_piece(out: &mut Vec<Run>, text: &str, style: &RunStyle)
    requires
        tidy(run_views(old(out)@)),
    ensures
        tidy(run_views(final(out)@)),
        cells_of(run_views(final(out)@)) == cells_of(run_views(old(out)@)) + styled(text@, style@),
{
    if text.is_empty() {
        assert(styled(text@, style@) == Seq::<Cell>::empty());
        return;
    }
    let ghost before = run_views(out@);
    let n: usize = out.len();
    if n > 0 && out[n - 1].style.same_as(style) {
        let ghost last = before.last();
        let mut run = out.pop().unwrap();
        assert(run_views(out@) == before.drop_last());
        run.text.append(text);
        out.push(run);
        let ghost joined = RunView { text: last.text + text@, style: last.style };
        assert(run_views(out@) == before.drop_last().push(joined));
        proof {
            lemma_cells_push(before.drop_last(), joined);
            assert(styled(last.text + text@, last.style) == styled(last.text, last.style) + styled(
                text@,
                style@,
            ));
        }
    } else {
        out.push(Run { text: text.to_owned(), style: style.clone() });
        let ghost added = RunView { text: text@, style: style@ };
        assert(run_views(out@) == before.push(added));
        proof {
            lemma_cells_push(before, added);
        }
    }
}

/// The cells of the first runs are the first cells.
proof fn lemma_cells_take(runs: Seq<RunView>, k: int)
    requires
        0 <= k <= runs.len(),
    ensures
        cells_of(runs.take(k)).len() <= cells_of(runs).len(),
        cells_of(runs.take(k)) == cells_of(runs).take(cells_of(runs.take(k)).len() as int),
    decreases runs.len(),
{
    if k == runs.len() {
        assert(runs.take(k) == runs);
    } else {
        let head = runs.drop_last();
        lemma_cells_take(head, k);
        assert(head.take(k) == runs.take(k));
        assert(cells_of(runs).take(cells_of(head).len() as int) == cells_of(head));
    }
}

/// Adds the characters `from..to` of the runs to a tidy list.
fn push_cells(out: &mut Vec<Run>, runs: &Vec<Run>, from: usize, to: usize)
    requires
        tidy(run_views(old(out)@)),
        from <= to <= cells_of(run_views(runs@)).len() <= usize::MAX,
    ensures
        tidy(run_views(final(out)@)),
        cells_of(run_views(final(out)@)) == cells_of(run_views(old(out)@)) + cells_of(
            run_views(runs@),
        ).subrange(from as int, to as int),
{
    let ghost views = run_views(runs@);
    let ghost all = cells_of(views);
    let mut at: usize = 0;
    let mut i: usize = 0;
    assert(views.take(0) == Seq::<RunView>::empty());
    assert(all.subrange(from as int, from as int) == Seq::<Cell>::empty());
    while i < runs.len()
        invariant
            i <= runs@.len(),
            views == run_views(runs@),
            all == cells_of(views),
            from <= to <= all.len() <= usize::MAX,
            at == cells_of(views.take(i as int)).len(),
            at <= all.len(),
            tidy(run_views(out@)),
            cells_of(run_views(out@)) == cells_of(run_views(old(out)@)) + all.subrange(
                from as int,
                within(from as int, at as int, to as int),
            ),
        decreases runs@.len() - i,
    {
        let ghost done = cells_of(run_views(out@));
        proof {
            lemma_cells_take(views, i + 1);
            assert(views.take(i + 1).drop_last() == views.take(i as int));
            assert(views.take(i + 1).last() == runs@[i as int]@);
        }
        let length: usize = runs[i].text.as_str().unicode_len();
        let end: usize = at + length;
        let left: usize = if from > at {
            from
        } else {
            at
        };
        let right: usize = if to < end {
            to
        } else {
            end
        };
        if left < right {
            let piece = runs[i].text.as_str().substring_char(left - at, right - at);
            push_piece(out, piece, &runs[i].style);
            assert(styled(piece@, runs@[i as int].style@) == all.subrange(
                left as int,
                right as int,
            )) by {
                let upto = cells_of(views.take(i + 1));
                let tail = styled(runs@[i as int].text@, runs@[i as int].style@);
                assert(upto == cells_of(views.take(i as int)) + tail);
                assert forall|k: int| left <= k < right implies all[k] == tail[k - at] by {
                    assert(upto[k] == all[k]);
                }
            }
            assert(left == within(from as int, at as int, to as int));
            assert(right == within(from as int, end as int, to as int));
            assert(all.subrange(from as int, left as int) + all.subrange(left as int, right as int)
                == all.subrange(from as int, right as int));
        } else {
            assert(within(from as int, at as int, to as int) == within(
                from as int,
                end as int,
                to as int,
            ));
        }
        at = end;
        i = i + 1;
    }
    assert(views.take(views.len() as int) == views);
    assert(within(from as int, all.len() as int, to as int) == to);
}

/// `at` moved into the range `from..to`.
spec fn within(from: int, at: int, to: int) -> int {
    if at <= from {
        from
    } else if at >= to {
        to
    } else {
        at
    }
}

/// How many characters a list of runs holds is no more than its bytes.
proof fn lemma_cells_fit(runs: Seq<RunView>)
    ensures
        cells_of(runs).len() <= byte_len(chars_of(cells_of(runs))),
{
    let text = chars_of(cells_of(runs));
    lemma_offset_ends(text);
    lemma_offset_grows(text, 0, text.len() as int);
}

/// The text of a list of runs.
fn text_of(runs: &Vec<Run>) -> (r: String)
    ensures
        r@ == chars_of(cells_of(run_views(runs@))),
{
    let ghost views = run_views(runs@);
    let mut out = String::new();
    let mut i: usize = 0;
    assert(views.take(0) == Seq::<RunView>::empty());
    while i < runs.len()
        invariant
            i <= runs@.len(),
            views == run_views(runs@),
            out@ == chars_of(cells_of(views.take(i as int))),
        decreases runs@.len() - i,
    {
        proof {
            let run = runs@[i as int]@;
            assert(views.take(i + 1) == views.take(i as int).push(run));
            lemma_cells_push(views.take(i as int), run);
            lemma_chars_add(cells_of(views.take(i as int)), styled(run.text, run.style));
            lemma_chars_styled(run.text, run.style);
        }
        out.append(runs[i].text.as_str());
        i = i + 1;
    }
    assert(views.take(views.len() as int) == views);
    out
}

/// How a change of style relates a style before to one after.
pub open spec fn restyled<F: Fn(RunStyle) -> RunStyle>(
    change: F,
    before: StyleView,
    after: StyleView,
) -> bool {
    exists|s: RunStyle, t: RunStyle|
        s@ == before && t@ == after && #[trigger] call_ensures(change, (s,), t)
}

/// The same characters, each style changed.
pub open spec fn restyled_cells<F: Fn(RunStyle) -> RunStyle>(
    change: F,
    before: Seq<Cell>,
    after: Seq<Cell>,
) -> bool {
    &&& before.len() == after.len()
    &&& forall|k: int|
        0 <= k < before.len() ==> (#[trigger] after[k]).0 == before[k].0 && restyled(
            change,
            before[k].1,
            after[k].1,
        )
}

/// Runs changed one by one are cells changed one by one.
proof fn lemma_restyled_cells<F: Fn(RunStyle) -> RunStyle>(
    change: F,
    before: Seq<RunView>,
    after: Seq<RunView>,
)
    requires
        before.len() == after.len(),
        forall|i: int|
            0 <= i < before.len() ==> (#[trigger] after[i]).text == before[i].text && restyled(
                change,
                before[i].style,
                after[i].style,
            ),
    ensures
        restyled_cells(change, cells_of(before), cells_of(after)),
    decreases before.len(),
{
    if before.len() > 0 {
        lemma_restyled_cells(change, before.drop_last(), after.drop_last());
        let last = before.len() - 1;
        assert(after[last].text == before[last].text);
    }
}

/// Changes the style of every run.
fn restyle_runs<F: Fn(RunStyle) -> RunStyle>(runs: &Vec<Run>, change: &F) -> (r: Vec<Run>)
    requires
        forall|s: RunStyle| #[trigger] call_requires(*change, (s,)),
    ensures
        restyled_cells(*change, cells_of(run_views(runs@)), cells_of(run_views(r@))),
{
    let mut out: Vec<Run> = Vec::new();
    let mut i: usize = 0;
    while i < runs.len()
        invariant
            i <= runs@.len(),
            out@.len() == i,
            forall|s: RunStyle| #[trigger] call_requires(*change, (s,)),
            forall|k: int|
                0 <= k < i ==> (#[trigger] out@[k])@.text == runs@[k]@.text && restyled(
                    *change,
                    runs@[k]@.style,
                    out@[k]@.style,
                ),
        decreases runs@.len() - i,
    {
        let before = runs[i].style.clone();
        let ghost was = before;
        let style = change(before);
        proof {
            assert(call_ensures(*change, (was,), style));
            assert(restyled(*change, was@, style@));
        }
        out.push(Run { text: runs[i].text.clone(), style });
        i = i + 1;
    }
    proof {
        lemma_restyled_cells(*change, run_views(runs@), run_views(out@));
    }
    out
}

/// What an optional style says.
pub open spec fn opt_style(style: Option<RunStyle>) -> Option<StyleView> {
    match style {
        Some(style) => Some(style@),
        None => None,
    }
}

/// The text that is being edited.
#[derive(Debug)]
pub struct RichText {
    runs: Vec<Run>,
    caret: usize,
    anchor: usize,
    pending: Option<RunStyle>,
}

impl View for RichText {
    type V = TextView;

    closed spec fn view(&self) -> TextView {
        TextView {
            runs: run_views(self.runs@),
            caret: self.caret as int,
            anchor: self.anchor as int,
            pending: opt_style(self.pending),
        }
    }
}

/// What replacing the selection does to the bytes, and where the caret may
/// stand after it.
pub(crate) proof fn lemma_replaced(v: TextView, middle: Seq<Cell>)
    requires
        v.valid(),
    ensures
        ({
            let i = v.index(v.start());
            let j = v.index(v.end());
            let text = chars_of(v.replaced(middle));
            &&& 0 <= i <= j <= v.text().len()
            &&& offset_of(v.text(), i) == v.start()
            &&& offset_of(v.text(), j) == v.end()
            &&& text == v.text().take(i) + chars_of(middle) + v.text().skip(j)
            &&& byte_len(text) == byte_len(v.text()) - (v.end() - v.start()) + byte_len(
                chars_of(middle),
            )
            &&& v.start() + byte_len(chars_of(middle)) <= byte_len(text)
            &&& on_boundary(text, (v.start() + byte_len(chars_of(middle))) as int)
            &&& on_boundary(text, v.start())
        }),
{
    let s = v.text();
    let i = v.index(v.start());
    let j = v.index(v.end());
    lemma_chars_before(s, v.start());
    lemma_chars_before(s, v.end());
    if j < i {
        lemma_offset_grows(s, j, i);
    }
    let mid = chars_of(middle);
    let text = chars_of(v.replaced(middle));
    assert(text == s.take(i) + mid + s.skip(j));
    assert(s == s.take(j) + s.skip(j));
    byte_len_of_concatenation(s.take(j), s.skip(j));
    byte_len_of_concatenation(s.take(i) + mid, s.skip(j));
    byte_len_of_concatenation(s.take(i), mid);
    assert(text.take(i) == s.take(i));
    assert(text.take(i + mid.len()) == s.take(i) + mid);
    offset_round_trip(text, i);
    offset_round_trip(text, i + mid.len());
}

impl RichText {
    /// Whether the text is in order: see [`TextView::valid`].
    pub open spec fn wf(&self) -> bool {
        self@.valid()
    }

    /// A text in one style, with the caret at its end.
    pub fn new(text: &str, style: RunStyle) -> (r: RichText)
        ensures
            r.wf(),
            r@.cells() == styled(text@, style@),
            r@.caret == byte_len(text@),
            r@.anchor == byte_len(text@),
            r@.pending is None,
    {
        let caret: usize = str_bytes(text);
        let mut runs: Vec<Run> = Vec::new();
        push_piece(&mut runs, text, &style);
        proof {
            lemma_chars_styled(text@, style@);
            assert(cells_of(Seq::<RunView>::empty()) == Seq::<Cell>::empty());
            assert(cells_of(run_views(runs@)) == styled(text@, style@));
            offset_round_trip(text@, text@.len() as int);
            lemma_offset_ends(text@);
        }
        RichText { runs, caret, anchor: caret, pending: None }
    }

    /// A text put together from runs, with the caret at its end.
    pub fn from_runs(runs: Vec<Run>) -> (r: RichText)
        requires
            byte_len(chars_of(cells_of(run_views(runs@)))) <= usize::MAX,
        ensures
            r.wf(),
            r@.cells() == cells_of(run_views(runs@)),
            r@.caret == byte_len(r@.text()),
            r@.anchor == byte_len(r@.text()),
            r@.pending is None,
    {
        let text = text_of(&runs);
        let caret: usize = str_bytes(text.as_str());
        let count: usize = text.as_str().unicode_len();
        let mut tidied: Vec<Run> = Vec::new();
        proof {
            lemma_cells_fit(run_views(runs@));
        }
        push_cells(&mut tidied, &runs, 0, count);
        proof {
            let all = cells_of(run_views(runs@));
            assert(all.subrange(0, all.len() as int) == all);
            assert(cells_of(run_views(tidied@)) == all);
            offset_round_trip(text@, text@.len() as int);
            lemma_offset_ends(text@);
        }
        RichText { runs: tidied, caret, anchor: caret, pending: None }
    }

    /// The runs: none is empty, and neighbours differ in style.
    pub fn runs(&self) -> (r: &[Run])
        ensures
            run_views(r@) == self@.runs,
    {
        self.runs.as_slice()
    }

    /// The characters of all runs.
    pub fn text(&self) -> (r: String)
        ensures
            r@ == self@.text(),
    {
        text_of(&self.runs)
    }

    /// The number of bytes of the text.
    pub fn len(&self) -> (r: usize)
        requires
            self.wf(),
        ensures
            r == byte_len(self@.text()),
    {
        str_bytes(self.text().as_str())
    }

    pub fn caret(&self) -> (r: usize)
        ensures
            r == self@.caret,
    {
        self.caret
    }

    /// The selected range; empty where nothing is selected.
    pub fn selection(&self) -> (r: std::ops::Range<usize>)
        ensures
            r.start == self@.start(),
            r.end == self@.end(),
    {
        if self.caret <= self.anchor {
            self.caret..self.anchor
        } else {
            self.anchor..self.caret
        }
    }

    pub fn has_selection(&self) -> (r: bool)
        ensures
            r == (self@.caret != self@.anchor),
    {
        self.caret != self.anchor
    }

    /// The characters and the index of the one at a byte offset.
    fn locate(&self, offset: usize) -> (r: (Vec<char>, usize))
        ensures
            r.0@ == self@.text(),
            r.1 == self@.index(offset as int),
            0 <= r.1 <= r.0@.len(),
    {
        let chars = chars_of_str(self.text().as_str());
        let k: usize = count_before(chars.as_slice(), offset);
        proof {
            lemma_chars_before(chars@, offset as int);
        }
        (chars, k)
    }

    /// The place for the caret at or before a byte offset.
    fn settle(&self, offset: usize) -> (r: usize)
        requires
            self.wf(),
        ensures
            r == self@.settled(offset as int),
            r <= byte_len(self@.text()),
            on_boundary(self@.text(), r as int),
    {
        let (chars, k) = self.locate(offset);
        proof {
            offset_round_trip(self@.text(), k as int);
        }
        byte_offset(chars.as_slice(), k)
    }

    /// Puts the caret at the offset, moved back to the start of a character,
    /// and drops the selection.
    pub fn set_caret(&mut self, offset: usize)
        requires
            old(self).wf(),
        ensures
            final(self).wf(),
            final(self)@ == (TextView {
                caret: old(self)@.settled(offset as int),
                anchor: old(self)@.settled(offset as int),
                pending: None,
                ..old(self)@
            }),
    {
        let at: usize = self.settle(offset);
        self.caret = at;
        self.anchor = at;
        self.pending = None;
    }

    /// Moves the caret end of the selection to the offset.
    pub fn extend_to(&mut self, offset: usize)
        requires
            old(self).wf(),
        ensures
            final(self).wf(),
            final(self)@ == (TextView {
                caret: old(self)@.settled(offset as int),
                pending: old(self)@.pending_at(old(self)@.settled(offset as int)),
                ..old(self)@
            }),
    {
        let at: usize = self.settle(offset);
        self.place(at);
    }

    /// Moves the caret, and forgets the style for typing where it moved.
    fn place(&mut self, at: usize)
        ensures
            final(self)@ == (TextView {
                caret: at as int,
                pending: old(self)@.pending_at(at as int),
                ..old(self)@
            }),
    {
        if at != self.caret {
            self.pending = None;
        }
        self.caret = at;
    }

    /// Selects the whole text.
    pub fn select_all(&mut self)
        requires
            old(self).wf(),
        ensures
            final(self).wf(),
            final(self)@ == (TextView {
                anchor: 0,
                caret: byte_len(old(self)@.text()) as int,
                pending: old(self)@.pending_at(byte_len(old(self)@.text()) as int),
                ..old(self)@
            }),
    {
        let end: usize = self.len();
        proof {
            let text = self@.text();
            offset_round_trip(text, 0);
            offset_round_trip(text, text.len() as int);
            lemma_offset_ends(text);
        }
        self.anchor = 0;
        self.place(end);
    }
}

/// The style of the character in front of the `k`-th one.
fn style_before(runs: &Vec<Run>, k: usize) -> (r: RunStyle)
    requires
        k <= cells_of(run_views(runs@)).len() <= usize::MAX,
    ensures
        k == 0 ==> r@ == plain_style(),
        k > 0 ==> r@ == cells_of(run_views(runs@))[k - 1].1,
{
    let ghost views = run_views(runs@);
    let ghost all = cells_of(views);
    let mut at: usize = 0;
    let mut i: usize = 0;
    if k == 0 {
        return RunStyle::default();
    }
    assert(views.take(0) == Seq::<RunView>::empty());
    while i < runs.len()
        invariant
            i <= runs@.len(),
            views == run_views(runs@),
            all == cells_of(views),
            0 < k <= all.len() <= usize::MAX,
            at == cells_of(views.take(i as int)).len(),
            at < k,
        decreases runs@.len() - i,
    {
        let ghost run = runs@[i as int]@;
        let ghost upto = cells_of(views.take(i + 1));
        proof {
            lemma_cells_take(views, i + 1);
            assert(views.take(i + 1) == views.take(i as int).push(run));
            lemma_cells_push(views.take(i as int), run);
            assert(upto.len() == at + run.text.len());
        }
        let length: usize = runs[i].text.as_str().unicode_len();
        if k <= at + length {
            proof {
                assert(upto[k - 1] == all[k - 1]);
                assert(upto[k - 1] == styled(run.text, run.style)[k - 1 - at]);
            }
            return runs[i].style.clone();
        }
        at = at + length;
        i = i + 1;
    }
    assert(views.take(views.len() as int) == views);
    RunStyle::default()
}

/// Changes the style of the characters `from..to`.
fn restyle_range<F: Fn(RunStyle) -> RunStyle>(
    runs: &Vec<Run>,
    from: usize,
    to: usize,
    count: usize,
    change: &F,
) -> (r: Vec<Run>)
    requires
        from <= to <= count,
        count == cells_of(run_views(runs@)).len(),
        forall|s: RunStyle| #[trigger] call_requires(*change, (s,)),
    ensures
        tidy(run_views(r@)),
        ({
            let before = cells_of(run_views(runs@));
            let after = cells_of(run_views(r@));
            &&& before.len() == after.len()
            &&& chars_of(after) == chars_of(before)
            &&& after.take(from as int) == before.take(from as int)
            &&& restyled_cells(
                *change,
                before.subrange(from as int, to as int),
                after.subrange(from as int, to as int),
            )
            &&& after.skip(to as int) == before.skip(to as int)
        }),
{
    let ghost before = cells_of(run_views(runs@));
    let mut middle: Vec<Run> = Vec::new();
    push_cells(&mut middle, runs, from, to);
    let ghost old_middle = before.subrange(from as int, to as int);
    assert(cells_of(run_views(middle@)) == old_middle);
    let changed = restyle_runs(&middle, change);
    let ghost new_middle = cells_of(run_views(changed@));
    let mut out: Vec<Run> = Vec::new();
    push_cells(&mut out, runs, 0, from);
    push_cells(&mut out, &changed, 0, to - from);
    push_cells(&mut out, runs, to, count);
    proof {
        let after = cells_of(run_views(out@));
        assert(new_middle.subrange(0, to - from) == new_middle);
        assert(after == before.take(from as int) + new_middle + before.skip(to as int));
        assert(after.take(from as int) == before.take(from as int));
        assert(after.subrange(from as int, to as int) == new_middle);
        assert(after.skip(to as int) == before.skip(to as int));
        assert forall|k: int| 0 <= k < before.len() implies after[k].0 == before[k].0 by {
            if from <= k < to {
                assert(after[k] == new_middle[k - from]);
                assert(before[k] == old_middle[k - from]);
            }
        }
        assert(chars_of(after) == chars_of(before));
    }
    out
}

/// Walking over characters stays inside the text.
proof fn lemma_skips(text: Seq<char>, k: int, blank: bool)
    requires
        0 <= k <= text.len(),
    ensures
        0 <= skip_back(text, k, blank) <= k,
        k <= skip_ahead(text, k, blank) <= text.len(),
{
    lemma_skip_back(text, k, blank);
    lemma_skip_ahead(text, k, blank);
}

proof fn lemma_skip_back(text: Seq<char>, k: int, blank: bool)
    requires
        0 <= k <= text.len(),
    ensures
        0 <= skip_back(text, k, blank) <= k,
    decreases k,
{
    if k > 0 && white_space(text[k - 1]) == blank {
        lemma_skip_back(text, k - 1, blank);
    }
}

proof fn lemma_skip_ahead(text: Seq<char>, k: int, blank: bool)
    requires
        0 <= k <= text.len(),
    ensures
        k <= skip_ahead(text, k, blank) <= text.len(),
    decreases text.len() - k,
{
    if k < text.len() && white_space(text[k]) == blank {
        lemma_skip_ahead(text, k + 1, blank);
    }
}

/// Every movement leads to a character of the text or to its end.
proof fn lemma_moved_index(text: Seq<char>, k: int, movement: Movement)
    requires
        0 <= k <= text.len(),
    ensures
        0 <= moved_index(text, k, movement) <= text.len(),
{
    lemma_skips(text, k, true);
    lemma_skips(text, skip_back(text, k, true), false);
    lemma_skips(text, skip_ahead(text, k, true), false);
}

/// Walks to the left over characters that are blank, or that are not.
fn walk_back(text: &Vec<char>, from: usize, blank: bool) -> (r: usize)
    requires
        from <= text@.len(),
    ensures
        r == skip_back(text@, from as int, blank),
        r <= from,
{
    let mut k: usize = from;
    while k > 0 && is_white_space(text[k - 1]) == blank
        invariant
            k <= from <= text@.len(),
            skip_back(text@, from as int, blank) == skip_back(text@, k as int, blank),
        decreases k,
    {
        k = k - 1;
    }
    k
}

/// Walks to the right over characters that are blank, or that are not.
fn walk_ahead(text: &Vec<char>, from: usize, blank: bool) -> (r: usize)
    requires
        from <= text@.len(),
    ensures
        r == skip_ahead(text@, from as int, blank),
        from <= r <= text@.len(),
{
    let mut k: usize = from;
    while k < text.len() && is_white_space(text[k]) == blank
        invariant
            from <= k <= text@.len(),
            skip_ahead(text@, from as int, blank) == skip_ahead(text@, k as int, blank),
        decreases text@.len() - k,
    {
        k = k + 1;
    }
    k
}

impl TextView {
    /// The offset that a movement leads to.
    pub open spec fn target(self, movement: Movement) -> int {
        offset_of(self.text(), moved_index(self.text(), self.index(self.caret), movement)) as int
    }

    /// The text after a movement of the caret.
    ///
    /// An arrow without `extend` first drops a selection, at the edge that it
    /// points to.
    pub open spec fn moved(self, movement: Movement, extend: bool) -> TextView {
        if !extend && self.caret != self.anchor && movement == Movement::Left {
            TextView { caret: self.start(), anchor: self.start(), pending: None, ..self }
        } else if !extend && self.caret != self.anchor && movement == Movement::Right {
            TextView { caret: self.end(), anchor: self.end(), pending: None, ..self }
        } else {
            TextView {
                caret: self.target(movement),
                anchor: if extend {
                    self.anchor
                } else {
                    self.target(movement)
                },
                pending: self.pending_at(self.target(movement)),
                ..self
            }
        }
    }

    /// The text after the selection was replaced by cells.
    pub open spec fn is_replaced(self, middle: Seq<Cell>, after: TextView) -> bool {
        &&& after.cells() == self.replaced(middle)
        &&& after.caret == self.start() + byte_len(chars_of(middle))
        &&& after.anchor == after.caret
        &&& after.pending is None
    }

    /// The text after a text was typed: in the style at the caret, in the
    /// place of the selection. Typing nothing changes nothing.
    pub open spec fn is_inserted(self, text: Seq<char>, after: TextView) -> bool {
        if text.len() == 0 {
            after == self
        } else {
            self.is_replaced(styled(text, self.typing_style()), after)
        }
    }

    /// The text after the selection, if there is one, was deleted.
    pub open spec fn is_cut(self, after: TextView) -> bool {
        if self.caret == self.anchor {
            after == self
        } else {
            self.is_replaced(Seq::empty(), after)
        }
    }

    /// The text after the `k`-th character was taken out.
    pub open spec fn is_without(self, k: int, after: TextView) -> bool {
        &&& 0 <= k < self.cells().len()
        &&& after.cells() == self.cells().remove(k)
        &&& after.caret == offset_of(self.text(), k)
        &&& after.anchor == after.caret
        &&& after.pending is None
    }

    /// The text after the selection, or the character to the left of the
    /// caret, was deleted.
    pub open spec fn is_backspaced(self, after: TextView) -> bool {
        if self.caret != self.anchor {
            self.is_replaced(Seq::empty(), after)
        } else if self.caret == 0 {
            after == self
        } else {
            self.is_without(self.index(self.caret) - 1, after)
        }
    }

    /// The text after the selection, or the character to the right of the
    /// caret, was deleted.
    pub open spec fn is_deleted(self, after: TextView) -> bool {
        if self.caret != self.anchor {
            self.is_replaced(Seq::empty(), after)
        } else if self.caret == byte_len(self.text()) {
            after == self
        } else {
            self.is_without(self.index(self.caret), after)
        }
    }
}

impl RichText {
    /// Moves the caret; with `extend` the other end of the selection stays.
    pub fn move_caret(&mut self, movement: Movement, extend: bool)
        requires
            old(self).wf(),
        ensures
            final(self).wf(),
            final(self)@ == old(self)@.moved(movement, extend),
    {
        if !extend && self.caret != self.anchor {
            let range = self.selection();
            match movement {
                Movement::Left => {
                    proof {
                        self.settled_stays(range.start as int);
                    }
                    self.set_caret(range.start);
                    return;
                },
                Movement::Right => {
                    proof {
                        self.settled_stays(range.end as int);
                    }
                    self.set_caret(range.end);
                    return;
                },
                _ => {},
            }
        }
        let (chars, k) = self.locate(self.caret);
        proof {
            lemma_moved_index(chars@, k as int, movement);
        }
        let target: usize = match movement {
            Movement::Left => if k > 0 {
                k - 1
            } else {
                0
            },
            Movement::Right => if k < chars.len() {
                k + 1
            } else {
                k
            },
            Movement::WordLeft => {
                let gap: usize = walk_back(&chars, k, true);
                walk_back(&chars, gap, false)
            },
            Movement::WordRight => {
                let gap: usize = walk_ahead(&chars, k, true);
                walk_ahead(&chars, gap, false)
            },
            Movement::Start => 0,
            Movement::End => chars.len(),
        };
        proof {
            offset_round_trip(chars@, target as int);
        }
        let offset: usize = byte_offset(chars.as_slice(), target);
        self.place(offset);
        if !extend {
            self.anchor = offset;
        }
    }

    /// An offset between characters is its own place for the caret.
    proof fn settled_stays(&self, offset: int)
        requires
            0 <= offset,
            on_boundary(self@.text(), offset),
        ensures
            self@.settled(offset) == offset,
    {
    }

    /// Replaces the cells from one character to another by a piece of text and
    /// puts the caret behind it.
    fn splice(&mut self, text: &str, style: &RunStyle)
        requires
            old(self).wf(),
            byte_len(old(self)@.text()) + byte_len(text@) <= usize::MAX,
        ensures
            final(self).wf(),
            old(self)@.is_replaced(styled(text@, style@), final(self)@),
    {
        let range = self.selection();
        let (chars, i) = self.locate(range.start);
        let j: usize = count_before(chars.as_slice(), range.end);
        let ghost middle = styled(text@, style@);
        let ghost all = self@.cells();
        proof {
            lemma_replaced(self@, middle);
            lemma_chars_styled(text@, style@);
            lemma_cells_fit(self@.runs);
        }
        let mut runs: Vec<Run> = Vec::new();
        push_cells(&mut runs, &self.runs, 0, i);
        push_piece(&mut runs, text, style);
        push_cells(&mut runs, &self.runs, j, chars.len());
        assert(all.subrange(0, i as int) == all.take(i as int));
        assert(all.subrange(j as int, all.len() as int) == all.skip(j as int));
        assert(cells_of(run_views(runs@)) == self@.replaced(middle));
        let caret: usize = range.start + str_bytes(text);
        self.runs = runs;
        self.caret = caret;
        self.anchor = caret;
        self.pending = None;
    }

    /// Types text at the caret, or over the selection.
    pub fn insert(&mut self, text: &str)
        requires
            old(self).wf(),
            byte_len(old(self)@.text()) + byte_len(text@) <= usize::MAX,
        ensures
            final(self).wf(),
            old(self)@.is_inserted(text@, final(self)@),
    {
        if text.is_empty() {
            return;
        }
        let style = self.style_at_caret();
        self.splice(text, &style);
    }

    /// Deletes the selection, if there is one.
    pub fn delete_selection(&mut self)
        requires
            old(self).wf(),
        ensures
            final(self).wf(),
            old(self)@.is_cut(final(self)@),
    {
        if self.caret != self.anchor {
            self.cut();
        }
    }

    /// Takes the characters between caret and anchor out.
    fn cut(&mut self)
        requires
            old(self).wf(),
        ensures
            final(self).wf(),
            old(self)@.is_replaced(Seq::empty(), final(self)@),
    {
        let style = RunStyle::default();
        let empty = String::new();
        assert(byte_len(empty@) == 0);
        assert(styled(empty@, style@) == Seq::<Cell>::empty());
        self.splice(empty.as_str(), &style);
    }

    /// Deletes the selection, or the character to the left of the caret.
    pub fn backspace(&mut self)
        requires
            old(self).wf(),
        ensures
            final(self).wf(),
            old(self)@.is_backspaced(final(self)@),
    {
        if self.caret != self.anchor {
            self.cut();
        } else if self.caret > 0 {
            let ghost k = self@.index(self@.caret);
            proof {
                lemma_offset_ends(self@.text());
                lemma_chars_before(self@.text(), self@.caret);
                offset_round_trip(self@.text(), k - 1);
                lemma_offset_step(self@.text(), k - 1);
            }
            self.move_caret(Movement::Left, true);
            self.cut();
            assert(self@.cells() == old(self)@.cells().remove(k - 1));
        }
    }

    /// Deletes the selection, or the character to the right of the caret.
    pub fn delete(&mut self)
        requires
            old(self).wf(),
        ensures
            final(self).wf(),
            old(self)@.is_deleted(final(self)@),
    {
        if self.caret != self.anchor {
            self.cut();
        } else if self.caret < self.len() {
            let ghost k = self@.index(self@.caret);
            proof {
                lemma_offset_ends(self@.text());
                lemma_chars_before(self@.text(), self@.caret);
                offset_round_trip(self@.text(), k + 1);
                lemma_offset_step(self@.text(), k);
            }
            self.move_caret(Movement::Right, true);
            self.cut();
            assert(self@.cells() == old(self)@.cells().remove(k));
        }
    }

    /// The style of what is typed at the caret.
    pub fn style_at_caret(&self) -> (r: RunStyle)
        requires
            self.wf(),
        ensures
            r@ == self@.typing_style(),
    {
        if let Some(style) = &self.pending {
            return style.clone();
        }
        let (_chars, k) = self.locate(self.caret);
        proof {
            lemma_cells_fit(self@.runs);
        }
        style_before(&self.runs, k)
    }

    /// Changes the style of the selected text.
    ///
    /// Where nothing is selected the whole text changes, and so does the style
    /// of what is typed next.
    pub fn restyle<F: Fn(RunStyle) -> RunStyle>(&mut self, change: F)
        requires
            old(self).wf(),
            forall|s: RunStyle| #[trigger] call_requires(change, (s,)),
        ensures
            final(self).wf(),
            final(self)@.caret == old(self)@.caret,
            final(self)@.anchor == old(self)@.anchor,
            final(self)@.text() == old(self)@.text(),
            ({
                let before = old(self)@.cells();
                let after = final(self)@.cells();
                let from = if old(self)@.caret == old(self)@.anchor {
                    0
                } else {
                    old(self)@.index(old(self)@.start())
                };
                let to = if old(self)@.caret == old(self)@.anchor {
                    before.len() as int
                } else {
                    old(self)@.index(old(self)@.end())
                };
                &&& before.len() == after.len()
                &&& after.take(from) == before.take(from)
                &&& restyled_cells(change, before.subrange(from, to), after.subrange(from, to))
                &&& after.skip(to) == before.skip(to)
            }),
            old(self)@.caret != old(self)@.anchor ==> final(self)@.pending == old(self)@.pending,
            old(self)@.caret == old(self)@.anchor ==> {
                &&& final(self)@.pending is Some
                &&& restyled(
                    change,
                    (TextView { pending: old(self)@.pending, ..final(self)@ }).typing_style(),
                    final(self)@.pending->0,
                )
            },
    {
        let whole = self.caret == self.anchor;
        let range = self.selection();
        let (chars, start) = self.locate(range.start);
        let stop: usize = count_before(chars.as_slice(), range.end);
        proof {
            lemma_replaced(self@, Seq::empty());
            lemma_cells_fit(self@.runs);
        }
        let from: usize = if whole {
            0
        } else {
            start
        };
        let to: usize = if whole {
            chars.len()
        } else {
            stop
        };
        let runs = restyle_range(&self.runs, from, to, chars.len(), &change);
        self.runs = runs;
        if whole {
            let style = self.style_at_caret();
            let ghost was = style;
            let next = change(style);
            proof {
                assert(call_ensures(change, (was,), next));
                assert(restyled(change, was@, next@));
            }
            self.pending = Some(next);
        }
    }
}

/// The one of two optional texts that is there, the first before the second.
pub open spec fn first_text(a: Option<Seq<char>>, b: Option<Seq<char>>) -> Option<Seq<char>> {
    if a is Some {
        a
    } else {
        b
    }
}

impl StyleView {
    /// Whether weight or slant differ from the document's.
    pub open spec fn face_changed(self) -> bool {
        self.bold != self.document_bold || self.italic != self.document_italic
    }

    pub open spec fn shown_size(self) -> Option<Points> {
        if self.size is Some {
            self.size
        } else {
            self.document_size
        }
    }

    pub open spec fn shown_color(self) -> Option<Color> {
        if self.color is Some {
            self.color
        } else {
            self.document_color
        }
    }

    pub open spec fn shown_script(self) -> Script {
        if self.script != Script::Baseline {
            self.script
        } else {
            self.document_script
        }
    }

    /// The font that the style asks for in a paragraph of family `base`. A
    /// change of weight or slant starts from the family that is on the page.
    pub open spec fn font(self, base: Seq<char>) -> Option<FontRequestView> {
        if self.family is Some || self.face_changed() {
            let named = first_text(self.family, self.document_family);
            let family = if named is Some {
                named->0
            } else {
                base
            };
            Some(plain_request(family, self.bold, self.italic))
        } else {
            None
        }
    }
}

/// The span that a run is written as in a paragraph of family `base`.
pub open spec fn span_of(run: RunView, base: Seq<char>) -> SpanView {
    SpanView {
        text: run.text,
        page_family: if run.style.font(base) is None {
            run.style.document_family
        } else {
            None
        },
        font: run.style.font(base),
        size: run.style.shown_size(),
        color: run.style.shown_color(),
        script: run.style.shown_script(),
        underline: run.style.underline,
        bold: run.style.bold,
        italic: run.style.italic,
    }
}

/// The run that a span is read as.
pub open spec fn run_of(span: SpanView) -> RunView {
    RunView {
        text: span.text,
        style: StyleView {
            family: match span.font {
                Some(font) => Some(font.family),
                None => None,
            },
            size: span.size,
            color: span.color,
            bold: match span.font {
                Some(font) => font.bold,
                None => false,
            },
            italic: match span.font {
                Some(font) => font.italic,
                None => false,
            },
            underline: span.underline,
            script: span.script,
            document_family: span.page_family,
            document_size: None,
            document_color: None,
            document_script: Script::Baseline,
            document_bold: false,
            document_italic: false,
        },
    }
}

/// The spans that runs are written as.
pub open spec fn spans_of(runs: Seq<RunView>, base: Seq<char>) -> Seq<SpanView> {
    Seq::new(runs.len(), |i: int| span_of(runs[i], base))
}

/// The runs that spans are read as.
pub open spec fn runs_of(spans: Seq<SpanView>) -> Seq<RunView> {
    Seq::new(spans.len(), |i: int| run_of(spans[i]))
}

impl Run {
    /// The run as it is written into a document, in a paragraph of family
    /// `base`.
    fn to_span(&self, base: &str) -> (r: StyledSpan)
        ensures
            r@ == span_of(self@, base@),
    {
        let style = &self.style;
        let face_changed = style.bold != style.document_bold || style.italic
            != style.document_italic;
        let font = if style.family.is_some() || face_changed {
            let family = match (&style.family, &style.document_family) {
                (Some(family), _) => family.as_str(),
                (None, Some(family)) => family.as_str(),
                (None, None) => base,
            };
            Some(FontRequest::new(family, style.bold, style.italic))
        } else {
            None
        };
        let page_family = if font.is_none() {
            copy_text(&style.document_family)
        } else {
            None
        };
        StyledSpan {
            text: self.text.clone(),
            page_family,
            font,
            size: if style.size.is_some() {
                style.size
            } else {
                style.document_size
            },
            color: if style.color.is_some() {
                style.color
            } else {
                style.document_color
            },
            script: if style.script != Script::Baseline {
                style.script
            } else {
                style.document_script
            },
            underline: style.underline,
            bold: style.bold,
            italic: style.italic,
        }
    }

    /// The run that a span of a document is read as.
    fn from_span(span: &StyledSpan) -> (r: Run)
        ensures
            r@ == run_of(span@),
    {
        let (family, bold, italic) = match &span.font {
            Some(font) => (Some(font.family.clone()), font.bold, font.italic),
            None => (None, false, false),
        };
        Run {
            text: span.text.clone(),
            style: RunStyle {
                family,
                size: span.size,
                color: span.color,
                bold,
                italic,
                underline: span.underline,
                script: span.script,
                document_family: copy_text(&span.page_family),
                document_size: None,
                document_color: None,
                document_script: Script::Baseline,
                document_bold: false,
                document_italic: false,
            },
        }
    }
}

impl RichText {
    /// A text read from the spans of a document.
    pub fn from_spans(spans: &[StyledSpan]) -> (r: RichText)
        requires
            byte_len(chars_of(cells_of(runs_of(span_views(spans@))))) <= usize::MAX,
        ensures
            r.wf(),
            r@.cells() == cells_of(runs_of(span_views(spans@))),
            r@.caret == byte_len(r@.text()),
            r@.anchor == byte_len(r@.text()),
            r@.pending is None,
    {
        let mut runs: Vec<Run> = Vec::new();
        let mut i: usize = 0;
        while i < spans.len()
            invariant
                i <= spans@.len(),
                runs@.len() == i,
                forall|k: int| 0 <= k < i ==> (#[trigger] runs@[k])@ == run_of(spans@[k]@),
            decreases spans@.len() - i,
        {
            runs.push(Run::from_span(&spans[i]));
            i = i + 1;
        }
        assert(run_views(runs@) == runs_of(span_views(spans@)));
        RichText::from_runs(runs)
    }

    /// The spans that the text is written as, in a paragraph of family
    /// `base_family`.
    pub fn to_spans(&self, base_family: &str) -> (r: Vec<StyledSpan>)
        ensures
            span_views(r@) == spans_of(self@.runs, base_family@),
    {
        let mut spans: Vec<StyledSpan> = Vec::new();
        let mut i: usize = 0;
        while i < self.runs.len()
            invariant
                i <= self.runs@.len(),
                spans@.len() == i,
                forall|k: int|
                    0 <= k < i ==> (#[trigger] spans@[k])@ == span_of(
                        self.runs@[k]@,
                        base_family@,
                    ),
            decreases self.runs@.len() - i,
        {
            spans.push(self.runs[i].to_span(base_family));
            i = i + 1;
        }
        spans
    }
}

impl Default for RichText {
    fn default() -> (r: RichText)
        ensures
            r.wf(),
            r@.cells() == Seq::<Cell>::empty(),
            r@.caret == 0,
            r@.anchor == 0,
            r@.pending is None,
    {
        let empty = String::new();
        let r = RichText::new(empty.as_str(), RunStyle::default());
        assert(r@.cells() == Seq::<Cell>::empty());
        r
    }
}

impl Clone for RichText {
    fn clone(&self) -> (r: RichText)
        ensures
            r@ == self@,
    {
        let mut runs: Vec<Run> = Vec::new();
        let mut i: usize = 0;
        while i < self.runs.len()
            invariant
                i <= self.runs@.len(),
                runs@.len() == i,
                forall|k: int| 0 <= k < i ==> #[trigger] runs@[k] == self.runs@[k],
            decreases self.runs@.len() - i,
        {
            runs.push(self.runs[i].clone());
            i = i + 1;
        }
        assert(runs@ == self.runs@);
        RichText {
            runs,
            caret: self.caret,
            anchor: self.anchor,
            pending: match &self.pending {
                Some(style) => Some(style.clone()),
                None => None,
            },
        }
    }
}

/// The styled text decides how it is cut into runs: tidy runs with the same
/// cells are the same runs.
pub proof fn cells_determine_runs(a: Seq<RunView>, b: Seq<RunView>)
    requires
        tidy(a),
        tidy(b),
        cells_of(a) == cells_of(b),
    ensures
        a == b,
    decreases a.len(),
{
    let cells = cells_of(a);
    if a.len() == 0 || b.len() == 0 {
        if a.len() > 0 {
            assert(a[a.len() - 1].text.len() > 0);
            assert(cells.len() > 0);
        }
        if b.len() > 0 {
            assert(b[b.len() - 1].text.len() > 0);
            assert(cells_of(b).len() > 0);
        }
        assert(a == b);
    } else {
        assert(a.last() == a[a.len() - 1] && b.last() == b[b.len() - 1]);
        let n = cells.len() as int;
        let x = a.last().text.len() as int;
        let y = b.last().text.len() as int;
        assert(cells[n - 1] == styled(a.last().text, a.last().style)[x - 1]);
        assert(cells[n - 1] == styled(b.last().text, b.last().style)[y - 1]);
        lemma_last_run_is_whole(a, b);
        lemma_last_run_is_whole(b, a);
        assert(a.last().text == b.last().text) by {
            assert forall|k: int| 0 <= k < x implies a.last().text[k] == b.last().text[k] by {
                assert(cells[n - x + k] == styled(a.last().text, a.last().style)[k]);
                assert(cells[n - x + k] == styled(b.last().text, b.last().style)[k]);
            }
        }
        assert(cells_of(a.drop_last()) == cells.take(n - x));
        assert(cells_of(b.drop_last()) == cells.take(n - y));
        lemma_tidy_head(a);
        lemma_tidy_head(b);
        cells_determine_runs(a.drop_last(), b.drop_last());
        assert(a.last() == b.last());
        assert(a == a.drop_last().push(a.last()));
        assert(b == b.drop_last().push(b.last()));
    }
}

/// All but the last of tidy runs are tidy.
proof fn lemma_tidy_head(runs: Seq<RunView>)
    requires
        tidy(runs),
        runs.len() > 0,
    ensures
        tidy(runs.drop_last()),
{
    let head = runs.drop_last();
    assert forall|i: int| 0 <= i < head.len() implies (#[trigger] head[i]).text.len() > 0 by {
        assert(head[i] == runs[i]);
    }
    assert forall|i: int, j: int| 0 <= i && j == i + 1 && j < head.len() implies (
    #[trigger] head[i]).style != (#[trigger] head[j]).style by {
        assert(head[i] == runs[i] && head[j] == runs[j]);
    }
}

/// The last run cannot be shorter than a piece of one style at the end.
proof fn lemma_last_run_is_whole(a: Seq<RunView>, b: Seq<RunView>)
    requires
        tidy(a),
        a.len() > 0,
        b.len() > 0,
        cells_of(a) == cells_of(b),
        a.last().style == b.last().style,
    ensures
        a.last().text.len() >= b.last().text.len(),
{
    if a.last().text.len() < b.last().text.len() {
    let cells = cells_of(a);
    let n = cells.len() as int;
    let x = a.last().text.len() as int;
    let y = b.last().text.len() as int;
    let head = a.drop_last();
    assert(cells_of(head).len() == n - x);
    assert(head.len() > 0);
    let before = head.last();
    assert(before == a[a.len() - 2]);
    let m = before.text.len() as int;
    assert(cells_of(head)[n - x - 1] == styled(before.text, before.style)[m - 1]);
    assert(cells[n - x - 1] == cells_of(head)[n - x - 1]);
    assert(cells[n - x - 1] == styled(b.last().text, b.last().style)[y - x - 1]);
    assert(a[a.len() - 1] == a.last());
    }
}

/// What is typed takes the place of the selection, from its first character to its
/// last, and the caret stands behind it. Nothing else of the text changes, and what
/// was typed has the style that was chosen for it, else that of the character to
/// the left of the caret.
pub proof fn typing_replaces_the_selection(
    before: TextView,
    text: Seq<char>,
    after: TextView,
    i: int,
    j: int,
)
    requires
        before.valid(),
        text.len() > 0,
        before.is_inserted(text, after),
        0 <= i <= j <= before.text().len(),
        byte_len(before.text().take(i)) == before.caret || byte_len(before.text().take(i))
            == before.anchor,
        byte_len(before.text().take(j)) == before.caret || byte_len(before.text().take(j))
            == before.anchor,
        before.caret != before.anchor ==> i < j,
        before.caret == before.anchor ==> i == j,
    ensures
        after.text() == before.text().take(i) + text + before.text().skip(j),
        after.caret == byte_len(before.text().take(i)) + byte_len(text),
        after.anchor == after.caret,
        after.pending is None,
        forall|k: int| 0 <= k < i ==> #[trigger] after.cells()[k] == before.cells()[k],
        forall|k: int|
            i + text.len() <= k < after.cells().len() ==> #[trigger] after.cells()[k]
                == before.cells()[k - text.len() + (j - i)],
        forall|k: int|
            i <= k < i + text.len() ==> {
                let style = (#[trigger] after.cells()[k]).1;
                let left = if byte_len(before.text().take(i)) == before.caret {
                    i - 1
                } else {
                    j - 1
                };
                &&& before.pending is Some ==> style == before.pending->0
                &&& before.pending is None && left >= 0 ==> style == before.cells()[left].1
                &&& before.pending is None && left < 0 ==> style == plain_style()
            },
{
    lemma_selected(before, i, j);
    let middle = styled(text, before.typing_style());
    lemma_replaced(before, middle);
    lemma_chars_styled(text, before.typing_style());
    offset_round_trip(before.text(), i);
    offset_round_trip(before.text(), j);
    assert(after.cells() == before.cells().take(i) + middle + before.cells().skip(j));
}

/// The characters at which a selection starts and ends.
proof fn lemma_selected(v: TextView, i: int, j: int)
    requires
        v.valid(),
        0 <= i <= j <= v.text().len(),
        byte_len(v.text().take(i)) == v.caret || byte_len(v.text().take(i)) == v.anchor,
        byte_len(v.text().take(j)) == v.caret || byte_len(v.text().take(j)) == v.anchor,
        v.caret != v.anchor ==> i < j,
        v.caret == v.anchor ==> i == j,
    ensures
        v.start() == byte_len(v.text().take(i)),
        v.end() == byte_len(v.text().take(j)),
        v.index(v.start()) == i,
        v.index(v.end()) == j,
{
    lemma_offset_grows(v.text(), i, j);
    offset_round_trip(v.text(), i);
    offset_round_trip(v.text(), j);
}

/// Deleting takes out the selection, and nothing else, whichever key does it.
pub proof fn deleting_takes_out_the_selection(before: TextView, after: TextView, i: int, j: int)
    requires
        before.valid(),
        before.caret != before.anchor,
        before.is_cut(after) || before.is_backspaced(after) || before.is_deleted(after),
        0 <= i < j <= before.text().len(),
        byte_len(before.text().take(i)) == before.caret || byte_len(before.text().take(i))
            == before.anchor,
        byte_len(before.text().take(j)) == before.caret || byte_len(before.text().take(j))
            == before.anchor,
    ensures
        after.text() == before.text().take(i) + before.text().skip(j),
        after.caret == byte_len(before.text().take(i)),
        after.anchor == after.caret,
        after.cells() == before.cells().take(i) + before.cells().skip(j),
{
    lemma_selected(before, i, j);
    lemma_replaced(before, Seq::empty());
    assert(chars_of(Seq::<Cell>::empty()) == Seq::<char>::empty());
    assert(after.cells() == before.cells().take(i) + before.cells().skip(j));
    assert(after.text() == before.text().take(i) + before.text().skip(j));
}

/// Where nothing is selected, one key deletes the character before the caret and
/// the other the one behind it; every other character stays.
pub proof fn deleting_takes_out_one_character(before: TextView, after: TextView, k: int)
    requires
        before.valid(),
        before.caret == before.anchor,
        0 <= k <= before.text().len(),
        byte_len(before.text().take(k)) == before.caret,
    ensures
        before.is_backspaced(after) && k > 0 ==> {
            &&& after.text() == before.text().take(k - 1) + before.text().skip(k)
            &&& after.cells() == before.cells().take(k - 1) + before.cells().skip(k)
            &&& after.caret == byte_len(before.text().take(k - 1))
            &&& after.anchor == after.caret
        },
        before.is_backspaced(after) && k == 0 ==> after == before,
        before.is_deleted(after) && k < before.text().len() ==> {
            &&& after.text() == before.text().take(k) + before.text().skip(k + 1)
            &&& after.cells() == before.cells().take(k) + before.cells().skip(k + 1)
            &&& after.caret == before.caret
            &&& after.anchor == before.caret
        },
        before.is_deleted(after) && k == before.text().len() ==> after == before,
{
    let text = before.text();
    let cells = before.cells();
    offset_round_trip(text, k);
    lemma_offset_ends(text);
    if k > 0 {
        lemma_offset_grows(text, 0, k);
        assert(cells.remove(k - 1) == cells.take(k - 1) + cells.skip(k));
        assert(chars_of(cells.remove(k - 1)) == text.take(k - 1) + text.skip(k));
    }
    if k < text.len() {
        lemma_offset_grows(text, k, text.len() as int);
        assert(cells.remove(k) == cells.take(k) + cells.skip(k + 1));
        assert(chars_of(cells.remove(k)) == text.take(k) + text.skip(k + 1));
    }
}

/// Where a movement leads from the `k`-th character: one character to either side,
/// to an end of the text, or over blanks and then over a word, to where it begins
/// or ends. The other end of the selection stays or comes along.
pub proof fn a_movement_goes_where_it_says(v: TextView, movement: Movement, extend: bool, k: int)
    requires
        v.valid(),
        0 <= k <= v.text().len(),
        byte_len(v.text().take(k)) == v.caret,
        extend || v.caret == v.anchor,
    ensures
        ({
            let text = v.text();
            let to = v.moved(movement, extend);
            &&& extend ==> to.anchor == v.anchor
            &&& !extend ==> to.anchor == to.caret
            &&& to.runs == v.runs
            &&& movement == Movement::Left && k > 0 ==> to.caret == byte_len(text.take(k - 1))
            &&& movement == Movement::Left && k == 0 ==> to.caret == 0
            &&& movement == Movement::Right && k < text.len() ==> to.caret == byte_len(
                text.take(k + 1),
            )
            &&& movement == Movement::Right && k == text.len() ==> to.caret == v.caret
            &&& movement == Movement::Start ==> to.caret == 0
            &&& movement == Movement::End ==> to.caret == byte_len(text)
            &&& movement == Movement::WordRight ==> exists|m: int, n: int|
                to.caret == byte_len(text.take(n)) && #[trigger] word_ahead(text, k, m, n)
            &&& movement == Movement::WordLeft ==> exists|m: int, n: int|
                to.caret == byte_len(text.take(n)) && #[trigger] word_behind(text, k, m, n)
        }),
{
    let text = v.text();
    offset_round_trip(text, k);
    lemma_offset_ends(text);
    assert(v.index(v.caret) == k);
    if movement == Movement::WordRight {
        let m = skip_ahead(text, k, true);
        lemma_skips(text, k, true);
        lemma_skips(text, m, false);
        lemma_walk_ahead(text, k, true);
        lemma_walk_ahead(text, m, false);
        assert(word_ahead(text, k, m, skip_ahead(text, m, false)));
    }
    if movement == Movement::WordLeft {
        let m = skip_back(text, k, true);
        lemma_skips(text, k, true);
        lemma_skips(text, m, false);
        lemma_walk_back(text, k, true);
        lemma_walk_back(text, m, false);
        assert(word_behind(text, k, m, skip_back(text, m, false)));
    }
}

/// From one character to another there are blanks, up to a third, and then a word,
/// which ends there.
pub open spec fn word_ahead(text: Seq<char>, from: int, gap: int, to: int) -> bool {
    &&& from <= gap <= to <= text.len()
    &&& forall|i: int| from <= i < gap ==> white_space(#[trigger] text[i])
    &&& forall|i: int| gap <= i < to ==> !white_space(#[trigger] text[i])
    &&& gap < text.len() ==> !white_space(text[gap])
    &&& to < text.len() ==> white_space(text[to])
}

/// Back from one character to another there are blanks, up to a third, and then a
/// word, which begins there.
pub open spec fn word_behind(text: Seq<char>, from: int, gap: int, to: int) -> bool {
    &&& 0 <= to <= gap <= from
    &&& forall|i: int| gap <= i < from ==> white_space(#[trigger] text[i])
    &&& forall|i: int| to <= i < gap ==> !white_space(#[trigger] text[i])
    &&& gap > 0 ==> !white_space(text[gap - 1])
    &&& to > 0 ==> white_space(text[to - 1])
}

proof fn lemma_walk_ahead(text: Seq<char>, k: int, blank: bool)
    requires
        0 <= k <= text.len(),
    ensures
        forall|i: int|
            k <= i < skip_ahead(text, k, blank) ==> white_space(#[trigger] text[i]) == blank,
        skip_ahead(text, k, blank) < text.len() ==> white_space(
            text[skip_ahead(text, k, blank)],
        ) != blank,
    decreases text.len() - k,
{
    if k < text.len() && white_space(text[k]) == blank {
        lemma_walk_ahead(text, k + 1, blank);
    }
}

proof fn lemma_walk_back(text: Seq<char>, k: int, blank: bool)
    requires
        0 <= k <= text.len(),
    ensures
        forall|i: int|
            skip_back(text, k, blank) <= i < k ==> white_space(#[trigger] text[i]) == blank,
        skip_back(text, k, blank) > 0 ==> white_space(text[skip_back(text, k, blank) - 1]) != blank,
    decreases k,
{
    if k > 0 && white_space(text[k - 1]) == blank {
        lemma_walk_back(text, k - 1, blank);
    }
}

/// An arrow without a selection to extend puts the caret to the end of the
/// selection that it points to.
pub proof fn an_arrow_drops_the_selection(v: TextView)
    requires
        v.valid(),
        v.caret != v.anchor,
    ensures
        ({
            let left = v.moved(Movement::Left, false);
            let right = v.moved(Movement::Right, false);
            &&& left.caret == left.anchor && right.caret == right.anchor
            &&& left.caret <= v.caret && left.caret <= v.anchor
            &&& left.caret == v.caret || left.caret == v.anchor
            &&& right.caret >= v.caret && right.caret >= v.anchor
            &&& right.caret == v.caret || right.caret == v.anchor
            &&& left.runs == v.runs && right.runs == v.runs
        }),
{
}

/// A caret that is put anywhere stands between two characters: at the place that
/// was asked for, or, in the middle of a letter, before that letter.
pub proof fn a_caret_is_put_before_its_letter(v: TextView, offset: int, k: int)
    requires
        v.valid(),
        0 <= offset,
        0 <= k <= v.text().len(),
        byte_len(v.text().take(k)) <= offset,
        k < v.text().len() ==> offset < byte_len(v.text().take(k + 1)),
    ensures
        v.settled(offset) == byte_len(v.text().take(k)),
{
    crate::chars::lemma_chars_before_is(v.text(), offset, k);
}

/// Typing and then deleting what was typed leaves the text as it was.
pub proof fn deleting_undoes_typing(before: TextView, middle: Seq<Cell>, typed: TextView, after: TextView)
    requires
        before.valid(),
        before.caret == before.anchor,
        before.is_replaced(middle, typed),
        typed.valid(),
        (TextView { anchor: before.caret, ..typed }).is_replaced(Seq::empty(), after),
    ensures
        after.cells() == before.cells(),
        after.caret == before.caret,
{
    lemma_replaced(before, middle);
    let selected = TextView { anchor: before.caret, ..typed };
    lemma_replaced(selected, Seq::empty());
    let i = before.index(before.caret);
    let text = typed.text();
    let n = chars_of(middle).len() as int;
    assert(text.take(i) == before.text().take(i));
    assert(text.take(i + n) == before.text().take(i) + chars_of(middle));
    byte_len_of_concatenation(before.text().take(i), chars_of(middle));
    offset_round_trip(text, i);
    offset_round_trip(text, i + n);
    let cells = before.cells();
    assert(typed.cells() == cells.take(i) + middle + cells.skip(i));
    assert(typed.cells().take(i) == cells.take(i));
    assert(typed.cells().skip(i + n) == cells.skip(i));
    assert(after.cells() == cells.take(i) + cells.skip(i));
    assert(cells.take(i) + cells.skip(i) == cells);
}

/// Typing one character and taking it back leaves the text, its runs, the caret
/// and the selection as they were.
pub proof fn backspace_undoes_typing(before: TextView, c: char, typed: TextView, after: TextView)
    requires
        before.valid(),
        before.caret == before.anchor,
        before.is_inserted(seq![c], typed),
        typed.valid(),
        typed.is_backspaced(after),
        after.valid(),
    ensures
        after.text() == before.text(),
        after.runs == before.runs,
        after.caret == before.caret,
        after.anchor == before.anchor,
{
    let middle = styled(seq![c], before.typing_style());
    lemma_replaced(before, middle);
    let i = before.index(before.caret);
    let text = typed.text();
    assert(chars_of(middle) == seq![c]);
    assert(text.take(i) == before.text().take(i));
    assert(text.take(i + 1) == before.text().take(i) + seq![c]);
    byte_len_of_concatenation(before.text().take(i), seq![c]);
    offset_round_trip(text, i);
    offset_round_trip(text, i + 1);
    lemma_offset_grows(text, i, i + 1);
    let cells = before.cells();
    assert(typed.cells() == cells.take(i) + middle + cells.skip(i));
    assert(typed.cells().remove(i) == cells);
    cells_determine_runs(after.runs, before.runs);
}

/// At the start of a text there is nothing to take back.
pub proof fn backspace_at_the_start_changes_nothing(before: TextView, after: TextView)
    requires
        before.caret == 0,
        before.anchor == 0,
        before.is_backspaced(after),
    ensures
        after == before,
{
}

/// A step to the right and a step to the left cancel out.
pub proof fn left_undoes_right(v: TextView)
    requires
        v.valid(),
        v.caret < byte_len(v.text()),
        v.caret == v.anchor,
    ensures
        v.caret < v.moved(Movement::Right, false).caret,
        v.moved(Movement::Right, false).moved(Movement::Left, false).caret == v.caret,
{
    let k = v.index(v.caret);
    lemma_chars_before(v.text(), v.caret);
    lemma_offset_ends(v.text());
    offset_round_trip(v.text(), k + 1);
    lemma_offset_grows(v.text(), k, k + 1);
}

/// A movement of the caret never changes the text, and leaves it in order.
pub proof fn moving_keeps_the_text(v: TextView, movement: Movement, extend: bool)
    requires
        v.valid(),
    ensures
        v.moved(movement, extend).valid(),
        v.moved(movement, extend).runs == v.runs,
{
    lemma_chars_before(v.text(), v.caret);
    lemma_moved_index(v.text(), v.index(v.caret), movement);
    offset_round_trip(v.text(), moved_index(v.text(), v.index(v.caret), movement));
}

/// The cell of a run among the cells of changed runs.
proof fn lemma_reread_cells(runs: Seq<RunView>, base: Seq<char>)
    ensures
        ({
            let before = cells_of(runs);
            let after = cells_of(runs_of(spans_of(runs, base)));
            &&& before.len() == after.len()
            &&& forall|k: int|
                0 <= k < before.len() ==> (#[trigger] after[k]).0 == before[k].0 && after[k].1.size
                    == before[k].1.shown_size() && after[k].1.color == before[k].1.shown_color()
                    && after[k].1.script == before[k].1.shown_script() && after[k].1.underline
                    == before[k].1.underline && (before[k].1.font(base) is Some ==> (
                after[k].1.family == Some(before[k].1.font(base)->0.family) && after[k].1.bold
                    == before[k].1.bold && after[k].1.italic == before[k].1.italic)) && (
                before[k].1.font(base) is None ==> after[k].1.document_family
                    == before[k].1.document_family)
        }),
    decreases runs.len(),
{
    if runs.len() > 0 {
        let head = runs.drop_last();
        lemma_reread_cells(head, base);
        let reread = runs_of(spans_of(runs, base));
        assert(reread.drop_last() == runs_of(spans_of(head, base)));
        assert(reread.last() == run_of(span_of(runs.last(), base)));
    }
}

/// Writing a text as spans and reading it back keeps every character, its
/// size, colour, script and underline, and the font that was asked for.
pub proof fn spans_keep_the_text(v: TextView, base: Seq<char>, k: int)
    requires
        0 <= k < v.cells().len(),
    ensures
        ({
            let after = cells_of(runs_of(spans_of(v.runs, base)));
            let style = v.cells()[k].1;
            &&& chars_of(after) == v.text()
            &&& after[k].1.size == style.shown_size()
            &&& after[k].1.color == style.shown_color()
            &&& after[k].1.script == style.shown_script()
            &&& after[k].1.underline == style.underline
            &&& style.font(base) is Some ==> after[k].1.family == Some(style.font(base)->0.family)
                && after[k].1.bold == style.bold && after[k].1.italic == style.italic
            &&& style.font(base) is None ==> after[k].1.document_family == style.document_family
        }),
{
    lemma_reread_cells(v.runs, base);
    let after = cells_of(runs_of(spans_of(v.runs, base)));
    assert(after[k].0 == v.cells()[k].0);
    assert(chars_of(after) == v.text());
}

/// Spans that have the texts of runs read as the runs do.
pub(crate) proof fn lemma_read_spans(spans: Seq<SpanView>, runs: Seq<RunView>)
    requires
        spans.len() == runs.len(),
        forall|i: int| 0 <= i < runs.len() ==> (#[trigger] spans[i]).text == runs[i].text,
    ensures
        read_spans(spans) == chars_of(cells_of(runs)),
    decreases runs.len(),
{
    if runs.len() > 0 {
        let last = runs.len() - 1;
        assert(spans[last].text == runs[last].text);
        assert forall|i: int| 0 <= i < last implies (#[trigger] spans.drop_last()[i]).text
            == runs.drop_last()[i].text by {
            assert(spans[i].text == runs[i].text);
        }
        lemma_read_spans(spans.drop_last(), runs.drop_last());
        lemma_chars_add(
            cells_of(runs.drop_last()),
            styled(runs.last().text, runs.last().style),
        );
        lemma_chars_styled(runs.last().text, runs.last().style);
    }
}

/// The spans of a text read as the text, one span to a run, and each has the look
/// of its run: weight, slant and underline as they are, size, colour and script
/// the run's own before the document's. A font is asked for where a family was
/// given or where weight or slant changed; else the piece stays with the font of
/// the page.
pub proof fn spans_read_as_the_text(runs: Seq<RunView>, base: Seq<char>, i: int)
    requires
        0 <= i < runs.len(),
    ensures
        read_spans(spans_of(runs, base)) == chars_of(cells_of(runs)),
        spans_of(runs, base).len() == runs.len(),
        ({
            let span = spans_of(runs, base)[i];
            let style = runs[i].style;
            let changed = style.bold != style.document_bold || style.italic
                != style.document_italic;
            let asked = |family: Seq<char>|
                Some(
                    FontRequestView {
                        family,
                        bold: style.bold,
                        italic: style.italic,
                        face: None,
                    },
                );
            &&& span.text == runs[i].text
            &&& span.bold == style.bold
            &&& span.italic == style.italic
            &&& span.underline == style.underline
            &&& style.size is Some ==> span.size == style.size
            &&& style.size is None ==> span.size == style.document_size
            &&& style.color is Some ==> span.color == style.color
            &&& style.color is None ==> span.color == style.document_color
            &&& style.script != Script::Baseline ==> span.script == style.script
            &&& style.script == Script::Baseline ==> span.script == style.document_script
            &&& style.family is Some ==> span.font == asked(style.family->0) && span.page_family
                is None
            &&& style.family is None && !changed ==> span.font is None && span.page_family
                == style.document_family
            &&& style.family is None && changed && style.document_family is Some ==> span.font
                == asked(style.document_family->0) && span.page_family is None
            &&& style.family is None && changed && style.document_family is None ==> span.font
                == asked(base) && span.page_family is None
        }),
{
    lemma_read_spans(spans_of(runs, base), runs);
}

/// A span is read as a run with its text and its look: the font that it asks for
/// is a family of the run's own, in its weight and slant.
pub proof fn a_span_is_read_with_its_look(span: SpanView)
    ensures
        ({
            let run = run_of(span);
            &&& run.text == span.text
            &&& run.style.size == span.size
            &&& run.style.color == span.color
            &&& run.style.underline == span.underline
            &&& run.style.script == span.script
            &&& run.style.document_family == span.page_family
            &&& span.font matches Some(font) ==> run.style.family == Some(font.family)
                && run.style.bold == font.bold && run.style.italic == font.italic
            &&& span.font is None ==> run.style.family is None && !run.style.bold
                && !run.style.italic
            &&& !run.style.document_bold && !run.style.document_italic
        }),
{
}

/// The runs that styled characters are cut into: as few as there can be.
pub open spec fn tidied(cells: Seq<Cell>) -> Seq<RunView>
    decreases cells.len(),
{
    if cells.len() == 0 {
        Seq::empty()
    } else {
        let before = tidied(cells.drop_last());
        let (ch, style) = cells.last();
        if before.len() > 0 && before.last().style == style {
            before.drop_last().push(RunView { text: before.last().text.push(ch), style })
        } else {
            before.push(RunView { text: seq![ch], style })
        }
    }
}

/// Cutting characters into runs keeps them, and leaves no run that could be
/// joined to another.
pub(crate) proof fn lemma_tidied(cells: Seq<Cell>)
    ensures
        tidy(tidied(cells)),
        cells_of(tidied(cells)) == cells,
    decreases cells.len(),
{
    if cells.len() > 0 {
        lemma_tidied(cells.drop_last());
        let before = tidied(cells.drop_last());
        let (ch, style) = cells.last();
        if before.len() > 0 && before.last().style == style {
            let last = before.last();
            let joined = RunView { text: last.text.push(ch), style };
            lemma_cells_push(before.drop_last(), joined);
            assert(styled(last.text.push(ch), style) == styled(last.text, style).push((ch, style)));
            assert(cells_of(tidied(cells)) == cells_of(before).push((ch, style)));
        } else {
            let added = RunView { text: seq![ch], style };
            lemma_cells_push(before, added);
            assert(styled(seq![ch], style) == seq![(ch, style)]);
            assert(cells_of(tidied(cells)) == cells_of(before).push((ch, style)));
        }
        assert(cells.drop_last().push(cells.last()) == cells);
    }
}

/// The style of a run that is not empty is that of one of its characters.
pub(crate) proof fn lemma_style_of_run(runs: Seq<RunView>, i: int) -> (k: int)
    requires
        0 <= i < runs.len(),
        runs[i].text.len() > 0,
    ensures
        0 <= k < cells_of(runs).len(),
        cells_of(runs)[k].1 == runs[i].style,
    decreases runs.len(),
{
    let head = runs.drop_last();
    if i == runs.len() - 1 {
        cells_of(head).len() as int
    } else {
        assert(head[i] == runs[i]);
        lemma_style_of_run(head, i)
    }
}

/// The runs of a valid text are the ones that its characters are cut into.
pub proof fn valid_runs_are_tidied(v: TextView)
    requires
        v.valid(),
    ensures
        v.runs == tidied(v.cells()),
{
    lemma_tidied(v.cells());
    cells_determine_runs(v.runs, tidied(v.cells()));
}

/// A change of style: what is given is set, what is not stays.
#[derive(Debug)]
pub struct StyleChange {
    pub family: Option<String>,
    pub size: Option<Points>,
    pub color: Option<Color>,
    pub bold: Option<bool>,
    pub italic: Option<bool>,
    pub underline: Option<bool>,
    pub script: Option<Script>,
}

/// One of two values, the first where it is there.
pub open spec fn given<T>(change: Option<T>, value: T) -> T {
    match change {
        Some(new) => new,
        None => value,
    }
}

impl StyleChange {
    /// A style with the change made.
    pub open spec fn applied(self, style: StyleView) -> StyleView {
        StyleView {
            family: first_text(opt_chars(self.family), style.family),
            size: if self.size is Some {
                self.size
            } else {
                style.size
            },
            color: if self.color is Some {
                self.color
            } else {
                style.color
            },
            bold: given(self.bold, style.bold),
            italic: given(self.italic, style.italic),
            underline: given(self.underline, style.underline),
            script: given(self.script, style.script),
            ..style
        }
    }

    /// Characters with the change made to each.
    pub open spec fn applied_to(self, cells: Seq<Cell>) -> Seq<Cell> {
        Seq::new(cells.len(), |i: int| (cells[i].0, self.applied(cells[i].1)))
    }

    /// The change that changes nothing.
    pub fn none() -> (r: StyleChange)
        ensures
            r == (StyleChange {
                family: None,
                size: None,
                color: None,
                bold: None,
                italic: None,
                underline: None,
                script: None,
            }),
    {
        StyleChange {
            family: None,
            size: None,
            color: None,
            bold: None,
            italic: None,
            underline: None,
            script: None,
        }
    }

    /// Makes the change.
    pub fn apply(&self, style: RunStyle) -> (r: RunStyle)
        ensures
            r@ == self.applied(style@),
    {
        let mut style = style;
        if self.family.is_some() {
            style.family = copy_text(&self.family);
        }
        if self.size.is_some() {
            style.size = self.size;
        }
        if self.color.is_some() {
            style.color = self.color;
        }
        if let Some(bold) = self.bold {
            style.bold = bold;
        }
        if let Some(italic) = self.italic {
            style.italic = italic;
        }
        if let Some(underline) = self.underline {
            style.underline = underline;
        }
        if let Some(script) = self.script {
            style.script = script;
        }
        style
    }
}

impl TextView {
    /// The first character that a change of style reaches: the selected ones,
    /// or all where none is selected.
    pub open spec fn change_from(self) -> int {
        if self.caret == self.anchor {
            0
        } else {
            self.index(self.start())
        }
    }

    /// The character in front of which a change of style ends.
    pub open spec fn change_to(self) -> int {
        if self.caret == self.anchor {
            self.cells().len() as int
        } else {
            self.index(self.end())
        }
    }

    /// The characters after a change of style.
    pub open spec fn changed_cells(self, change: StyleChange) -> Seq<Cell> {
        let from = self.change_from();
        let to = self.change_to();
        self.cells().take(from) + change.applied_to(self.cells().subrange(from, to))
            + self.cells().skip(to)
    }
}

impl RichText {
    /// Makes a change of style, as [`RichText::restyle`] does.
    pub fn change_style(&mut self, change: &StyleChange)
        requires
            old(self).wf(),
        ensures
            final(self).wf(),
            final(self)@.cells() == old(self)@.changed_cells(*change),
            final(self)@.text() == old(self)@.text(),
            final(self)@.caret == old(self)@.caret,
            final(self)@.anchor == old(self)@.anchor,
            old(self)@.caret != old(self)@.anchor ==> final(self)@.pending == old(self)@.pending,
            old(self)@.caret == old(self)@.anchor ==> final(self)@.pending == Some(
                change.applied(
                    (TextView { pending: old(self)@.pending, ..final(self)@ }).typing_style(),
                ),
            ),
    {
        let ghost before = self@;
        let f = |style: RunStyle| -> (r: RunStyle)
            ensures
                r@ == change.applied(style@),
            { change.apply(style) };
        self.restyle(f);
        proof {
            let from = before.change_from();
            let to = before.change_to();
            lemma_replaced(before, Seq::empty());
            let was = before.cells();
            let now = self@.cells();
            assert forall|k: int| from <= k < to implies now[k] == (
                was[k].0,
                change.applied(was[k].1),
            ) by {
                let a = was.subrange(from, to);
                let b = now.subrange(from, to);
                assert(b[k - from].0 == a[k - from].0);
                assert(restyled(f, a[k - from].1, b[k - from].1));
                let (s, t) = choose|s: RunStyle, t: RunStyle|
                    s@ == a[k - from].1 && t@ == b[k - from].1 && #[trigger] call_ensures(
                        f,
                        (s,),
                        t,
                    );
                assert(t@ == change.applied(s@));
                assert(now[k] == b[k - from]);
                assert(was[k] == a[k - from]);
            }
            let target = before.changed_cells(*change);
            assert forall|k: int| 0 <= k < now.len() implies now[k] == target[k] by {
                if k < from {
                    assert(now.take(from)[k] == was.take(from)[k]);
                } else if k >= to {
                    assert(now.skip(to)[k - to] == was.skip(to)[k - to]);
                }
            }
            assert(now == target);
        }
    }
}

/// A change of style reaches the selected characters, or all where none is
/// selected, and no other: what it gives is set, and all else stays as it was.
pub proof fn a_change_reaches_what_is_selected(
    v: TextView,
    change: StyleChange,
    i: int,
    j: int,
    k: int,
)
    requires
        v.valid(),
        0 <= i <= j <= v.text().len(),
        byte_len(v.text().take(i)) == v.caret || byte_len(v.text().take(i)) == v.anchor,
        byte_len(v.text().take(j)) == v.caret || byte_len(v.text().take(j)) == v.anchor,
        v.caret != v.anchor ==> i < j,
        v.caret == v.anchor ==> i == j,
        0 <= k < v.cells().len(),
    ensures
        v.changed_cells(change).len() == v.cells().len(),
        v.changed_cells(change)[k].0 == v.cells()[k].0,
        i < j && !(i <= k < j) ==> v.changed_cells(change)[k] == v.cells()[k],
        i == j || i <= k < j ==> {
            let was = v.cells()[k].1;
            let now = v.changed_cells(change)[k].1;
            &&& change.family is Some ==> now.family == Some(change.family->0@)
            &&& change.family is None ==> now.family == was.family
            &&& change.size is Some ==> now.size == change.size
            &&& change.size is None ==> now.size == was.size
            &&& change.color is Some ==> now.color == change.color
            &&& change.color is None ==> now.color == was.color
            &&& change.bold is Some ==> now.bold == change.bold->0
            &&& change.bold is None ==> now.bold == was.bold
            &&& change.italic is Some ==> now.italic == change.italic->0
            &&& change.italic is None ==> now.italic == was.italic
            &&& change.underline is Some ==> now.underline == change.underline->0
            &&& change.underline is None ==> now.underline == was.underline
            &&& change.script is Some ==> now.script == change.script->0
            &&& change.script is None ==> now.script == was.script
            &&& now.document_family == was.document_family
            &&& now.document_size == was.document_size
            &&& now.document_color == was.document_color
            &&& now.document_script == was.document_script
            &&& now.document_bold == was.document_bold
            &&& now.document_italic == was.document_italic
        },
{
    lemma_selected(v, i, j);
}

/// A change of style made twice is made once.
pub proof fn changing_twice_is_changing_once(change: StyleChange, style: StyleView)
    ensures
        change.applied(change.applied(style)) == change.applied(style),
{
}

} // verus!
