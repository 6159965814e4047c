//! The edits that a selection or a group of blocks is turned into.
use crate::block_model::{one_color, seeded_size, shown_size, single_color, READABLE};
use crate::document::{
    copy_text, opt_chars, span_views, Align, BlockEdit, BlockRewrite, BlockTransform, EditView,
    FontRequest, FontRequestView, RewriteView, Script, SpanView, StyledSpan,
};
use crate::geometry::{abs_of, Rect};
use crate::rich_text::{run_views, span_of, spans_of, RichText, Run, RunView, TextView};
use crate::units::{Color, Points, POINT};
use vstd::prelude::*;

verus! {

/// The font of a block, read from the document itself.
#[derive(Debug)]
pub struct PageFont {
    /// The name as it is written in the document.
    pub base_font: String,
    pub size: Points,
    pub color: Option<Color>,
    /// Whether the document carries the font.
    pub embedded: bool,
}

/// A paragraph that is being edited, with the state of the panel.
#[derive(Debug)]
pub struct Selection {
    pub page: u32,
    /// The frame of the paragraph that was found. The text that is replaced is
    /// known by it, so it never changes.
    pub bbox: Rect,
    /// The frame on the screen: where the new text goes.
    pub frame: Rect,
    pub family: String,
    pub size: Points,
    /// The text when the paragraph was selected.
    pub original_text: String,
    pub lines: usize,
    /// The named style that the block came with.
    pub seeded_style_id: Option<i64>,
    pub align: Align,
    /// The alignment or the leading was changed by hand.
    pub needs_retypeset: bool,
    pub line_height: Option<Points>,
    pub page_font: Option<PageFont>,
    pub owner: Option<i64>,
    /// Something was changed: a press beside the block applies it.
    pub touched: bool,
    pub char_spacing_override: Option<Points>,
    pub h_scale_override: Option<Points>,
    pub seeded_char_spacing: Points,
    pub seeded_h_scale: Points,
    pub para_spacing_override: Option<Points>,
    pub fill: Option<Color>,
    /// The named style that the block follows.
    pub style_id: Option<i64>,
    /// The block is new: there is nothing on the page yet.
    pub creating: bool,
    /// In degrees.
    pub rotation: i64,
}

impl Selection {
    /// The size that the block has in the document.
    pub open spec fn original_size(self) -> Points {
        match self.page_font {
            Some(font) => font.size,
            None => self.size,
        }
    }

    /// By how much the frame is wider than it was.
    pub open spec fn frame_width_change(self) -> int {
        (self.frame.right - self.frame.left) - (self.bbox.right - self.bbox.left)
    }
}

/// The font of the panel and what the system knows of the fonts.
#[derive(Debug)]
pub struct FontChoice {
    /// The family that the panel shows.
    pub family: String,
    /// The size that the panel shows.
    pub size: Points,
    /// A face that was picked by name.
    pub face: Option<String>,
    /// Whether the family of the panel is the one of the block, however the
    /// two are spelt.
    pub same_family: bool,
    /// A substitute that was chosen for the font of the block.
    pub manual: Option<String>,
    /// Whether the font of the block is installed.
    pub installed: bool,
    /// The installed family that is nearest in spirit.
    pub suggestion: Option<String>,
}

/// Whether every run leaves the letters as they are.
pub open spec fn all_keep_typesetting(runs: Seq<RunView>) -> bool {
    forall|i: int| 0 <= i < runs.len() ==> (#[trigger] runs[i]).style.keeps_typesetting()
}

/// Whether the block only has to be moved: nothing of its text or of its look
/// was changed, but for the colour, and the frame is as wide as it was.
pub open spec fn only_moved(s: Selection, text: TextView, font: FontChoice) -> bool {
    &&& !s.creating
    &&& s.style_id == s.seeded_style_id
    &&& s.char_spacing_override is None
    &&& s.h_scale_override is None
    &&& s.para_spacing_override is None
    &&& s.fill is None
    &&& !s.needs_retypeset
    &&& font.face is None && font.same_family
    &&& text.text() == s.original_text@
    &&& all_keep_typesetting(text.runs)
    &&& font.size == shown_size(s.size)
    &&& 2 * abs_of(s.frame_width_change()) < POINT
}

/// The substitute that the text is set with: the one that was chosen, or the
/// suggested one where there is no other way to set the block.
pub open spec fn substitute(s: Selection, font: FontChoice) -> Option<Seq<char>> {
    let embedded = match s.page_font {
        Some(page_font) => page_font.embedded,
        None => false,
    };
    if font.manual is Some {
        opt_chars(font.manual)
    } else if !embedded && !font.installed {
        opt_chars(font.suggestion)
    } else {
        None
    }
}

/// A span with a font of its own.
pub open spec fn with_font(
    span: SpanView,
    family: Seq<char>,
    face: Option<Seq<char>>,
) -> SpanView {
    SpanView {
        font: Some(
            crate::document::FontRequestView { family, bold: span.bold, italic: span.italic, face },
        ),
        page_family: None,
        ..span
    }
}

/// The span of a run in a rewrite.
///
/// The size of the panel goes to the spans that have none of their own. Its
/// family, and after it a substitute, goes to the runs for which no family was
/// picked, whatever font a change of weight has given them.
pub open spec fn edited_span(s: Selection, font: FontChoice, run: RunView) -> SpanView {
    let plain = span_of(run, font.family@);
    let sized = if 100 * abs_of(font.size - s.original_size()) > POINT && plain.size is None {
        SpanView { size: Some(font.size), ..plain }
    } else {
        plain
    };
    let named = if (s.creating || font.face is Some || !font.same_family) && run.style.family
        is None {
        with_font(sized, font.family@, opt_chars(font.face))
    } else {
        sized
    };
    if substitute(s, font) is Some && run.style.family is None {
        with_font(named, substitute(s, font)->0, None)
    } else {
        named
    }
}

/// The edit that a selection is turned into.
pub open spec fn edit_of(s: Selection, text: TextView, font: FontChoice) -> EditView {
    if only_moved(s, text, font) {
        EditView::Transform(
            BlockTransform {
                page_number: (s.page + 1) as u32,
                bbox: s.bbox,
                target: s.frame,
                rotation: s.rotation,
                color: one_color(text.runs),
                owner: s.owner,
            },
        )
    } else {
        EditView::Rewrite(
            RewriteView {
                page_number: (s.page + 1) as u32,
                bbox: s.bbox,
                target: Some(s.frame),
                spans: Seq::new(text.runs.len(), |i: int| edited_span(s, font, text.runs[i])),
                align: s.align,
                line_height: s.line_height,
                rotation: s.rotation,
                create: s.creating,
                owner: s.owner,
                char_spacing: s.char_spacing_override,
                h_scale: s.h_scale_override,
                para_spacing: s.para_spacing_override,
                fill: s.fill,
                style_id: s.style_id,
            },
        )
    }
}

/// Whether every run leaves the letters as they are.
fn keep_typesetting(runs: &[Run]) -> (r: bool)
    ensures
        r == all_keep_typesetting(run_views(runs@)),
{
    let ghost views = run_views(runs@);
    let mut i: usize = 0;
    while i < runs.len()
        invariant
            i <= runs@.len(),
            views == run_views(runs@),
            forall|k: int| 0 <= k < i ==> (#[trigger] views[k]).style.keeps_typesetting(),
        decreases runs@.len() - i,
    {
        if !runs[i].style.keeps_typesetting() {
            assert(!views[i as int].style.keeps_typesetting());
            return false;
        }
        i = i + 1;
    }
    true
}

/// Whether two optional numbers are the same.
pub fn same_id(a: Option<i64>, b: Option<i64>) -> (r: bool)
    ensures
        r == (a == b),
{
    match (a, b) {
        (Some(x), Some(y)) => x == y,
        (None, None) => true,
        _ => false,
    }
}

/// The size of a length without its sign.
fn magnitude(x: Points) -> (r: Points)
    requires
        x > i64::MIN,
    ensures
        r == abs_of(x as int),
{
    if x >= 0 {
        x
    } else {
        -x
    }
}

/// Gives a span a font of its own.
fn set_font(span: StyledSpan, family: &str, face: &Option<String>) -> (r: StyledSpan)
    ensures
        r@ == with_font(span@, family@, opt_chars(*face)),
{
    let mut span = span;
    span.font = Some(
        FontRequest {
            family: family.to_owned(),
            bold: span.bold,
            italic: span.italic,
            face: copy_text(face),
        },
    );
    span.page_family = None;
    span
}

impl Selection {
    /// Whether the selection can be computed with.
    pub open spec fn fits(self) -> bool {
        &&& self.page < u32::MAX
        &&& self.bbox.is_near()
        &&& self.frame.is_near()
        &&& -READABLE <= self.size <= READABLE
        &&& -READABLE <= self.original_size() <= READABLE
    }

    /// Whether the block only has to be moved.
    pub fn is_only_moved(&self, text: &RichText, font: &FontChoice) -> (r: bool)
        requires
            self.fits(),
        ensures
            r == only_moved(*self, text@, *font),
    {
        let change: Points = (self.frame.right - self.frame.left) - (self.bbox.right
            - self.bbox.left);
        !self.creating && same_id(self.style_id, self.seeded_style_id)
            && self.char_spacing_override.is_none() && self.h_scale_override.is_none()
            && self.para_spacing_override.is_none() && self.fill.is_none() && !self.needs_retypeset
            && font.face.is_none() && font.same_family && text.text() == self.original_text
            && keep_typesetting(text.runs()) && font.size == seeded_size(self.size) && 2
            * magnitude(change) < POINT
    }

    /// The substitute that the text is set with.
    fn substitute(&self, font: &FontChoice) -> (r: Option<String>)
        ensures
            opt_chars(r) == substitute(*self, *font),
    {
        let embedded = match &self.page_font {
            Some(page_font) => page_font.embedded,
            None => false,
        };
        if font.manual.is_some() {
            copy_text(&font.manual)
        } else if !embedded && !font.installed {
            copy_text(&font.suggestion)
        } else {
            None
        }
    }

    /// The span of a run in a rewrite.
    fn span(&self, font: &FontChoice, substitute_family: &Option<String>, run: &Run, plain: StyledSpan) -> (r:
        StyledSpan)
        requires
            self.fits(),
            -READABLE <= font.size <= READABLE,
            opt_chars(*substitute_family) == substitute(*self, *font),
            plain@ == span_of(run@, font.family@),
        ensures
            r@ == edited_span(*self, *font, run@),
    {
        let mut span = plain;
        let original: Points = match &self.page_font {
            Some(page_font) => page_font.size,
            None => self.size,
        };
        if 100 * magnitude(font.size - original) > POINT && span.size.is_none() {
            span.size = Some(font.size);
        }
        if (self.creating || font.face.is_some() || !font.same_family)
            && run.style.family.is_none() {
            span = set_font(span, font.family.as_str(), &font.face);
        }
        if let Some(family) = substitute_family {
            if run.style.family.is_none() {
                span = set_font(span, family.as_str(), &None);
            }
        }
        span
    }

    /// The edit that the selection is turned into. The same edit is shown
    /// while one types and applied in the end.
    ///
    /// A block that was only moved is moved, not set anew: that keeps every
    /// letter of it where it stands.
    pub fn pending_edit(&self, text: &RichText, font: &FontChoice) -> (r: BlockEdit)
        requires
            self.fits(),
            -READABLE <= font.size <= READABLE,
        ensures
            r@ == edit_of(*self, text@, *font),
    {
        if self.is_only_moved(text, font) {
            return BlockEdit::Transform(
                BlockTransform {
                    page_number: self.page + 1,
                    bbox: self.bbox,
                    target: self.frame,
                    rotation: self.rotation,
                    color: single_color(text),
                    owner: self.owner,
                },
            );
        }
        let substitute_family = self.substitute(font);
        let runs = text.runs();
        let plain = text.to_spans(font.family.as_str());
        let mut spans: Vec<StyledSpan> = Vec::new();
        let mut i: usize = 0;
        assert(span_views(plain@).len() == text@.runs.len());
        while i < runs.len()
            invariant
                self.fits(),
                -READABLE <= font.size <= READABLE,
                opt_chars(substitute_family) == substitute(*self, *font),
                run_views(runs@) == text@.runs,
                span_views(plain@) == spans_of(text@.runs, font.family@),
                plain@.len() == runs@.len(),
                i <= runs@.len(),
                spans@.len() == i,
                forall|k: int|
                    0 <= k < i ==> (#[trigger] spans@[k])@ == edited_span(
                        *self,
                        *font,
                        text@.runs[k],
                    ),
            decreases runs@.len() - i,
        {
            assert(span_views(plain@)[i as int] == plain@[i as int]@);
            assert(text@.runs[i as int] == runs@[i as int]@);
            let span = self.span(font, &substitute_family, &runs[i], plain[i].clone());
            spans.push(span);
            i = i + 1;
        }
        let edit = BlockRewrite {
            page_number: self.page + 1,
            bbox: self.bbox,
            target: Some(self.frame),
            spans,
            align: self.align,
            line_height: self.line_height,
            rotation: self.rotation,
            create: self.creating,
            owner: self.owner,
            char_spacing: self.char_spacing_override,
            h_scale: self.h_scale_override,
            para_spacing: self.para_spacing_override,
            fill: self.fill,
            style_id: self.style_id,
        };
        assert(edit@.spans == Seq::new(
            text@.runs.len(),
            |i: int| edited_span(*self, *font, text@.runs[i]),
        ));
        BlockEdit::Rewrite(edit)
    }
}

/// An edit is always of the selected block: it takes the text out where it
/// was and puts it where the frame is.
pub proof fn an_edit_is_of_the_selected_block(s: Selection, text: TextView, font: FontChoice)
    ensures
        match edit_of(s, text, font) {
            EditView::Transform(edit) => edit.bbox == s.bbox && edit.target == s.frame && edit.owner
                == s.owner,
            EditView::Rewrite(edit) => edit.bbox == s.bbox && edit.target == Some(s.frame)
                && edit.owner == s.owner,
            EditView::Erase(_) => false,
        },
{
}

/// A block one run of which, whichever it is, was given a family, a size, a weight
/// or slant other than the document has, an underline or a script is set anew.
pub proof fn an_edited_run_is_set_anew(s: Selection, text: TextView, font: FontChoice, i: int)
    requires
        0 <= i < text.runs.len(),
        ({
            let style = text.runs[i].style;
            ||| style.family is Some
            ||| style.size is Some
            ||| style.bold != style.document_bold
            ||| style.italic != style.document_italic
            ||| style.underline
            ||| style.script != Script::Baseline
        }),
    ensures
        edit_of(s, text, font) is Rewrite,
{
    assert(!text.runs[i].style.keeps_typesetting());
}

/// A block is moved, not set anew, just where nothing but its place, its angle and
/// its colour changed: the text is the one it came with, every run has the look of
/// the document, the panel shows its font and its size and asks for nothing else,
/// and the frame is as wide as it was, to half a point.
pub proof fn a_block_is_moved_where_nothing_else_changed(
    s: Selection,
    text: TextView,
    font: FontChoice,
)
    ensures
        edit_of(s, text, font) is Transform <==> {
            &&& text.text() == s.original_text@
            &&& forall|i: int|
                0 <= i < text.runs.len() ==> {
                    let style = (#[trigger] text.runs[i]).style;
                    &&& style.family is None
                    &&& style.size is None
                    &&& style.bold == style.document_bold
                    &&& style.italic == style.document_italic
                    &&& !style.underline
                    &&& style.script == Script::Baseline
                }
            &&& font.same_family
            &&& font.face is None
            &&& font.size == shown_size(s.size)
            &&& !s.creating
            &&& !s.needs_retypeset
            &&& s.style_id == s.seeded_style_id
            &&& s.char_spacing_override is None
            &&& s.h_scale_override is None
            &&& s.para_spacing_override is None
            &&& s.fill is None
            &&& -(POINT / 2) < (s.frame.right - s.frame.left) - (s.bbox.right - s.bbox.left)
                < POINT / 2
        },
{
    let kept = forall|i: int|
        0 <= i < text.runs.len() ==> {
            let style = (#[trigger] text.runs[i]).style;
            &&& style.family is None
            &&& style.size is None
            &&& style.bold == style.document_bold
            &&& style.italic == style.document_italic
            &&& !style.underline
            &&& style.script == Script::Baseline
        };
    if all_keep_typesetting(text.runs) {
        assert forall|i: int| 0 <= i < text.runs.len() implies {
            let style = (#[trigger] text.runs[i]).style;
            &&& style.family is None
            &&& style.size is None
            &&& style.bold == style.document_bold
            &&& style.italic == style.document_italic
            &&& !style.underline
            &&& style.script == Script::Baseline
        } by {
            assert(text.runs[i].style.keeps_typesetting());
        }
    }
    assert(kept == all_keep_typesetting(text.runs));
}

/// A block that is moved is recoloured where all of its runs were given one
/// colour, and only there.
pub proof fn a_moved_block_takes_a_colour_that_all_of_it_got(
    s: Selection,
    text: TextView,
    font: FontChoice,
    color: Color,
)
    requires
        edit_of(s, text, font) is Transform,
    ensures
        edit_of(s, text, font)->Transform_0.color == Some(color) <==> text.runs.len() > 0
            && forall|i: int|
            0 <= i < text.runs.len() ==> (#[trigger] text.runs[i]).style.color == Some(color),
{
    if text.runs.len() > 0 && (forall|i: int|
        0 <= i < text.runs.len() ==> (#[trigger] text.runs[i]).style.color == Some(color)) {
        assert(text.runs[0].style.color == Some(color));
    }
}

/// Whatever an edit is, it says what the selection says: the page, counted from
/// one, the angle, and, where the block is set anew, how its lines are set.
pub proof fn an_edit_says_what_the_selection_says(s: Selection, text: TextView, font: FontChoice)
    requires
        s.page < u32::MAX,
    ensures
        match edit_of(s, text, font) {
            EditView::Transform(edit) => edit.page_number == s.page + 1 && edit.rotation
                == s.rotation,
            EditView::Rewrite(edit) => {
                &&& edit.page_number == s.page + 1
                &&& edit.rotation == s.rotation
                &&& edit.align == s.align
                &&& edit.line_height == s.line_height
                &&& edit.create == s.creating
                &&& edit.char_spacing == s.char_spacing_override
                &&& edit.h_scale == s.h_scale_override
                &&& edit.para_spacing == s.para_spacing_override
                &&& edit.fill == s.fill
                &&& edit.style_id == s.style_id
            },
            EditView::Erase(_) => false,
        },
{
}

/// The size and the colour of a span are the run's own, else those of the
/// document; where neither gives a size, one that was typed into the panel counts.
pub proof fn a_span_has_the_size_of_its_run(s: Selection, text: TextView, font: FontChoice, i: int)
    requires
        edit_of(s, text, font) is Rewrite,
        0 <= i < text.runs.len(),
    ensures
        ({
            let span = edit_of(s, text, font)->Rewrite_0.spans[i];
            let style = text.runs[i].style;
            let original = match s.page_font {
                Some(page_font) => page_font.size,
                None => s.size,
            };
            let typed = 100 * (font.size - original) > POINT || 100 * (original - font.size)
                > POINT;
            &&& style.size is Some ==> span.size == style.size
            &&& style.size is None && style.document_size is Some ==> span.size
                == style.document_size
            &&& style.size is None && style.document_size is None && typed ==> span.size == Some(
                font.size,
            )
            &&& style.size is None && style.document_size is None && !typed ==> span.size is None
            &&& style.color is Some ==> span.color == style.color
            &&& style.color is None ==> span.color == style.document_color
            &&& span.underline == style.underline
            &&& style.script != Script::Baseline ==> span.script == style.script
            &&& style.script == Script::Baseline ==> span.script == style.document_script
        }),
{
}

/// The font of a span: the family that the run was given; else the substitute,
/// which was chosen or which there is no way around; else that of the panel, where
/// it is not the block's; else none, so that the letters of the page stay, unless
/// weight or slant changed.
pub proof fn a_span_has_the_font_that_was_asked_for(
    s: Selection,
    text: TextView,
    font: FontChoice,
    i: int,
)
    requires
        edit_of(s, text, font) is Rewrite,
        0 <= i < text.runs.len(),
    ensures
        ({
            let span = edit_of(s, text, font)->Rewrite_0.spans[i];
            let style = text.runs[i].style;
            let embedded = s.page_font is Some && s.page_font->0.embedded;
            let suggested = !embedded && !font.installed && font.suggestion is Some;
            let panel = s.creating || font.face is Some || !font.same_family;
            let changed = style.bold != style.document_bold || style.italic
                != style.document_italic;
            let asked = |family: Seq<char>, face: Option<Seq<char>>|
                Some(
                    FontRequestView { family, bold: style.bold, italic: style.italic, face },
                );
            &&& span.font is Some ==> span.page_family is None
            &&& style.family is Some ==> span.font == asked(style.family->0, None)
            &&& style.family is None && font.manual is Some ==> span.font == asked(
                font.manual->0@,
                None,
            )
            &&& style.family is None && font.manual is None && suggested ==> span.font == asked(
                font.suggestion->0@,
                None,
            )
            &&& style.family is None && font.manual is None && !suggested && panel ==> span.font
                == asked(font.family@, opt_chars(font.face))
            &&& style.family is None && font.manual is None && !suggested && !panel && changed
                && style.document_family is Some ==> span.font == asked(
                style.document_family->0,
                None,
            )
            &&& style.family is None && font.manual is None && !suggested && !panel && changed
                && style.document_family is None ==> span.font == asked(font.family@, None)
            &&& style.family is None && font.manual is None && !suggested && !panel && !changed
                ==> span.font is None && span.page_family == style.document_family
        }),
{
}

/// A rewrite keeps the characters, their weight, slant and script.
pub proof fn a_rewrite_keeps_the_text(s: Selection, text: TextView, font: FontChoice, i: int)
    requires
        edit_of(s, text, font) is Rewrite,
        0 <= i < text.runs.len(),
    ensures
        ({
            let spans = edit_of(s, text, font)->Rewrite_0.spans;
            &&& spans.len() == text.runs.len()
            &&& spans[i].text == text.runs[i].text
            &&& spans[i].bold == text.runs[i].style.bold
            &&& spans[i].italic == text.runs[i].style.italic
            &&& spans[i].script == text.runs[i].style.shown_script()
            &&& text.runs[i].style.family is Some ==> spans[i].font == text.runs[i].style.font(
                font.family@,
            )
        }),
{
}

} // verus!
