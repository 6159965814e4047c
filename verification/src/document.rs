//! What the editor knows of a document: fonts, spans, blocks and the edits
//! that it asks the document for.
use crate::geometry::Rect;
use crate::units::{Color, Points};
use vstd::prelude::*;

verus! {

/// Where a piece of text sits relative to the line.
#[derive(Clone, Copy, Debug, PartialEq, Eq, Structural)]
pub enum Script {
    Baseline,
    Superscript,
    Subscript,
}

/// The characters of an optional string.
pub open spec fn opt_chars(text: Option<String>) -> Option<Seq<char>> {
    match text {
        Some(text) => Some(text@),
        None => None,
    }
}

/// Whether two optional strings hold the same characters.
pub fn same_text(a: &Option<String>, b: &Option<String>) -> (r: bool)
    ensures
        r == (opt_chars(*a) == opt_chars(*b)),
{
    match (a, b) {
        (Some(x), Some(y)) => *x == *y,
        (None, None) => true,
        _ => false,
    }
}

/// A copy of an optional string.
pub fn copy_text(text: &Option<String>) -> (r: Option<String>)
    ensures
        r == *text,
{
    match text {
        Some(text) => Some(text.clone()),
        None => None,
    }
}

/// The font that a span asks for.
#[derive(Debug)]
pub struct FontRequest {
    pub family: String,
    pub bold: bool,
    pub italic: bool,
    /// One face of the family, where one was picked by name.
    pub face: Option<String>,
}

/// What a [`FontRequest`] says.
#[verifier::ext_equal]
pub struct FontRequestView {
    pub family: Seq<char>,
    pub bold: bool,
    pub italic: bool,
    pub face: Option<Seq<char>>,
}

impl View for FontRequest {
    type V = FontRequestView;

    open spec fn view(&self) -> FontRequestView {
        FontRequestView {
            family: self.family@,
            bold: self.bold,
            italic: self.italic,
            face: opt_chars(self.face),
        }
    }
}

/// A request for a family in the given style, with no face picked.
pub open spec fn plain_request(family: Seq<char>, bold: bool, italic: bool) -> FontRequestView {
    FontRequestView { family, bold, italic, face: None }
}

impl FontRequest {
    /// A request for a family in the given style.
    pub fn new(family: &str, bold: bool, italic: bool) -> (r: FontRequest)
        ensures
            r@ == plain_request(family@, bold, italic),
    {
        FontRequest { family: family.to_owned(), bold, italic, face: None }
    }
}

impl Clone for FontRequest {
    fn clone(&self) -> (r: FontRequest)
        ensures
            r == *self,
    {
        FontRequest {
            family: self.family.clone(),
            bold: self.bold,
            italic: self.italic,
            face: copy_text(&self.face),
        }
    }
}

/// A piece of text in the form in which it is written into a document.
#[derive(Debug)]
pub struct StyledSpan {
    pub text: String,
    /// The page font that the piece stays with while no other is asked for.
    pub page_family: Option<String>,
    pub font: Option<FontRequest>,
    pub size: Option<Points>,
    pub color: Option<Color>,
    pub script: Script,
    pub underline: bool,
    pub bold: bool,
    pub italic: bool,
}

/// What a [`StyledSpan`] says.
#[verifier::ext_equal]
pub struct SpanView {
    pub text: Seq<char>,
    pub page_family: Option<Seq<char>>,
    pub font: Option<FontRequestView>,
    pub size: Option<Points>,
    pub color: Option<Color>,
    pub script: Script,
    pub underline: bool,
    pub bold: bool,
    pub italic: bool,
}

/// What an optional font request says.
pub open spec fn opt_request(font: Option<FontRequest>) -> Option<FontRequestView> {
    match font {
        Some(font) => Some(font@),
        None => None,
    }
}

impl View for StyledSpan {
    type V = SpanView;

    open spec fn view(&self) -> SpanView {
        SpanView {
            text: self.text@,
            page_family: opt_chars(self.page_family),
            font: opt_request(self.font),
            size: self.size,
            color: self.color,
            script: self.script,
            underline: self.underline,
            bold: self.bold,
            italic: self.italic,
        }
    }
}

/// What a list of spans says.
pub open spec fn span_views(spans: Seq<StyledSpan>) -> Seq<SpanView> {
    Seq::new(spans.len(), |i: int| spans[i]@)
}

/// What spans read as, one after another.
pub open spec fn read_spans(spans: Seq<SpanView>) -> Seq<char>
    decreases spans.len(),
{
    if spans.len() == 0 {
        Seq::empty()
    } else {
        read_spans(spans.drop_last()) + spans.last().text
    }
}

impl Clone for StyledSpan {
    fn clone(&self) -> (r: StyledSpan)
        ensures
            r == *self,
    {
        StyledSpan {
            text: self.text.clone(),
            page_family: copy_text(&self.page_family),
            font: match &self.font {
                Some(font) => Some(font.clone()),
                None => None,
            },
            size: self.size,
            color: self.color,
            script: self.script,
            underline: self.underline,
            bold: self.bold,
            italic: self.italic,
        }
    }
}

/// How the lines of a paragraph are set.
#[derive(Clone, Copy, Debug, PartialEq, Eq, Structural)]
pub enum Align {
    Left,
    Center,
    Right,
    Justify,
}

/// What the document says of the look of a piece of text.
#[derive(Debug)]
pub struct Style {
    /// The name of the family, without the marks of a subset or of a face.
    pub family: String,
    pub size: Points,
    pub color: Color,
    pub bold: bool,
    pub italic: bool,
}

impl Clone for Style {
    fn clone(&self) -> (r: Style)
        ensures
            r == *self,
    {
        Style {
            family: self.family.clone(),
            size: self.size,
            color: self.color,
            bold: self.bold,
            italic: self.italic,
        }
    }
}

/// A piece of a line on the page.
#[derive(Debug)]
pub struct BlockRun {
    pub text: String,
    pub style: Style,
    /// The ordinate that the letters stand on.
    pub baseline: Points,
}

/// A line on the page.
#[derive(Debug)]
pub struct BlockLine {
    pub runs: Vec<BlockRun>,
    pub baseline: Points,
    /// The size of its letters, indices left out.
    pub dominant_size: Points,
}

/// A paragraph that was found on a page.
#[derive(Debug)]
pub struct Block {
    pub bbox: Rect,
    pub lines: Vec<BlockLine>,
    /// The look of most of its letters.
    pub dominant: Style,
    /// The distance between its lines, where it has several.
    pub leading: Option<Points>,
    pub align: Align,
    /// In degrees.
    pub rotation: i64,
    /// The mark that an earlier edit left on the block.
    pub mark: Option<i64>,
    /// The named style that the block follows.
    pub style: Option<i64>,
}

/// Sets a block anew.
#[derive(Debug)]
pub struct BlockRewrite {
    /// Counted from one.
    pub page_number: u32,
    /// Where the text is that goes.
    pub bbox: Rect,
    /// Where the new text goes.
    pub target: Option<Rect>,
    pub spans: Vec<StyledSpan>,
    pub align: Align,
    pub line_height: Option<Points>,
    pub rotation: i64,
    /// There is no text to take out.
    pub create: bool,
    pub owner: Option<i64>,
    pub char_spacing: Option<Points>,
    pub h_scale: Option<Points>,
    pub para_spacing: Option<Points>,
    pub fill: Option<Color>,
    pub style_id: Option<i64>,
}

/// Moves, turns or recolours a block without setting it anew.
#[derive(Clone, Copy, Debug)]
pub struct BlockTransform {
    /// Counted from one.
    pub page_number: u32,
    pub bbox: Rect,
    pub target: Rect,
    pub rotation: i64,
    pub color: Option<Color>,
    pub owner: Option<i64>,
}

/// Takes a block off its page.
#[derive(Clone, Copy, Debug)]
pub struct BlockErase {
    /// Counted from one.
    pub page_number: u32,
    pub bbox: Rect,
    pub owner: Option<i64>,
}

/// A change of a block.
#[derive(Debug)]
pub enum BlockEdit {
    Rewrite(BlockRewrite),
    Transform(BlockTransform),
    Erase(BlockErase),
}

/// What a [`BlockRewrite`] says.
#[verifier::ext_equal]
pub struct RewriteView {
    pub page_number: u32,
    pub bbox: Rect,
    pub target: Option<Rect>,
    pub spans: Seq<SpanView>,
    pub align: Align,
    pub line_height: Option<Points>,
    pub rotation: i64,
    pub create: bool,
    pub owner: Option<i64>,
    pub char_spacing: Option<Points>,
    pub h_scale: Option<Points>,
    pub para_spacing: Option<Points>,
    pub fill: Option<Color>,
    pub style_id: Option<i64>,
}

impl View for BlockRewrite {
    type V = RewriteView;

    open spec fn view(&self) -> RewriteView {
        RewriteView {
            page_number: self.page_number,
            bbox: self.bbox,
            target: self.target,
            spans: span_views(self.spans@),
            align: self.align,
            line_height: self.line_height,
            rotation: self.rotation,
            create: self.create,
            owner: self.owner,
            char_spacing: self.char_spacing,
            h_scale: self.h_scale,
            para_spacing: self.para_spacing,
            fill: self.fill,
            style_id: self.style_id,
        }
    }
}

/// What a [`BlockEdit`] says.
#[verifier::ext_equal]
pub enum EditView {
    Rewrite(RewriteView),
    Transform(BlockTransform),
    Erase(BlockErase),
}

impl View for BlockEdit {
    type V = EditView;

    open spec fn view(&self) -> EditView {
        match self {
            BlockEdit::Rewrite(edit) => EditView::Rewrite(edit@),
            BlockEdit::Transform(edit) => EditView::Transform(*edit),
            BlockEdit::Erase(edit) => EditView::Erase(*edit),
        }
    }
}

/// What a list of edits says.
pub open spec fn edit_views(edits: Seq<BlockEdit>) -> Seq<EditView> {
    Seq::new(edits.len(), |i: int| edits[i]@)
}

/// A rewrite of a block in its place that changes nothing.
pub open spec fn plain_rewrite(
    page: u32,
    bbox: Rect,
    spans: Seq<SpanView>,
    align: Align,
    line_height: Option<Points>,
    rotation: i64,
    owner: Option<i64>,
) -> RewriteView {
    RewriteView {
        page_number: (page + 1) as u32,
        bbox,
        target: Some(bbox),
        spans,
        align,
        line_height,
        rotation,
        create: false,
        owner,
        char_spacing: None,
        h_scale: None,
        para_spacing: None,
        fill: None,
        style_id: None,
    }
}

} // verus!
