//! Styled text: lines made of spans, each with a style.

use vstd::prelude::*;

verus! {

/// One of the eight basic colours.
#[derive(Clone, Copy, Debug, PartialEq, Eq, Structural, Hash)]
pub enum BaseColor {
    /// Black.
    Black,
    /// Red.
    Red,
    /// Green.
    Green,
    /// Yellow.
    Yellow,
    /// Blue.
    Blue,
    /// Magenta.
    Magenta,
    /// Cyan.
    Cyan,
    /// White.
    White,
}

/// How a span of text is shown.
#[derive(Clone, Copy, Debug, PartialEq, Eq, Structural, Hash)]
pub struct Style {
    /// The colour of the text, if it has one of its own.
    pub color: Option<BaseColor>,
    /// Whether the colour is the light variant.
    pub light: bool,
    /// Whether the text is bold.
    pub bold: bool,
    /// Whether the text is dim.
    pub dim: bool,
    /// Whether the text is underlined.
    pub underline: bool,
}

/// The style of plain text.
pub open spec fn plain_style() -> Style {
    Style { color: None, light: false, bold: false, dim: false, underline: false }
}

impl Style {
    /// The style of plain text.
    pub fn plain() -> (r: Style)
        ensures
            r == plain_style(),
    {
        Style { color: None, light: false, bold: false, dim: false, underline: false }
    }
}

/// A run of text in one style.
#[derive(Debug, PartialEq, Eq, Hash)]
pub struct StyledSpan {
    /// The text.
    pub content: String,
    /// Its style.
    pub style: Style,
}

impl View for StyledSpan {
    type V = (Seq<char>, Style);

    open spec fn view(&self) -> (Seq<char>, Style) {
        (self.content@, self.style)
    }
}

/// A line of text: spans, one after the other.
#[derive(Debug, PartialEq, Eq, Hash)]
pub struct StyledString {
    /// The spans.
    pub spans: Vec<StyledSpan>,
}

impl View for StyledString {
    type V = Seq<(Seq<char>, Style)>;

    open spec fn view(&self) -> Seq<(Seq<char>, Style)> {
        Seq::new(self.spans@.len(), |i: int| self.spans@[i]@)
    }
}

/// A line that holds `text` as one plain span.
pub open spec fn plain_line(text: Seq<char>) -> Seq<(Seq<char>, Style)> {
    seq![(text, plain_style())]
}

/// The line with every span made bold.
pub open spec fn bold_line(line: Seq<(Seq<char>, Style)>) -> Seq<(Seq<char>, Style)> {
    Seq::new(line.len(), |i: int| (line[i].0, Style { bold: true, ..line[i].1 }))
}

/// The values of a run of lines.
pub open spec fn lines_view(lines: Seq<StyledString>) -> Seq<Seq<(Seq<char>, Style)>> {
    Seq::new(lines.len(), |i: int| lines[i]@)
}

impl Clone for StyledString {
    fn clone(&self) -> (r: StyledString)
        ensures
            r@ == self@,
    {
        let mut spans: Vec<StyledSpan> = Vec::new();
        let mut i: usize = 0;
        while i < self.spans.len()
            invariant
                i <= self.spans@.len(),
                spans@.len() == i,
                forall|k: int| 0 <= k < i ==> spans@[k]@ == self.spans@[k]@,
            decreases self.spans@.len() - i,
        {
            spans.push(
                StyledSpan { content: self.spans[i].content.clone(), style: self.spans[i].style },
            );
            i += 1;
        }
        let r = StyledString { spans };
        assert(r@ =~= self@);
        r
    }
}

impl StyledString {
    /// The line without text.
    pub fn new() -> (r: StyledString)
        ensures
            r@ == Seq::<(Seq<char>, Style)>::empty(),
    {
        let r = StyledString { spans: Vec::new() };
        assert(r@ =~= Seq::<(Seq<char>, Style)>::empty());
        r
    }

    /// The line that holds `text` as one plain span.
    pub fn plain(text: String) -> (r: StyledString)
        ensures
            r@ == plain_line(text@),
    {
        let mut spans: Vec<StyledSpan> = Vec::new();
        spans.push(StyledSpan { content: text, style: Style::plain() });
        let r = StyledString { spans };
        assert(r@ =~= plain_line(text@));
        r
    }

    /// Adds `text` to the line as a plain span.
    pub fn append_plain(&mut self, text: String)
        ensures
            final(self)@ == old(self)@ + plain_line(text@),
    {
        let ghost before = self@;
        self.spans.push(StyledSpan { content: text, style: Style::plain() });
        assert(self@ =~= before + plain_line(text@));
    }

    /// Adds the spans of `other` to the line.
    pub fn append(&mut self, other: StyledString)
        ensures
            final(self)@ == old(self)@ + other@,
    {
        let ghost before = self@;
        let mut other = other;
        let ghost tail = other@;
        self.spans.append(&mut other.spans);
        assert(self@ =~= before + tail);
    }

    /// The line with every span made bold.
    pub fn into_bold(self) -> (r: StyledString)
        ensures
            r@ == bold_line(self@),
    {
        let mut spans = self.spans;
        let ghost start = spans@;
        let mut i: usize = 0;
        while i < spans.len()
            invariant
                i <= spans@.len(),
                spans@.len() == start.len(),
                forall|k: int|
                    0 <= k < i ==> (#[trigger] spans@[k])@ == (
                        start[k].content@,
                        Style { bold: true, ..start[k].style },
                    ),
                forall|k: int| i <= k < spans@.len() ==> spans@[k] == start[k],
            decreases spans@.len() - i,
        {
            spans[i].style.bold = true;
            i += 1;
        }
        let r = StyledString { spans };
        assert(r@ =~= bold_line(self@));
        r
    }
}

} // verus!
