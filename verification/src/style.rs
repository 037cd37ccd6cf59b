//! Styled text: what a terminal is asked to show.
use vstd::prelude::*;

verus! {

/// The colors in use.
#[derive(Debug, Clone, Copy, PartialEq, Eq, Structural)]
pub enum Color {
    Red,
    Green,
    Yellow,
    Magenta,
    Cyan,
    Gray,
    DarkGray,
    LightRed,
    LightMagenta,
    LightCyan,
    White,
}

/// A color by its parts.
#[derive(Debug, Clone, Copy, PartialEq, Eq, Structural)]
pub struct Rgb {
    pub red: u8,
    pub green: u8,
    pub blue: u8,
}

/// How a piece of text looks. No color stands for the terminal's own.
#[derive(Debug, Clone, Copy, PartialEq, Eq, Structural)]
pub struct Style {
    pub fg: Option<Color>,
    pub bold: bool,
    pub dim: bool,
    pub italic: bool,
    pub underlined: bool,
    pub reversed: bool,
    pub crossed_out: bool,
}

impl Style {
    pub open spec fn plain_spec() -> Style {
        Style {
            fg: None,
            bold: false,
            dim: false,
            italic: false,
            underlined: false,
            reversed: false,
            crossed_out: false,
        }
    }

    pub open spec fn of(color: Color) -> Style {
        Style { fg: Some(color), ..Style::plain_spec() }
    }

    pub open spec fn strong(color: Color) -> Style {
        Style { fg: Some(color), bold: true, ..Style::plain_spec() }
    }

    pub open spec fn heading_spec() -> Style {
        Style { bold: true, underlined: true, ..Style::plain_spec() }
    }

    pub open spec fn emphasis_spec() -> Style {
        Style { bold: true, ..Style::plain_spec() }
    }

    pub open spec fn section_spec() -> Style {
        Style { fg: Some(Color::White), ..Style::heading_spec() }
    }

    /// The terminal's own style.
    pub fn plain() -> (r: Style)
        ensures
            r == Style::plain_spec(),
    {
        Style {
            fg: None,
            bold: false,
            dim: false,
            italic: false,
            underlined: false,
            reversed: false,
            crossed_out: false,
        }
    }

    /// A color.
    pub fn fg(color: Color) -> (r: Style)
        ensures
            r == Style::of(color),
    {
        let mut s = Style::plain();
        s.fg = Some(color);
        s
    }

    /// A color, in bold.
    pub fn bold(color: Color) -> (r: Style)
        ensures
            r == Style::strong(color),
    {
        let mut s = Style::fg(color);
        s.bold = true;
        s
    }

    /// Bold and underlined.
    pub fn heading() -> (r: Style)
        ensures
            r == Style::heading_spec(),
    {
        let mut s = Style::plain();
        s.bold = true;
        s.underlined = true;
        s
    }

    pub open spec fn uncolored(self) -> Style {
        Style { fg: None, ..self }
    }

    /// The same without a color.
    pub fn colorless(self) -> (r: Style)
        ensures
            r == self.uncolored(),
    {
        let mut s = self;
        s.fg = None;
        s
    }

    /// Bold, in the terminal's own color.
    pub fn emphasis() -> (r: Style)
        ensures
            r == Style::emphasis_spec(),
    {
        let mut s = Style::plain();
        s.bold = true;
        s
    }

    /// White, bold and underlined.
    pub fn section() -> (r: Style)
        ensures
            r == Style::section_spec(),
    {
        let mut s = Style::heading();
        s.fg = Some(Color::White);
        s
    }
}

/// A piece of text in one style.
#[derive(Debug)]
pub struct Span {
    pub text: String,
    pub style: Style,
}

/// What a `Span` says.
pub struct SpanView {
    pub text: Seq<char>,
    pub style: Style,
}

impl DeepView for Span {
    type V = SpanView;

    open spec fn deep_view(&self) -> SpanView {
        SpanView { text: self.text@, style: self.style }
    }
}

impl SpanView {
    pub open spec fn of(text: Seq<char>, style: Style) -> SpanView {
        SpanView { text, style }
    }

    pub open spec fn raw(text: Seq<char>) -> SpanView {
        SpanView { text, style: Style::plain_spec() }
    }

    /// The same text without a color.
    pub open spec fn uncolored(self) -> SpanView {
        SpanView { style: self.style.uncolored(), ..self }
    }

    /// The same texts without colors.
    pub open spec fn all_uncolored(spans: Seq<SpanView>) -> Seq<SpanView> {
        spans.map_values(|s: SpanView| s.uncolored())
    }
}

impl Span {
    pub fn styled(text: String, style: Style) -> (r: Span)
        ensures
            r.deep_view() == SpanView::of(text@, style),
    {
        Span { text, style }
    }

    pub fn fixed(text: &str, style: Style) -> (r: Span)
        ensures
            r.deep_view() == SpanView::of(text@, style),
    {
        Span { text: text.to_owned(), style }
    }

    pub fn raw(text: &str) -> (r: Span)
        ensures
            r.deep_view() == SpanView::raw(text@),
    {
        Span { text: text.to_owned(), style: Style::plain() }
    }
}

/// The same texts without colors.
pub fn colorless_spans(spans: &Vec<Span>) -> (r: Vec<Span>)
    ensures
        r.deep_view() == SpanView::all_uncolored(spans.deep_view()),
{
    let ghost wanted = SpanView::all_uncolored(spans.deep_view());
    let mut r: Vec<Span> = Vec::new();
    let mut i: usize = 0;
    while i < spans.len()
        invariant
            i <= spans@.len(),
            wanted == SpanView::all_uncolored(spans.deep_view()),
            r.deep_view() =~= wanted.take(i as int),
        decreases spans@.len() - i,
    {
        let ghost before = r.deep_view();
        let s = Span { text: spans[i].text.clone(), style: spans[i].style.colorless() };
        let ghost sv = s.deep_view();
        r.push(s);
        proof {
            assert(sv == wanted[i as int]);
            assert(r.deep_view() =~= before.push(sv));
        }
        i = i + 1;
    }
    r
}

/// Where a line stands in its row.
#[derive(Debug, Clone, Copy, PartialEq, Eq, Structural)]
pub enum Align {
    Left,
    Center,
    Right,
}

/// One row of text.
#[derive(Debug)]
pub struct Line {
    pub spans: Vec<Span>,
    pub align: Align,
}

/// What a `Line` says.
pub struct LineView {
    pub spans: Seq<SpanView>,
    pub align: Align,
}

impl DeepView for Line {
    type V = LineView;

    open spec fn deep_view(&self) -> LineView {
        LineView { spans: self.spans.deep_view(), align: self.align }
    }
}

impl LineView {
    pub open spec fn of(spans: Seq<SpanView>) -> LineView {
        LineView { spans, align: Align::Left }
    }

    /// The same line without colors.
    pub open spec fn uncolored(self) -> LineView {
        LineView { spans: SpanView::all_uncolored(self.spans), ..self }
    }

    pub open spec fn centered(span: SpanView) -> LineView {
        LineView { spans: seq![span], align: Align::Center }
    }

    pub open spec fn righted(span: SpanView) -> LineView {
        LineView { spans: seq![span], align: Align::Right }
    }

    pub open spec fn blank() -> LineView {
        LineView { spans: Seq::empty(), align: Align::Left }
    }
}

impl Line {
    pub fn of(spans: Vec<Span>) -> (r: Line)
        ensures
            r.deep_view() == LineView::of(spans.deep_view()),
    {
        Line { spans, align: Align::Left }
    }

    /// The same line without colors.
    pub fn colorless(&self) -> (r: Line)
        ensures
            r.deep_view() == self.deep_view().uncolored(),
    {
        Line { spans: colorless_spans(&self.spans), align: self.align }
    }

    pub fn single(span: Span) -> (r: Line)
        ensures
            r.deep_view() == LineView::of(seq![span.deep_view()]),
    {
        let mut spans: Vec<Span> = Vec::new();
        spans.push(span);
        proof {
            assert(spans.deep_view() =~= seq![span.deep_view()]);
        }
        Line { spans, align: Align::Left }
    }

    pub fn centered(span: Span) -> (r: Line)
        ensures
            r.deep_view() == LineView::centered(span.deep_view()),
    {
        let mut spans: Vec<Span> = Vec::new();
        spans.push(span);
        proof {
            assert(spans.deep_view() =~= seq![span.deep_view()]);
        }
        Line { spans, align: Align::Center }
    }

    pub fn righted(span: Span) -> (r: Line)
        ensures
            r.deep_view() == LineView::righted(span.deep_view()),
    {
        let mut spans: Vec<Span> = Vec::new();
        spans.push(span);
        proof {
            assert(spans.deep_view() =~= seq![span.deep_view()]);
        }
        Line { spans, align: Align::Right }
    }

    pub fn blank() -> (r: Line)
        ensures
            r.deep_view() == LineView::blank(),
    {
        let spans: Vec<Span> = Vec::new();
        proof {
            assert(spans.deep_view() =~= Seq::empty());
        }
        Line { spans, align: Align::Left }
    }
}

} // verus!
