//! Styled text: the content of a tree node and the fragments that lines are composed of.

use vstd::prelude::*;
use crate::unicode::grapheme_clusters;

verus! {

/// The style of `tui`. The library carries styles from the content to the composed lines
/// and never looks inside one.
#[verifier::external_type_specification]
#[verifier::external_body]
pub struct ExStyle(tui::style::Style);

/// `Clone::clone` of the style of `tui`, which is `Copy`: the clone is the same style.
pub assume_specification[ <tui::style::Style as Clone>::clone ](style: &tui::style::Style) -> (copy:
    tui::style::Style)
    ensures
        copy == *style,
;

/// The style that `Style::patch` of `tui` makes of a style and a second one that is laid
/// over it.
pub uninterp spec fn patched_style(base: tui::style::Style, over: tui::style::Style) -> tui::style::Style;

/// `Style::patch` of `tui`: the style that comes of applying first `base`, then `over`. It
/// is a function of the two styles alone.
#[verifier::external_body]
pub(crate) fn patch_style(base: tui::style::Style, over: tui::style::Style) -> (style: tui::style::Style)
    ensures
        style == patched_style(base, over),
{
    base.patch(over)
}

/// Whether a style changes nothing: laid over any style, it leaves that style as it is.
pub open spec fn is_plain(style: tui::style::Style) -> bool {
    forall|base: tui::style::Style| #[trigger] patched_style(base, style) == base
}

/// `Style::default` of `tui`: the style that sets no colour and no modifier, so that
/// `Style::patch` with it gives back the style that it is laid over.
#[verifier::external_body]
pub(crate) fn default_style() -> (style: tui::style::Style)
    ensures
        is_plain(style),
{
    tui::style::Style::default()
}

/// A string in which all graphemes have the same style.
#[derive(Clone, Debug)]
pub struct Span {
    pub content: String,
    pub style: tui::style::Style,
}

impl Span {
    /// A span in the default style.
    pub fn raw(content: String) -> (span: Span)
        ensures
            span.content@ == content@,
            is_plain(span.style),
    {
        Span { content, style: default_style() }
    }

    /// A span in the given style.
    pub fn styled(content: String, style: tui::style::Style) -> (span: Span)
        ensures
            span.content@ == content@,
            span.style == style,
    {
        Span { content, style }
    }
}

/// The content of a node: lines, each made of spans.
#[derive(Clone, Debug)]
pub struct Text {
    pub lines: Vec<Vec<Span>>,
}

/// Where a line stands in the space that it is given.
#[derive(Clone, Copy, Debug, PartialEq, Eq, Structural)]
pub enum Alignment {
    Left,
    Center,
    Right,
}

/// A fragment of text that is never divided, with its style. It is meant to hold one
/// grapheme cluster.
#[derive(Clone, Debug)]
pub struct StyledGrapheme {
    pub symbol: String,
    pub style: tui::style::Style,
}

/// What a `StyledGrapheme` stands for in contracts.
pub struct GraphemeView {
    pub symbol: Seq<char>,
    pub style: tui::style::Style,
}

impl View for StyledGrapheme {
    type V = GraphemeView;

    open spec fn view(&self) -> GraphemeView {
        GraphemeView { symbol: self.symbol@, style: self.style }
    }
}

impl StyledGrapheme {
    pub fn new(symbol: String, style: tui::style::Style) -> (grapheme: StyledGrapheme)
        ensures
            grapheme@ == (GraphemeView { symbol: symbol@, style }),
    {
        StyledGrapheme { symbol, style }
    }

    /// A fragment with the same text and style.
    pub fn duplicate(&self) -> (grapheme: StyledGrapheme)
        ensures
            grapheme@ == self@,
    {
        StyledGrapheme { symbol: self.symbol.clone(), style: self.style.clone() }
    }
}

/// The views of a list of fragments.
pub open spec fn grapheme_views(list: Seq<StyledGrapheme>) -> Seq<GraphemeView> {
    Seq::new(list.len(), |i: int| list[i]@)
}

/// The grapheme clusters of a string without the line feeds among them, each in `style`.
pub open spec fn styled_clusters(content: Seq<char>, style: tui::style::Style) -> Seq<GraphemeView> {
    grapheme_clusters(content).filter(|cluster: Seq<char>| cluster != seq!['\n']).map_values(
        |cluster: Seq<char>| GraphemeView { symbol: cluster, style },
    )
}

/// `Span::styled_graphemes` of `tui`: the extended grapheme clusters of the span's content,
/// but for those that are a line feed, each in the span's style laid over `base_style`.
#[verifier::external_body]
pub(crate) fn span_graphemes(span: &Span, base_style: tui::style::Style) -> (graphemes: Vec<
    StyledGrapheme,
>)
    ensures
        grapheme_views(graphemes@) == styled_clusters(
            span.content@,
            patched_style(base_style, span.style),
        ),
{
    tui::text::Span::styled(span.content.as_str(), span.style).styled_graphemes(base_style).map(
        |grapheme| StyledGrapheme { symbol: String::from(grapheme.symbol), style: grapheme.style },
    ).collect()
}

/// What a span stands for in contracts.
pub struct SpanView {
    pub content: Seq<char>,
    pub style: tui::style::Style,
}

impl View for Span {
    type V = SpanView;

    open spec fn view(&self) -> SpanView {
        SpanView { content: self.content@, style: self.style }
    }
}

/// The fragments of the spans from `from` on, one span after the other.
pub open spec fn line_graphemes(spans: Seq<Span>, from: nat, base_style: tui::style::Style) -> Seq<
    GraphemeView,
>
    decreases spans.len() - from,
{
    if from >= spans.len() {
        Seq::empty()
    } else {
        styled_clusters(
            spans[from as int].content@,
            patched_style(base_style, spans[from as int].style),
        ) + line_graphemes(spans, from + 1, base_style)
    }
}

/// The fragments of a line of spans, each in its span's style laid over `base_style`.
pub fn styled_line(spans: &Vec<Span>, base_style: tui::style::Style) -> (line: Vec<StyledGrapheme>)
    ensures
        grapheme_views(line@) == line_graphemes(spans@, 0, base_style),
{
    let mut line: Vec<StyledGrapheme> = Vec::new();
    let mut i: usize = 0;
    proof {
        assert(grapheme_views(line@) + line_graphemes(spans@, 0, base_style) =~= line_graphemes(
            spans@,
            0,
            base_style,
        ));
    }
    while i < spans.len()
        invariant
            i <= spans@.len(),
            grapheme_views(line@) + line_graphemes(spans@, i as nat, base_style) == line_graphemes(
                spans@,
                0,
                base_style,
            ),
        decreases spans@.len() - i,
    {
        let ghost before = grapheme_views(line@);
        let mut graphemes = span_graphemes(&spans[i], base_style);
        let ghost added = grapheme_views(graphemes@);
        line.append(&mut graphemes);
        i += 1;
        proof {
            assert(grapheme_views(line@) =~= before + added);
            assert(before + (added + line_graphemes(spans@, i as nat, base_style)) =~= (before
                + added) + line_graphemes(spans@, i as nat, base_style));
        }
    }
    proof {
        assert(grapheme_views(line@) + Seq::<GraphemeView>::empty() =~= grapheme_views(line@));
    }
    line
}

} // verus!
