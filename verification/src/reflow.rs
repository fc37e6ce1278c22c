//! Composing the lines that are shown from the lines of a text: by wrapping at word
//! boundaries, or by cutting off what does not fit.

use vstd::prelude::*;
use crate::text::{grapheme_views, Alignment, GraphemeView, StyledGrapheme};
use crate::unicode::{display_width, is_whitespace, is_whitespace_char, symbol_width};
use crate::truncate::{cut_narrows, lemma_truncated_fits, truncate_symbols, truncated};
use crate::word_wrap::{
    all_below, fits_whole, kept_width, leading_whitespace, lemma_short_line_is_kept, lemma_wrap_lines_name_cells,
    lemma_wrapped_lines_fit, line_views, narrow_widths, range, width_of, wrap_cells, wrap_lines, Cell,
};

verus! {

/// Whether a fragment is whitespace at which a line may be broken: all its characters are
/// whitespace, and it is not the no-break space.
pub open spec fn is_whitespace_symbol(symbol: Seq<char>) -> bool {
    &&& forall|i: int| 0 <= i < symbol.len() ==> is_whitespace_char(#[trigger] symbol[i])
    &&& symbol != seq!['\u{a0}']
}

/// What is measured of a fragment.
pub open spec fn cell_of(symbol: Seq<char>) -> Cell {
    Cell { width: display_width(symbol) as usize, whitespace: is_whitespace_symbol(symbol) }
}

/// What is measured of the fragments of a line.
pub open spec fn cells_of(symbols: Seq<GraphemeView>) -> Seq<Cell> {
    Seq::new(symbols.len(), |i: int| cell_of(symbols[i].symbol))
}

fn symbol_is_whitespace(symbol: &str) -> (whitespace: bool)
    ensures
        whitespace == is_whitespace_symbol(symbol@),
{
    let length: usize = symbol.unicode_len();
    if length == 1 && symbol.get_char(0) == '\u{a0}' {
        proof {
            assert(symbol@ =~= seq!['\u{a0}']);
        }
        return false;
    }
    let mut i: usize = 0;
    while i < length
        invariant
            length == symbol@.len(),
            i <= length,
            forall|j: int| 0 <= j < i ==> is_whitespace_char(#[trigger] symbol@[j]),
        decreases length - i,
    {
        if !is_whitespace(symbol.get_char(i)) {
            return false;
        }
        i += 1;
    }
    proof {
        if symbol@ == seq!['\u{a0}'] {
            assert(symbol@.len() == 1);
            assert(symbol@[0] == '\u{a0}');
        }
    }
    true
}

/// Measures the fragments of a line.
pub fn measure(symbols: &Vec<StyledGrapheme>) -> (cells: Vec<Cell>)
    ensures
        cells@ == cells_of(grapheme_views(symbols@)),
{
    let mut cells: Vec<Cell> = Vec::new();
    let mut i: usize = 0;
    while i < symbols.len()
        invariant
            i <= symbols@.len(),
            cells@.len() == i,
            forall|j: int| 0 <= j < i ==> cells@[j] == cell_of(#[trigger] symbols@[j]@.symbol),
        decreases symbols@.len() - i,
    {
        let symbol = symbols[i].symbol.as_str();
        let width: usize = symbol_width(symbol);
        let whitespace = symbol_is_whitespace(symbol);
        cells.push(Cell { width, whitespace });
        i += 1;
    }
    proof {
        assert(cells@ =~= cells_of(grapheme_views(symbols@)));
    }
    cells
}

/// The fragments with the given indices.
pub open spec fn picked(symbols: Seq<GraphemeView>, indices: Seq<usize>) -> Seq<GraphemeView> {
    Seq::new(indices.len(), |k: int| symbols[indices[k] as int])
}

/// A line as it is shown.
pub struct Composed {
    /// The fragments of the line.
    pub line: Seq<GraphemeView>,
    /// The number of columns that they take.
    pub width: int,
    pub alignment: Alignment,
}

/// A width as 16 bits hold it.
pub open spec fn columns(width: int) -> u16 {
    (width % 0x1_0000) as u16
}

/// Whether what a composer gave out is the line `composed`.
pub open spec fn gives(given: (Vec<StyledGrapheme>, u16, Alignment), composed: Composed) -> bool {
    &&& grapheme_views(given.0@) == composed.line
    &&& given.1 == columns(composed.width)
    &&& given.2 == composed.alignment
}

/// A line of text with its alignment, as contracts see it.
pub open spec fn line_input(line: (Vec<StyledGrapheme>, Alignment)) -> (Seq<GraphemeView>, Alignment) {
    (grapheme_views(line.0@), line.1)
}

/// The lines of a text, as contracts see them.
pub open spec fn inputs(lines: Seq<(Vec<StyledGrapheme>, Alignment)>) -> Seq<
    (Seq<GraphemeView>, Alignment),
> {
    Seq::new(lines.len(), |i: int| line_input(lines[i]))
}

/// The lines that are shown for one line of text that is wrapped.
pub open spec fn wrapped_line(line: (Seq<GraphemeView>, Alignment), max: int, trim: bool) -> Seq<
    Composed,
> {
    let cells = cells_of(line.0);
    let lines = wrap_lines(cells, max, trim);
    Seq::new(
        lines.len(),
        |k: int|
            Composed {
                line: picked(line.0, lines[k]),
                width: width_of(cells, lines[k]),
                alignment: line.1,
            },
    )
}

/// The lines that are shown for the lines of text from `from` on.
pub open spec fn wrapped_from(
    lines: Seq<(Seq<GraphemeView>, Alignment)>,
    from: nat,
    max: int,
    trim: bool,
) -> Seq<Composed>
    decreases lines.len() - from,
{
    if from >= lines.len() {
        Seq::empty()
    } else {
        wrapped_line(lines[from as int], max, trim) + wrapped_from(lines, from + 1, max, trim)
    }
}

/// The lines that are shown for a text that is wrapped to `max` columns: those of its
/// first line, then those of its second, and so on; none at all where `max` is 0.
pub open spec fn wrapped_text(lines: Seq<(Seq<GraphemeView>, Alignment)>, max: int, trim: bool) -> Seq<
    Composed,
> {
    if max == 0 {
        Seq::empty()
    } else {
        wrapped_from(lines, 0, max, trim)
    }
}

/// No line that is shown for a wrapped line of text is wider than `max` columns, where
/// the fragments that are not passed over fit `max` columns together, or where each of
/// them is one column wide or a mark without width in a word.
pub proof fn lemma_wrapped_line_fits(line: (Seq<GraphemeView>, Alignment), max: int, trim: bool)
    requires
        max >= 1,
        line.0.len() <= usize::MAX,
        narrow_widths(cells_of(line.0), max) || kept_width(cells_of(line.0), line.0.len(), max)
            <= max,
    ensures
        forall|k: int|
            0 <= k < wrapped_line(line, max, trim).len() ==> (#[trigger] wrapped_line(
                line,
                max,
                trim,
            )[k]).width <= max,
{
    lemma_wrapped_lines_fit(cells_of(line.0), max, trim);
    assert forall|k: int| 0 <= k < wrapped_line(line, max, trim).len() implies (
    #[trigger] wrapped_line(line, max, trim)[k]).width <= max by {
        let lines = wrap_lines(cells_of(line.0), max, trim);
        assert(wrapped_line(line, max, trim)[k].width == width_of(cells_of(line.0), lines[k]));
    }
}

/// A line of text that fits `max` columns is shown as one line that holds all its
/// fragments in their order; where `trim` is set, without the whitespace that it starts
/// with.
pub proof fn lemma_short_line_is_shown_whole(line: (Seq<GraphemeView>, Alignment), max: int, trim: bool)
    requires
        fits_whole(cells_of(line.0), max),
    ensures
        wrapped_line(line, max, trim).len() == 1,
        wrapped_line(line, max, trim)[0].alignment == line.1,
        wrapped_line(line, max, trim)[0].line == line.0.skip(
            if trim {
                leading_whitespace(cells_of(line.0), line.0.len()) as int
            } else {
                0
            },
        ),
{
    let cells = cells_of(line.0);
    let lead = if trim {
        leading_whitespace(cells, line.0.len()) as int
    } else {
        0
    };
    lemma_short_line_is_kept(cells, max, trim);
    crate::word_wrap::lemma_leading_whitespace_in_range(cells, cells.len());
    let lines = wrap_lines(cells, max, trim);
    assert(lines[0] == range(lead, cells.len() as int));
    assert(wrapped_line(line, max, trim)[0].line =~= line.0.skip(lead));
}

/// Copies the fragments with the given indices, and adds up their widths.
fn compose(symbols: &Vec<StyledGrapheme>, cells: &Vec<Cell>, indices: &Vec<usize>) -> (composed: (
    Vec<StyledGrapheme>,
    u16,
))
    requires
        cells@.len() == symbols@.len(),
        all_below(indices@, symbols@.len() as int),
    ensures
        grapheme_views(composed.0@) == picked(grapheme_views(symbols@), indices@),
        composed.1 == columns(width_of(cells@, indices@)),
{
    let mut line: Vec<StyledGrapheme> = Vec::new();
    let mut width: u128 = 0;
    let mut k: usize = 0;
    while k < indices.len()
        invariant
            k <= indices@.len(),
            cells@.len() == symbols@.len(),
            all_below(indices@, symbols@.len() as int),
            line@.len() == k,
            forall|j: int| 0 <= j < k ==> (#[trigger] line@[j])@ == symbols@[indices@[j] as int]@,
            width == width_of(cells@, indices@.take(k as int)),
            width <= k * usize::MAX,
        decreases indices@.len() - k,
    {
        let index: usize = indices[k];
        assert(index < symbols@.len());
        proof {
            assert(indices@.take(k + 1).drop_last() =~= indices@.take(k as int));
            assert(k * usize::MAX + usize::MAX == (k + 1) * usize::MAX) by (nonlinear_arith);
            assert((k + 1) * usize::MAX <= usize::MAX * usize::MAX) by (nonlinear_arith)
                requires
                    k + 1 <= usize::MAX,
            ;
        }
        line.push(symbols[index].duplicate());
        width = width + cells[index].width as u128;
        k += 1;
    }
    proof {
        assert(indices@.take(indices@.len() as int) =~= indices@);
        assert(grapheme_views(line@) =~= picked(grapheme_views(symbols@), indices@));
    }
    (line, (width % 0x1_0000) as u16)
}

/// A composer gives out the lines that are shown for a text, one by one. It cannot be
/// started again.
pub trait LineComposer {
    /// Whether the composer is in a state that it can get into.
    spec fn wf(&self) -> bool;

    /// The lines that are still to be given out.
    spec fn remaining(&self) -> Seq<Composed>;

    /// Gives out the next line that is shown, with its width and alignment; `None` when
    /// all were given out.
    fn next_line(&mut self) -> (next: Option<(Vec<StyledGrapheme>, u16, Alignment)>)
        requires
            old(self).wf(),
        ensures
            final(self).wf(),
            old(self).remaining().len() == 0 ==> next.is_none() && final(self).remaining() == old(
                self,
            ).remaining(),
            old(self).remaining().len() > 0 ==> next.is_some() && gives(
                next.unwrap(),
                old(self).remaining()[0],
            ) && final(self).remaining() == old(self).remaining().drop_first(),
    ;
}

/// Wraps the lines of a text at word boundaries, and gives out the lines that are shown
/// one by one.
pub struct WordWrapper {
    /// The lines of the text.
    input_lines: Vec<(Vec<StyledGrapheme>, Alignment)>,
    /// How many of them were wrapped.
    taken: usize,
    max_line_width: u16,
    /// What was measured of the line that was last wrapped.
    cells: Vec<Cell>,
    /// The lines that it was wrapped into.
    wrapped_lines: Vec<Vec<usize>>,
    /// How many of them were given out.
    given: usize,
    /// Whether whitespace that would start a line is left out.
    trim: bool,
}

impl LineComposer for WordWrapper {
    /// What was wrapped last is what the wrapping of that line of text gives.
    closed spec fn wf(&self) -> bool {
        &&& self.taken <= self.input_lines@.len()
        &&& self.given <= self.wrapped_lines@.len()
        &&& self.taken == 0 ==> self.wrapped_lines@.len() == 0
        &&& self.taken > 0 ==> {
            let symbols = grapheme_views(self.input_lines@[self.taken - 1].0@);
            &&& self.cells@ == cells_of(symbols)
            &&& line_views(self.wrapped_lines@) == wrap_lines(
                self.cells@,
                self.max_line_width as int,
                self.trim,
            )
        }
    }

    closed spec fn remaining(&self) -> Seq<Composed> {
        let lines = inputs(self.input_lines@);
        let max = self.max_line_width as int;
        if max == 0 {
            Seq::empty()
        } else if self.taken == 0 {
            wrapped_from(lines, 0, max, self.trim)
        } else {
            wrapped_line(lines[self.taken - 1], max, self.trim).skip(self.given as int)
                + wrapped_from(lines, self.taken as nat, max, self.trim)
        }
    }

    fn next_line(&mut self) -> (next: Option<(Vec<StyledGrapheme>, u16, Alignment)>) {
        if self.max_line_width == 0 {
            return None;
        }
        let ghost lines = inputs(self.input_lines@);
        let ghost max = self.max_line_width as int;
        if self.given >= self.wrapped_lines.len() {
            if self.taken >= self.input_lines.len() {
                proof {
                    if self.taken > 0 {
                        assert(wrapped_line(lines[self.taken - 1], max, self.trim).skip(
                            self.given as int,
                        ) =~= Seq::<Composed>::empty());
                    }
                    assert(self.remaining() =~= Seq::<Composed>::empty());
                }
                return None;
            }
            let ghost before = self.remaining();
            proof {
                if self.taken > 0 {
                    assert(wrapped_line(lines[self.taken - 1], max, self.trim).skip(
                        self.given as int,
                    ) =~= Seq::<Composed>::empty());
                }
                assert(before =~= wrapped_from(lines, self.taken as nat, max, self.trim));
            }
            self.cells = measure(&self.input_lines[self.taken].0);
            self.wrapped_lines = wrap_cells(self.cells.as_slice(), self.max_line_width, self.trim);
            self.given = 0;
            self.taken = self.taken + 1;
            proof {
                assert(self.cells.len() == self.cells@.len());
                lemma_wrap_lines_name_cells(self.cells@, max, self.trim);
                assert(wrapped_line(lines[self.taken - 1], max, self.trim).skip(0)
                    =~= wrapped_line(lines[self.taken - 1], max, self.trim));
                assert(self.remaining() == before);
            }
        }
        let ghost before = self.remaining();
        let ghost current = wrapped_line(lines[self.taken - 1], max, self.trim);
        proof {
            assert(self.cells.len() == self.cells@.len());
            lemma_wrap_lines_name_cells(self.cells@, max, self.trim);
            assert(line_views(self.wrapped_lines@)[self.given as int]
                == self.wrapped_lines@[self.given as int]@);
            assert(before[0] == current[self.given as int]);
        }
        let symbols = &self.input_lines[self.taken - 1].0;
        let (line, width) = compose(symbols, &self.cells, &self.wrapped_lines[self.given]);
        let alignment = self.input_lines[self.taken - 1].1;
        self.given = self.given + 1;
        proof {
            assert(current.skip(self.given as int) =~= current.skip(self.given - 1).drop_first());
            assert(self.remaining() =~= before.drop_first());
        }
        Some((line, width, alignment))
    }
}

impl WordWrapper {
    /// A composer that wraps `lines` to `max_line_width` columns.
    pub fn new(lines: Vec<(Vec<StyledGrapheme>, Alignment)>, max_line_width: u16, trim: bool) -> (wrapper:
        WordWrapper)
        ensures
            wrapper.wf(),
            wrapper.remaining() == wrapped_text(inputs(lines@), max_line_width as int, trim),
    {
        WordWrapper {
            input_lines: lines,
            taken: 0,
            max_line_width,
            cells: Vec::new(),
            wrapped_lines: Vec::new(),
            given: 0,
            trim,
        }
    }
}

/// The line that is shown for a line of text that is cut to `max` columns. Only a line
/// that is aligned to the left is scrolled.
pub open spec fn truncated_line(line: (Seq<GraphemeView>, Alignment), max: int, offset: int) -> Composed {
    let cut = truncated(line.0, offset, line.1 == Alignment::Left, max);
    Composed { line: cut.0, width: cut.1, alignment: line.1 }
}

/// The line that is shown for a line of text that is cut is never wider than `max`
/// columns, if it is not scrolled, or if no fragment is wider when its start is scrolled
/// out of sight than it is whole.
pub proof fn lemma_truncated_line_fits(line: (Seq<GraphemeView>, Alignment), max: int, offset: int)
    requires
        0 <= max,
        0 <= offset,
        offset == 0 || line.1 != Alignment::Left || cut_narrows(line.0),
    ensures
        0 <= truncated_line(line, max, offset).width <= max,
{
    lemma_truncated_fits(line.0, 0, 0, offset, line.1 == Alignment::Left, max);
}

/// The lines that are shown for a text that is cut to `max` columns: one for each of its
/// lines; none at all where `max` is 0.
pub open spec fn truncated_text(lines: Seq<(Seq<GraphemeView>, Alignment)>, max: int, offset: int) -> Seq<
    Composed,
> {
    if max == 0 {
        Seq::empty()
    } else {
        Seq::new(lines.len(), |k: int| truncated_line(lines[k], max, offset))
    }
}

/// Cuts the lines of a text off where they outgrow the columns that they are given, and
/// gives out the lines that are shown one by one.
pub struct LineTruncator {
    /// The lines of the text.
    input_lines: Vec<(Vec<StyledGrapheme>, Alignment)>,
    /// How many of them were given out.
    taken: usize,
    max_line_width: u16,
    /// By how many columns the lines are scrolled.
    horizontal_offset: u16,
}

impl LineTruncator {
    /// The lines of the text that were not cut yet.
    pub closed spec fn pending(&self) -> Seq<(Seq<GraphemeView>, Alignment)> {
        inputs(self.input_lines@).skip(self.taken as int)
    }

    /// The number of columns that a line is cut to.
    pub closed spec fn max_width(&self) -> int {
        self.max_line_width as int
    }

    /// The number of columns by which the lines are scrolled.
    pub closed spec fn offset(&self) -> int {
        self.horizontal_offset as int
    }

    /// A composer that cuts `lines` to `max_line_width` columns and does not scroll them.
    pub fn new(lines: Vec<(Vec<StyledGrapheme>, Alignment)>, max_line_width: u16) -> (truncator:
        LineTruncator)
        ensures
            truncator.wf(),
            truncator.pending() == inputs(lines@),
            truncator.max_width() == max_line_width,
            truncator.offset() == 0,
    {
        let truncator = LineTruncator {
            input_lines: lines,
            taken: 0,
            max_line_width,
            horizontal_offset: 0,
        };
        proof {
            assert(inputs(lines@).skip(0) =~= inputs(lines@));
        }
        truncator
    }

    /// Scrolls the lines that are given out from now on by `horizontal_offset` columns.
    pub fn set_horizontal_offset(&mut self, horizontal_offset: u16)
        ensures
            final(self).offset() == horizontal_offset,
            final(self).pending() == old(self).pending(),
            final(self).max_width() == old(self).max_width(),
            old(self).wf() ==> final(self).wf(),
    {
        self.horizontal_offset = horizontal_offset;
    }
}

impl LineComposer for LineTruncator {
    closed spec fn wf(&self) -> bool {
        self.taken <= self.input_lines@.len()
    }

    open spec fn remaining(&self) -> Seq<Composed> {
        truncated_text(self.pending(), self.max_width(), self.offset())
    }

    fn next_line(&mut self) -> (next: Option<(Vec<StyledGrapheme>, u16, Alignment)>)
        ensures
            final(self).max_width() == old(self).max_width(),
            final(self).offset() == old(self).offset(),
            old(self).remaining().len() > 0 ==> final(self).pending() == old(self).pending().drop_first(),
    {
        if self.max_line_width == 0 || self.taken >= self.input_lines.len() {
            return None;
        }
        let ghost before = self.pending();
        let alignment = self.input_lines[self.taken].1;
        let left = match alignment {
            Alignment::Left => true,
            _ => false,
        };
        let (line, width) = truncate_symbols(
            &self.input_lines[self.taken].0,
            self.horizontal_offset as usize,
            left,
            self.max_line_width,
        );
        self.taken = self.taken + 1;
        proof {
            assert(before[0] == inputs(self.input_lines@)[self.taken - 1]);
            assert(self.pending() =~= before.drop_first());
            assert(self.remaining() =~= truncated_text(
                before,
                self.max_width(),
                self.offset(),
            ).drop_first());
        }
        Some((line, (width % 0x1_0000) as u16, alignment))
    }
}

} // verus!
