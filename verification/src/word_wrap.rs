//! Packing the fragments of one line into lines of a limited width, breaking between words.
//!
//! The layout works on what was measured of each fragment, and names the fragments by
//! their index in the line.

use vstd::prelude::*;

verus! {

/// What the layout needs to know of a fragment.
#[derive(Clone, Copy, Debug)]
pub struct Cell {
    /// The number of columns that the fragment takes.
    pub width: usize,
    /// Whether the fragment is whitespace at which the line may be broken.
    pub whitespace: bool,
}

/// The state of the layout between two fragments.
pub struct WrapState {
    /// The lines that are complete.
    pub lines: Seq<Seq<usize>>,
    /// The line that is being filled.
    pub line: Seq<usize>,
    /// The whitespace that was read since the line was last added to.
    pub spaces: Seq<usize>,
    /// The word that was read after that whitespace, as far as it was read.
    pub word: Seq<usize>,
    /// Whether the fragment that was last taken up belongs to a word.
    pub after_word: bool,
}

/// The state before the first fragment.
pub open spec fn initial() -> WrapState {
    WrapState {
        lines: Seq::empty(),
        line: Seq::empty(),
        spaces: Seq::empty(),
        word: Seq::empty(),
        after_word: false,
    }
}

/// The width of the fragments with the given indices together.
pub open spec fn width_of(cells: Seq<Cell>, indices: Seq<usize>) -> int
    decreases indices.len(),
{
    if indices.len() == 0 {
        0
    } else {
        width_of(cells, indices.drop_last()) + cells[indices.last() as int].width
    }
}

/// Whether the word and the whitespace before it go to the line before `cell` is taken up:
/// at the end of a word, and where the line is empty and what was read is about to
/// outgrow a line.
pub open spec fn must_flush(cells: Seq<Cell>, state: WrapState, cell: Cell, max: int, trim: bool) -> bool {
    let word = width_of(cells, state.word);
    let spaces = width_of(cells, state.spaces);
    ||| state.after_word && cell.whitespace
    ||| trim && state.line.len() == 0 && word + cell.width > max
    ||| trim && state.line.len() == 0 && spaces + cell.width > max
    ||| !trim && state.line.len() == 0 && word + spaces + cell.width > max
}

/// The state after the whitespace and the word have gone to the line. Whitespace that
/// would start the line is left out where `trim` is set.
pub open spec fn flush(state: WrapState, trim: bool) -> WrapState {
    let line = if state.line.len() > 0 || !trim {
        state.line + state.spaces
    } else {
        state.line
    };
    WrapState { line: line + state.word, spaces: Seq::empty(), word: Seq::empty(), ..state }
}

/// Whether the line is complete before `cell` is taken up: it is full, or it would be with
/// what was read since.
pub open spec fn must_seal(cells: Seq<Cell>, state: WrapState, cell: Cell, max: int) -> bool {
    let line = width_of(cells, state.line);
    ||| line >= max
    ||| line + width_of(cells, state.spaces) + width_of(cells, state.word) >= max && cell.width
        > 0
}

/// What is left of the whitespace `spaces` after a line was completed with `remaining`
/// columns to spare: the whitespace that still fits those columns is dropped, and so is
/// the first that does not. The second part tells whether all of it fitted.
pub open spec fn drop_leading(cells: Seq<Cell>, spaces: Seq<usize>, remaining: int) -> (Seq<usize>, bool)
    decreases spaces.len(),
{
    if spaces.len() == 0 {
        (spaces, true)
    } else {
        let width = cells[spaces[0] as int].width;
        if width > remaining {
            (spaces.drop_first(), false)
        } else {
            drop_leading(cells, spaces.drop_first(), remaining - width)
        }
    }
}

/// The columns that a line of the given width leaves free.
pub open spec fn columns_left(max: int, width: int) -> int {
    if max > width {
        max - width
    } else {
        0
    }
}

/// The state after the line was completed.
pub open spec fn seal(cells: Seq<Cell>, state: WrapState, max: int) -> WrapState {
    let remaining = columns_left(max, width_of(cells, state.line));
    WrapState {
        lines: state.lines.push(state.line),
        line: Seq::empty(),
        spaces: drop_leading(cells, state.spaces, remaining).0,
        ..state
    }
}

/// The state after the fragment at `index` has joined the whitespace or the word.
pub open spec fn append(state: WrapState, index: usize, cell: Cell) -> WrapState {
    if cell.whitespace {
        WrapState { spaces: state.spaces.push(index), after_word: false, ..state }
    } else {
        WrapState { word: state.word.push(index), after_word: true, ..state }
    }
}

/// The state after the fragment at `index`. A fragment that is wider than a line is passed
/// over. Whitespace that comes when a line has just been completed, and no other
/// whitespace is left, is dropped.
pub open spec fn step(cells: Seq<Cell>, state: WrapState, index: usize, max: int, trim: bool) -> WrapState {
    let cell = cells[index as int];
    if cell.width > max {
        state
    } else {
        let flushed = if must_flush(cells, state, cell, max, trim) {
            flush(state, trim)
        } else {
            state
        };
        if must_seal(cells, flushed, cell, max) {
            let sealed = seal(cells, flushed, max);
            let remaining = columns_left(max, width_of(cells, flushed.line));
            if cell.whitespace && drop_leading(cells, flushed.spaces, remaining).1 {
                sealed
            } else {
                append(sealed, index, cell)
            }
        } else {
            append(flushed, index, cell)
        }
    }
}

/// The state after the first `count` fragments.
pub open spec fn run(cells: Seq<Cell>, count: nat, max: int, trim: bool) -> WrapState
    decreases count,
{
    if count == 0 {
        initial()
    } else {
        step(cells, run(cells, (count - 1) as nat, max, trim), (count - 1) as usize, max, trim)
    }
}

/// The lines at the end of the input. What is left of the whitespace and the word goes to
/// the last line, but for whitespace that would start the line where `trim` is set. A
/// line that stays empty is left out, but there is always at least one line.
pub open spec fn finish(state: WrapState, trim: bool) -> Seq<Seq<usize>> {
    let line = if !trim || state.line.len() > 0 {
        state.line + state.spaces + state.word
    } else {
        state.line + state.word
    };
    let lines = if line.len() > 0 {
        state.lines.push(line)
    } else {
        state.lines
    };
    if lines.len() == 0 {
        seq![Seq::empty()]
    } else {
        lines
    }
}

/// The lines into which the fragments `cells` are packed, each a list of indices into
/// `cells`, where a line has `max` columns.
pub open spec fn wrap_lines(cells: Seq<Cell>, max: int, trim: bool) -> Seq<Seq<usize>> {
    finish(run(cells, cells.len(), max, trim), trim)
}

/// What a list of lines holds.
pub open spec fn line_views(lines: Seq<Vec<usize>>) -> Seq<Seq<usize>> {
    Seq::new(lines.len(), |i: int| lines[i]@)
}

/// Adding an index to a list adds the width of its fragment.
pub proof fn lemma_width_of_push(cells: Seq<Cell>, indices: Seq<usize>, index: usize)
    ensures
        width_of(cells, indices.push(index)) == width_of(cells, indices) + cells[index as int].width,
{
    assert(indices.push(index).drop_last() =~= indices);
}

/// The width of two lists joined is the sum of their widths.
pub proof fn lemma_width_of_concat(cells: Seq<Cell>, front: Seq<usize>, back: Seq<usize>)
    ensures
        width_of(cells, front + back) == width_of(cells, front) + width_of(cells, back),
    decreases back.len(),
{
    if back.len() == 0 {
        assert(front + back =~= front);
    } else {
        lemma_width_of_concat(cells, front, back.drop_last());
        assert((front + back).drop_last() =~= front + back.drop_last());
    }
}

/// No list has a negative width.
pub proof fn lemma_width_of_is_natural(cells: Seq<Cell>, indices: Seq<usize>)
    ensures
        width_of(cells, indices) >= 0,
    decreases indices.len(),
{
    if indices.len() > 0 {
        lemma_width_of_is_natural(cells, indices.drop_last());
    }
}

/// The width of a list is the width of its first fragment and of the rest.
pub proof fn lemma_width_of_front(cells: Seq<Cell>, indices: Seq<usize>)
    requires
        indices.len() > 0,
    ensures
        width_of(cells, indices) == cells[indices[0] as int].width + width_of(
            cells,
            indices.drop_first(),
        ),
{
    let first = seq![indices[0]];
    lemma_width_of_push(cells, Seq::empty(), indices[0]);
    assert(Seq::<usize>::empty().push(indices[0]) =~= first);
    lemma_width_of_concat(cells, first, indices.drop_first());
    assert(first + indices.drop_first() =~= indices);
}

/// Whether every index of the list is below `bound`.
pub open spec fn all_below(indices: Seq<usize>, bound: int) -> bool {
    forall|k: int| 0 <= k < indices.len() ==> #[trigger] indices[k] < bound
}

/// Drops the whitespace that goes with a completed line, see `drop_leading`. Returns what
/// is left, its width, and whether all of it fitted the columns that were left.
fn drop_leading_cells(cells: &[Cell], spaces: &Vec<usize>, width: u128, remaining: u128) -> (left: (
    Vec<usize>,
    u128,
    bool,
))
    requires
        all_below(spaces@, cells@.len() as int),
        width == width_of(cells@, spaces@),
    ensures
        (left.0@, left.2) == drop_leading(cells@, spaces@, remaining as int),
        left.1 == width_of(cells@, left.0@),
        left.1 <= width,
        all_below(left.0@, cells@.len() as int),
{
    let ghost goal = drop_leading(cells@, spaces@, remaining as int);
    let mut left_width: u128 = width;
    let mut columns: u128 = remaining;
    let mut from: usize = 0;
    let mut stopped = false;
    proof {
        assert(spaces@.skip(0) =~= spaces@);
    }
    while !stopped && from < spaces.len()
        invariant
            from <= spaces@.len(),
            all_below(spaces@, cells@.len() as int),
            left_width == width_of(cells@, spaces@.skip(from as int)),
            left_width <= width,
            !stopped ==> drop_leading(cells@, spaces@.skip(from as int), columns as int) == goal,
            stopped ==> (spaces@.skip(from as int), false) == goal,
        decreases spaces@.len() - from + (if stopped { 0int } else { 1int }),
    {
        let space_width: u128 = cells[spaces[from]].width as u128;
        proof {
            lemma_width_of_front(cells@, spaces@.skip(from as int));
            lemma_width_of_is_natural(cells@, spaces@.skip(from + 1));
            assert(spaces@.skip(from as int).drop_first() =~= spaces@.skip(from + 1));
            assert(spaces@.skip(from as int)[0] == spaces@[from as int]);
        }
        left_width = left_width - space_width;
        if space_width > columns {
            stopped = true;
        } else {
            columns = columns - space_width;
        }
        from += 1;
    }
    let mut left: Vec<usize> = Vec::new();
    let mut next: usize = from;
    while next < spaces.len()
        invariant
            from <= next <= spaces@.len(),
            left@ == spaces@.subrange(from as int, next as int),
        decreases spaces@.len() - next,
    {
        left.push(spaces[next]);
        proof {
            assert(spaces@.subrange(from as int, next as int).push(spaces@[next as int])
                =~= spaces@.subrange(from as int, next + 1));
        }
        next += 1;
    }
    proof {
        assert(spaces@.subrange(from as int, spaces@.len() as int) =~= spaces@.skip(from as int));
    }
    (left, left_width, !stopped)
}

/// The buffers of the layout, with the widths of what they hold.
struct Layout {
    lines: Vec<Vec<usize>>,
    line: Vec<usize>,
    line_width: u128,
    spaces: Vec<usize>,
    spaces_width: u128,
    word: Vec<usize>,
    word_width: u128,
    after_word: bool,
}

impl Layout {
    spec fn state(&self) -> WrapState {
        WrapState {
            lines: line_views(self.lines@),
            line: self.line@,
            spaces: self.spaces@,
            word: self.word@,
            after_word: self.after_word,
        }
    }

    /// The widths are those of the buffers, and the buffers hold only fragments among the
    /// first `count`, which are too few and too narrow for the widths to overflow.
    spec fn wf(&self, cells: Seq<Cell>, count: int) -> bool {
        &&& count <= cells.len()
        &&& self.line_width == width_of(cells, self.line@)
        &&& self.spaces_width == width_of(cells, self.spaces@)
        &&& self.word_width == width_of(cells, self.word@)
        &&& self.line_width + self.spaces_width + self.word_width <= 0xffff * count
        &&& all_below(self.line@, count)
        &&& all_below(self.spaces@, count)
        &&& all_below(self.word@, count)
    }

    fn new() -> (layout: Layout)
        ensures
            layout.state() == initial(),
            forall|cells: Seq<Cell>| layout.wf(cells, 0),
    {
        let layout = Layout {
            lines: Vec::new(),
            line: Vec::new(),
            line_width: 0,
            spaces: Vec::new(),
            spaces_width: 0,
            word: Vec::new(),
            word_width: 0,
            after_word: false,
        };
        proof {
            assert(line_views(layout.lines@) =~= initial().lines);
        }
        layout
    }

    fn must_flush(&self, cells: &[Cell], count: usize, cell: Cell, max: u128, trim: bool) -> (flush: bool)
        requires
            self.wf(cells@, count as int),
            cell.width <= max <= 0xffff,
        ensures
            flush == must_flush(cells@, self.state(), cell, max as int, trim),
    {
        let width: u128 = cell.width as u128;
        let overflowing = self.line.len() == 0 && (if trim {
            self.word_width + width > max || self.spaces_width + width > max
        } else {
            self.word_width + self.spaces_width + width > max
        });
        (self.after_word && cell.whitespace) || overflowing
    }

    fn flush(&mut self, cells: &[Cell], count: usize, trim: bool)
        requires
            old(self).wf(cells@, count as int),
        ensures
            final(self).wf(cells@, count as int),
            final(self).state() == flush(old(self).state(), trim),
    {
        proof {
            lemma_width_of_concat(cells@, self.line@, self.spaces@);
            lemma_width_of_concat(cells@, self.line@ + self.spaces@, self.word@);
            lemma_width_of_concat(cells@, self.line@, self.word@);
        }
        if self.line.len() > 0 || !trim {
            self.line.append(&mut self.spaces);
            self.line_width = self.line_width + self.spaces_width;
        } else {
            self.spaces.clear();
        }
        self.line.append(&mut self.word);
        self.line_width = self.line_width + self.word_width;
        self.spaces_width = 0;
        self.word_width = 0;
    }

    fn must_seal(&self, cells: &[Cell], count: usize, cell: Cell, max: u128) -> (seal: bool)
        requires
            self.wf(cells@, count as int),
            cell.width <= max <= 0xffff,
        ensures
            seal == must_seal(cells@, self.state(), cell, max as int),
    {
        self.line_width >= max || (self.line_width + self.spaces_width + self.word_width >= max
            && cell.width > 0)
    }

    /// Completes the line. Tells whether all the whitespace went with it.
    fn seal(&mut self, cells: &[Cell], count: usize, max: u128) -> (exhausted: bool)
        requires
            old(self).wf(cells@, count as int),
        ensures
            final(self).wf(cells@, count as int),
            final(self).state() == seal(cells@, old(self).state(), max as int),
            exhausted == drop_leading(
                cells@,
                old(self).state().spaces,
                columns_left(max as int, width_of(cells@, old(self).state().line)),
            ).1,
    {
        let remaining: u128 = if max > self.line_width {
            max - self.line_width
        } else {
            0
        };
        let ghost complete = line_views(self.lines@);
        let ghost last = self.line@;
        let ghost before = self.spaces@;
        let mut line: Vec<usize> = Vec::new();
        line.append(&mut self.line);
        self.lines.push(line);
        self.line_width = 0;
        proof {
            assert(line_views(self.lines@) =~= complete.push(last));
        }
        let (left, left_width, exhausted) = drop_leading_cells(
            cells,
            &self.spaces,
            self.spaces_width,
            remaining,
        );
        self.spaces = left;
        self.spaces_width = left_width;
        proof {
            lemma_drop_leading_is_suffix(cells@, before, remaining as int);
            assert forall|k: int| 0 <= k < self.spaces@.len() implies #[trigger] self.spaces@[k]
                < count by {
                assert(self.spaces@[k] == before[k + (before.len() - self.spaces@.len())]);
            }
        }
        exhausted
    }

    fn append(&mut self, cells: &[Cell], index: usize, cell: Cell)
        requires
            index < cells@.len(),
            cell == cells@[index as int],
            cell.width <= 0xffff,
            old(self).wf(cells@, index as int),
        ensures
            final(self).wf(cells@, index + 1),
            final(self).state() == append(old(self).state(), index, cell),
    {
        let width: u128 = cell.width as u128;
        if cell.whitespace {
            proof {
                lemma_width_of_push(cells@, self.spaces@, index);
            }
            self.spaces.push(index);
            self.spaces_width = self.spaces_width + width;
        } else {
            proof {
                lemma_width_of_push(cells@, self.word@, index);
            }
            self.word.push(index);
            self.word_width = self.word_width + width;
        }
        self.after_word = !cell.whitespace;
    }

    fn take(&mut self, cells: &[Cell], index: usize, max: u128, trim: bool)
        requires
            index < cells@.len(),
            max <= 0xffff,
            old(self).wf(cells@, index as int),
        ensures
            final(self).wf(cells@, index + 1),
            final(self).state() == step(cells@, old(self).state(), index, max as int, trim),
    {
        let cell = cells[index];
        if cell.width as u128 <= max {
            if self.must_flush(cells, index, cell, max, trim) {
                self.flush(cells, index, trim);
            }
            let mut dropped = false;
            if self.must_seal(cells, index, cell, max) {
                let exhausted = self.seal(cells, index, max);
                dropped = cell.whitespace && exhausted;
            }
            if !dropped {
                self.append(cells, index, cell);
            }
        }
    }

    fn finish(self, trim: bool) -> (lines: Vec<Vec<usize>>)
        ensures
            line_views(lines@) == finish(self.state(), trim),
    {
        let mut lines = self.lines;
        let mut line = self.line;
        let mut spaces = self.spaces;
        let mut word = self.word;
        if !trim || line.len() > 0 {
            line.append(&mut spaces);
        }
        line.append(&mut word);
        if line.len() > 0 {
            let ghost complete = line_views(lines@);
            let ghost last = line@;
            lines.push(line);
            proof {
                assert(line_views(lines@) =~= complete.push(last));
            }
        }
        if lines.len() == 0 {
            lines.push(Vec::new());
            proof {
                assert(line_views(lines@) =~= seq![Seq::<usize>::empty()]);
            }
        }
        lines
    }
}

/// Packs the fragments of one line into lines of at most `max_width` columns, as far as
/// that can be done, and returns the lines, each as the list of the indices of its
/// fragments.
pub fn wrap_cells(cells: &[Cell], max_width: u16, trim: bool) -> (lines: Vec<Vec<usize>>)
    ensures
        line_views(lines@) == wrap_lines(cells@, max_width as int, trim),
{
    let max: u128 = max_width as u128;
    let mut layout = Layout::new();
    let mut index: usize = 0;
    while index < cells.len()
        invariant
            index <= cells@.len(),
            max == max_width,
            layout.wf(cells@, index as int),
            layout.state() == run(cells@, index as nat, max as int, trim),
        decreases cells@.len() - index,
    {
        layout.take(cells, index, max, trim);
        index += 1;
    }
    layout.finish(trim)
}

/// What is left of the whitespace after a line was completed is the end of the
/// whitespace that was there.
pub proof fn lemma_drop_leading_is_suffix(cells: Seq<Cell>, spaces: Seq<usize>, remaining: int)
    ensures
        ({
            let left = drop_leading(cells, spaces, remaining).0;
            &&& left.len() <= spaces.len()
            &&& left == spaces.skip(spaces.len() - left.len())
        }),
    decreases spaces.len(),
{
    if spaces.len() > 0 {
        let width = cells[spaces[0] as int].width;
        if width > remaining {
            assert(spaces.drop_first() =~= spaces.skip(1));
        } else {
            lemma_drop_leading_is_suffix(cells, spaces.drop_first(), remaining - width);
            let left = drop_leading(cells, spaces, remaining).0;
            assert(spaces.drop_first().skip(spaces.len() - 1 - left.len()) =~= spaces.skip(
                spaces.len() - left.len(),
            ));
        }
    } else {
        assert(spaces.skip(0) =~= spaces);
    }
}

/// Whether the last of the first `count` fragments that is not wider than a line belongs
/// to a word.
pub open spec fn after_text(cells: Seq<Cell>, count: nat, max: int) -> bool
    decreases count,
{
    if count == 0 {
        false
    } else if cells[count - 1].width > max {
        after_text(cells, (count - 1) as nat, max)
    } else {
        !cells[count - 1].whitespace
    }
}

/// Whether every fragment is one column wide, or wider than a line and so passed over,
/// or without width and part of a word that it does not start, as a mark is that joins
/// the letter before it.
pub open spec fn narrow_widths(cells: Seq<Cell>, max: int) -> bool {
    forall|i: int|
        0 <= i < cells.len() ==> {
            let cell = #[trigger] cells[i];
            ||| cell.width > max
            ||| cell.width == 1
            ||| cell.width == 0 && !cell.whitespace && after_text(cells, i as nat, max)
        }
}

/// The width of those of the first `count` fragments together that are not wider than a
/// line.
pub open spec fn kept_width(cells: Seq<Cell>, count: nat, max: int) -> int
    decreases count,
{
    if count == 0 {
        0
    } else if cells[count - 1].width > max {
        kept_width(cells, (count - 1) as nat, max)
    } else {
        kept_width(cells, (count - 1) as nat, max) + cells[count - 1].width
    }
}

/// Whitespace that fits the columns left is dropped whole.
proof fn lemma_drop_leading_all(cells: Seq<Cell>, spaces: Seq<usize>, remaining: int)
    requires
        width_of(cells, spaces) <= remaining,
    ensures
        drop_leading(cells, spaces, remaining) == (Seq::<usize>::empty(), true),
    decreases spaces.len(),
{
    if spaces.len() > 0 {
        lemma_width_of_front(cells, spaces);
        lemma_width_of_is_natural(cells, spaces.drop_first());
        lemma_drop_leading_all(
            cells,
            spaces.drop_first(),
            remaining - cells[spaces[0] as int].width,
        );
    } else {
        assert(spaces =~= Seq::<usize>::empty());
    }
}

/// What is left of the whitespace after a line was completed is no wider than the
/// whitespace that was there.
proof fn lemma_drop_leading_narrows(cells: Seq<Cell>, spaces: Seq<usize>, remaining: int)
    ensures
        0 <= width_of(cells, drop_leading(cells, spaces, remaining).0) <= width_of(cells, spaces),
    decreases spaces.len(),
{
    lemma_width_of_is_natural(cells, drop_leading(cells, spaces, remaining).0);
    if spaces.len() > 0 {
        lemma_width_of_front(cells, spaces);
        lemma_width_of_is_natural(cells, spaces.drop_first());
        let width = cells[spaces[0] as int].width;
        if width <= remaining {
            lemma_drop_leading_narrows(cells, spaces.drop_first(), remaining - width);
        }
    }
}

/// What holds between two fragments whatever the fragments are: no line, and nothing
/// that is being read, is wider than the fragments read so far together.
pub open spec fn within_total(cells: Seq<Cell>, state: WrapState, total: int) -> bool {
    &&& forall|k: int| 0 <= k < state.lines.len() ==> width_of(cells, #[trigger] state.lines[k])
        <= total
    &&& width_of(cells, state.line) + width_of(cells, state.spaces) + width_of(cells, state.word)
        <= total
}

/// Moving the whitespace and the word to the line adds no width.
proof fn lemma_flush_narrows(cells: Seq<Cell>, state: WrapState, trim: bool)
    ensures
        ({
            let flushed = flush(state, trim);
            &&& width_of(cells, flushed.line) <= width_of(cells, state.line) + width_of(
                cells,
                state.spaces,
            ) + width_of(cells, state.word)
            &&& width_of(cells, flushed.line) >= width_of(cells, state.line) + width_of(
                cells,
                state.word,
            )
            &&& width_of(cells, flushed.spaces) == 0
            &&& width_of(cells, flushed.word) == 0
            &&& flushed.lines == state.lines
        }),
{
    lemma_width_of_concat(cells, state.line, state.spaces);
    lemma_width_of_concat(cells, state.line + state.spaces, state.word);
    lemma_width_of_concat(cells, state.line, state.word);
    lemma_width_of_is_natural(cells, state.spaces);
}

proof fn lemma_step_within_total(
    cells: Seq<Cell>,
    state: WrapState,
    index: usize,
    max: int,
    trim: bool,
    total: int,
)
    requires
        within_total(cells, state, total),
    ensures
        within_total(
            cells,
            step(cells, state, index, max, trim),
            if cells[index as int].width > max {
                total
            } else {
                total + cells[index as int].width
            },
        ),
{
    let cell = cells[index as int];
    if cell.width <= max {
        let after = total + cell.width;
        let flushed = if must_flush(cells, state, cell, max, trim) {
            flush(state, trim)
        } else {
            state
        };
        lemma_flush_narrows(cells, state, trim);
        lemma_width_of_is_natural(cells, flushed.line);
        lemma_width_of_is_natural(cells, flushed.spaces);
        lemma_width_of_is_natural(cells, flushed.word);
        assert(within_total(cells, flushed, total));
        let base = if must_seal(cells, flushed, cell, max) {
            seal(cells, flushed, max)
        } else {
            flushed
        };
        if must_seal(cells, flushed, cell, max) {
            let remaining = columns_left(max, width_of(cells, flushed.line));
            lemma_drop_leading_narrows(cells, flushed.spaces, remaining);
            assert forall|k: int| 0 <= k < base.lines.len() implies width_of(
                cells,
                #[trigger] base.lines[k],
            ) <= total by {
                if k < flushed.lines.len() {
                    assert(base.lines[k] == flushed.lines[k]);
                } else {
                    assert(base.lines[k] == flushed.line);
                }
            }
            assert(base.line =~= Seq::<usize>::empty());
        }
        assert(within_total(cells, base, total));
        lemma_width_of_push(cells, base.spaces, index);
        lemma_width_of_push(cells, base.word, index);
        assert(within_total(cells, append(base, index, cell), after));
        assert(within_total(cells, base, after));
    }
}

proof fn lemma_run_within_total(cells: Seq<Cell>, count: nat, max: int, trim: bool)
    requires
        count <= usize::MAX,
    ensures
        within_total(cells, run(cells, count, max, trim), kept_width(cells, count, max)),
    decreases count,
{
    if count > 0 {
        lemma_run_within_total(cells, (count - 1) as nat, max, trim);
        lemma_step_within_total(
            cells,
            run(cells, (count - 1) as nat, max, trim),
            (count - 1) as usize,
            max,
            trim,
            kept_width(cells, (count - 1) as nat, max),
        );
    }
}

/// The last line is no wider than what is being read at the end.
proof fn lemma_finish_within(cells: Seq<Cell>, state: WrapState, trim: bool, bound: int)
    requires
        0 <= bound,
        within_total(cells, state, bound),
    ensures
        forall|k: int|
            0 <= k < finish(state, trim).len() ==> width_of(cells, #[trigger] finish(state, trim)[k])
                <= bound,
{
    let lines = finish(state, trim);
    lemma_width_of_concat(cells, state.line, state.spaces);
    lemma_width_of_concat(cells, state.line + state.spaces, state.word);
    lemma_width_of_concat(cells, state.line, state.word);
    lemma_width_of_is_natural(cells, state.spaces);
    assert forall|k: int| 0 <= k < lines.len() implies width_of(cells, #[trigger] lines[k])
        <= bound by {
        if k < state.lines.len() {
            assert(lines[k] == state.lines[k]);
        }
    }
}

proof fn lemma_kept_width_is_natural(cells: Seq<Cell>, count: nat, max: int)
    ensures
        kept_width(cells, count, max) >= 0,
    decreases count,
{
    if count > 0 {
        lemma_kept_width_is_natural(cells, (count - 1) as nat, max);
    }
}

/// Whatever the fragments are, no line that the wrapping makes is wider than the
/// fragments together that are not passed over.
pub proof fn lemma_wrapped_lines_within_total(cells: Seq<Cell>, max: int, trim: bool)
    requires
        cells.len() <= usize::MAX,
    ensures
        forall|k: int|
            0 <= k < wrap_lines(cells, max, trim).len() ==> width_of(
                cells,
                #[trigger] wrap_lines(cells, max, trim)[k],
            ) <= kept_width(cells, cells.len(), max),
{
    lemma_run_within_total(cells, cells.len(), max, trim);
    lemma_kept_width_is_natural(cells, cells.len(), max);
    lemma_finish_within(
        cells,
        run(cells, cells.len(), max, trim),
        trim,
        kept_width(cells, cells.len(), max),
    );
}

/// What holds between two fragments where the fragments are narrow: no line is wider
/// than `max`, what is being read fits one line, the line that is being filled is not
/// full, and what holds a fragment has a width.
pub open spec fn within_bound(cells: Seq<Cell>, state: WrapState, count: nat, max: int) -> bool {
    &&& within_total(cells, state, max)
    &&& width_of(cells, state.line) < max
    &&& state.line.len() > 0 ==> width_of(cells, state.line) >= 1
    &&& state.spaces.len() > 0 ==> width_of(cells, state.spaces) >= 1
    &&& state.word.len() > 0 ==> width_of(cells, state.word) >= 1
    &&& after_text(cells, count, max) ==> state.word.len() > 0
}

/// A fragment without width joins the word that it belongs to, and nothing else changes.
proof fn lemma_mark_within_bound(cells: Seq<Cell>, state: WrapState, index: usize, max: int, trim: bool)
    requires
        max >= 1,
        index < cells.len(),
        cells[index as int].width == 0,
        !cells[index as int].whitespace,
        after_text(cells, index as nat, max),
        within_bound(cells, state, index as nat, max),
    ensures
        within_bound(cells, step(cells, state, index, max, trim), (index + 1) as nat, max),
{
    let cell = cells[index as int];
    lemma_width_of_is_natural(cells, state.line);
    lemma_width_of_is_natural(cells, state.spaces);
    lemma_width_of_is_natural(cells, state.word);
    assert(!must_flush(cells, state, cell, max, trim));
    assert(!must_seal(cells, state, cell, max));
    let after = append(state, index, cell);
    assert(step(cells, state, index, max, trim) == after);
    lemma_width_of_push(cells, state.word, index);
}

/// The state after the whitespace and the word have gone to the line, where the
/// fragments are narrow.
proof fn lemma_flush_within_bound(cells: Seq<Cell>, state: WrapState, count: nat, max: int, trim: bool)
    requires
        within_bound(cells, state, count, max),
    ensures
        ({
            let flushed = flush(state, trim);
            &&& within_total(cells, flushed, max)
            &&& flushed.line.len() > 0 ==> width_of(cells, flushed.line) >= 1
            &&& flushed.spaces.len() == 0
            &&& flushed.word.len() == 0
            &&& width_of(cells, flushed.spaces) == 0
            &&& width_of(cells, flushed.word) == 0
        }),
{
    lemma_flush_narrows(cells, state, trim);
    lemma_width_of_is_natural(cells, state.line);
    lemma_width_of_is_natural(cells, state.spaces);
    lemma_width_of_is_natural(cells, state.word);
    lemma_width_of_concat(cells, state.line, state.spaces);
    lemma_width_of_concat(cells, state.line + state.spaces, state.word);
    lemma_width_of_concat(cells, state.line, state.word);
}

/// A fragment of one column, where the fragments are narrow.
proof fn lemma_unit_within_bound(cells: Seq<Cell>, state: WrapState, index: usize, max: int, trim: bool)
    requires
        max >= 1,
        index < cells.len(),
        cells[index as int].width == 1,
        within_bound(cells, state, index as nat, max),
    ensures
        within_bound(cells, step(cells, state, index, max, trim), (index + 1) as nat, max),
{
    let cell = cells[index as int];
    let count = (index + 1) as nat;
    lemma_width_of_is_natural(cells, state.line);
    lemma_width_of_is_natural(cells, state.spaces);
    lemma_width_of_is_natural(cells, state.word);
    let flushed = if must_flush(cells, state, cell, max, trim) {
        flush(state, trim)
    } else {
        state
    };
    if must_flush(cells, state, cell, max, trim) {
        lemma_flush_within_bound(cells, state, index as nat, max, trim);
    }
    lemma_width_of_is_natural(cells, flushed.line);
    lemma_width_of_is_natural(cells, flushed.spaces);
    lemma_width_of_is_natural(cells, flushed.word);
    assert(within_total(cells, flushed, max));
    assert(flushed.line.len() > 0 ==> width_of(cells, flushed.line) >= 1);
    assert(flushed.spaces.len() > 0 ==> width_of(cells, flushed.spaces) >= 1);
    assert(flushed.word.len() > 0 ==> width_of(cells, flushed.word) >= 1);
    assert(after_text(cells, count, max) == !cell.whitespace);
    if must_seal(cells, flushed, cell, max) {
        let remaining = columns_left(max, width_of(cells, flushed.line));
        let sealed = seal(cells, flushed, max);
        lemma_drop_leading_all(cells, flushed.spaces, remaining);
        assert(sealed.spaces.len() == 0);
        assert(sealed.line =~= Seq::<usize>::empty());
        assert(width_of(cells, sealed.line) == 0);
        assert(width_of(cells, sealed.spaces) == 0);
        assert forall|k: int| 0 <= k < sealed.lines.len() implies width_of(
            cells,
            #[trigger] sealed.lines[k],
        ) <= max by {
            if k < flushed.lines.len() {
                assert(sealed.lines[k] == flushed.lines[k]);
            } else {
                assert(sealed.lines[k] == flushed.line);
            }
        }
        if cell.whitespace {
            assert(step(cells, state, index, max, trim) == sealed);
        } else {
            // The word alone does not fill a line: it would have been moved to the line.
            assert(width_of(cells, sealed.word) < max) by {
                if width_of(cells, flushed.word) >= max {
                    assert(width_of(cells, flushed.line) == 0);
                    assert(flushed.line.len() == 0);
                    assert(must_flush(cells, state, cell, max, trim));
                }
            }
            let after = append(sealed, index, cell);
            assert(step(cells, state, index, max, trim) == after);
            lemma_width_of_push(cells, sealed.word, index);
        }
    } else {
        let after = append(flushed, index, cell);
        assert(step(cells, state, index, max, trim) == after);
        lemma_width_of_push(cells, flushed.spaces, index);
        lemma_width_of_push(cells, flushed.word, index);
    }
}

proof fn lemma_run_within_bound(cells: Seq<Cell>, count: nat, max: int, trim: bool)
    requires
        max >= 1,
        count <= cells.len() <= usize::MAX,
        narrow_widths(cells, max),
    ensures
        within_bound(cells, run(cells, count, max, trim), count, max),
    decreases count,
{
    if count > 0 {
        let index = (count - 1) as usize;
        let before = run(cells, (count - 1) as nat, max, trim);
        lemma_run_within_bound(cells, (count - 1) as nat, max, trim);
        let cell = cells[index as int];
        if cell.width > max {
            assert(step(cells, before, index, max, trim) == before);
        } else if cell.width == 1 {
            lemma_unit_within_bound(cells, before, index, max, trim);
        } else {
            lemma_mark_within_bound(cells, before, index, max, trim);
        }
    } else {
        assert(width_of(cells, initial().line) == 0);
        assert(width_of(cells, initial().spaces) == 0);
        assert(width_of(cells, initial().word) == 0);
    }
}

/// No line that the wrapping makes is wider than `max` columns, where the fragments that
/// are not passed over fit `max` columns together, or where each of them is one column
/// wide or a mark without width in a word.
///
/// The bound does not hold of all fragments: three fragments of one, one and two
/// columns, none of them whitespace, make one line of four columns where `max` is
/// three.
pub proof fn lemma_wrapped_lines_fit(cells: Seq<Cell>, max: int, trim: bool)
    requires
        max >= 1,
        cells.len() <= usize::MAX,
        narrow_widths(cells, max) || kept_width(cells, cells.len(), max) <= max,
    ensures
        forall|k: int|
            0 <= k < wrap_lines(cells, max, trim).len() ==> width_of(
                cells,
                #[trigger] wrap_lines(cells, max, trim)[k],
            ) <= max,
{
    if narrow_widths(cells, max) {
        lemma_run_within_bound(cells, cells.len(), max, trim);
        lemma_finish_within(cells, run(cells, cells.len(), max, trim), trim, max);
    } else {
        lemma_wrapped_lines_within_total(cells, max, trim);
    }
}

/// The width of the first `count` fragments together.
pub open spec fn total_width(cells: Seq<Cell>, count: nat) -> int
    decreases count,
{
    if count == 0 {
        0
    } else {
        total_width(cells, (count - 1) as nat) + cells[count - 1].width
    }
}

/// How many of the first `count` fragments are whitespace with nothing but whitespace
/// before them.
pub open spec fn leading_whitespace(cells: Seq<Cell>, count: nat) -> nat
    decreases count,
{
    if count == 0 {
        0
    } else {
        let before = leading_whitespace(cells, (count - 1) as nat);
        if before == count - 1 && cells[count - 1].whitespace {
            count
        } else {
            before
        }
    }
}

/// The indices from `from` up to `to`, without `to`.
pub open spec fn range(from: int, to: int) -> Seq<usize> {
    Seq::new((to - from) as nat, |k: int| (from + k) as usize)
}

proof fn lemma_total_width_grows(cells: Seq<Cell>, count: nat, later: nat)
    requires
        count <= later,
    ensures
        0 <= total_width(cells, count) <= total_width(cells, later),
    decreases later,
{
    if count < later {
        lemma_total_width_grows(cells, count, (later - 1) as nat);
    } else if count > 0 {
        lemma_total_width_grows(cells, (count - 1) as nat, (count - 1) as nat);
    }
}

/// No more fragments are whitespace before all others than there are.
pub proof fn lemma_leading_whitespace_in_range(cells: Seq<Cell>, count: nat)
    ensures
        leading_whitespace(cells, count) <= count,
    decreases count,
{
    if count > 0 {
        lemma_leading_whitespace_in_range(cells, (count - 1) as nat);
    }
}

/// What holds between two fragments of a line that fits: no line is complete, and what
/// was read is all there in its order, but for whitespace that would start the line.
pub open spec fn kept(cells: Seq<Cell>, state: WrapState, count: nat, trim: bool) -> bool {
    let lead = leading_whitespace(cells, count) as int;
    let start = if trim {
        lead
    } else {
        0
    };
    &&& state.lines.len() == 0
    &&& state.word.len() > 0 ==> state.after_word
    &&& state.after_word == (count > 0 && !cells[count - 1].whitespace)
    &&& width_of(cells, state.line) + width_of(cells, state.spaces) + width_of(cells, state.word)
        <= total_width(cells, count)
    &&& state.line.len() == 0 ==> {
        &&& state.spaces == range(0, lead)
        &&& state.word == range(lead, count as int)
        &&& state.after_word == (lead < count)
    }
    &&& state.line.len() > 0 ==> {
        &&& lead < count
        &&& state.line + state.spaces + state.word == range(start, count as int)
    }
}

/// Whether the line fits `max` columns whole, and no whitespace without width ends a
/// word where the columns are used up. There is at least one column.
pub open spec fn fits_whole(cells: Seq<Cell>, max: int) -> bool {
    &&& max >= 1
    &&& cells.len() <= usize::MAX
    &&& total_width(cells, cells.len()) <= max
    &&& forall|i: int|
        0 < i < cells.len() && (#[trigger] cells[i]).width == 0 && cells[i].whitespace && !cells[i
            - 1].whitespace ==> total_width(cells, i as nat) < max
}

proof fn lemma_flush_kept(cells: Seq<Cell>, state: WrapState, count: nat, trim: bool)
    requires
        kept(cells, state, count, trim),
        state.after_word,
    ensures
        kept(cells, flush(state, trim), count, trim),
        flush(state, trim).word.len() == 0,
        flush(state, trim).spaces.len() == 0,
{
    let lead = leading_whitespace(cells, count) as int;
    let start = if trim {
        lead
    } else {
        0
    };
    let flushed = flush(state, trim);
    lemma_leading_whitespace_in_range(cells, count);
    lemma_width_of_concat(cells, state.line, state.spaces);
    lemma_width_of_concat(cells, state.line + state.spaces, state.word);
    lemma_width_of_concat(cells, state.line, state.word);
    lemma_width_of_is_natural(cells, state.spaces);
    if state.line.len() == 0 {
        assert(range(0, lead) + range(lead, count as int) =~= range(0, count as int));
        assert(Seq::<usize>::empty() + range(lead, count as int) =~= range(lead, count as int));
        assert(state.line =~= Seq::<usize>::empty());
        assert(flushed.line == range(start, count as int));
        assert(flushed.line.len() > 0);
    } else {
        assert(flushed.line =~= state.line + state.spaces + state.word);
    }
    assert(flushed.line + flushed.spaces + flushed.word =~= flushed.line);
}

proof fn lemma_append_kept(cells: Seq<Cell>, state: WrapState, count: nat, trim: bool)
    requires
        count < cells.len() <= usize::MAX,
        kept(cells, state, count, trim),
        cells[count as int].whitespace ==> state.word.len() == 0,
    ensures
        kept(cells, append(state, count as usize, cells[count as int]), (count + 1) as nat, trim),
{
    let index = count as usize;
    let cell = cells[count as int];
    let lead = leading_whitespace(cells, count) as int;
    let start = if trim {
        lead
    } else {
        0
    };
    let after = append(state, index, cell);
    let lead_after = leading_whitespace(cells, (count + 1) as nat) as int;
    lemma_leading_whitespace_in_range(cells, count);
    lemma_width_of_push(cells, state.spaces, index);
    lemma_width_of_push(cells, state.word, index);
    assert(total_width(cells, count + 1) == total_width(cells, count) + cell.width);
    if state.line.len() == 0 {
        if cell.whitespace {
            assert(lead == count);
            assert(lead_after == count + 1);
            assert(after.spaces =~= range(0, lead_after));
            assert(after.word =~= range(lead_after, count as int + 1));
        } else {
            assert(lead_after == lead);
            assert(after.word =~= range(lead, count as int + 1));
        }
    } else {
        assert(lead_after == lead);
        let whole = state.line + state.spaces + state.word;
        assert(whole.push(index) =~= range(start, count as int + 1));
        if cell.whitespace {
            assert(state.word =~= Seq::<usize>::empty());
            assert(after.line + after.spaces + after.word =~= whole.push(index));
        } else {
            assert(after.line + after.spaces + after.word =~= whole.push(index));
        }
    }
}

proof fn lemma_step_kept(cells: Seq<Cell>, state: WrapState, count: nat, max: int, trim: bool)
    requires
        count < cells.len(),
        fits_whole(cells, max),
        kept(cells, state, count, trim),
        width_of(cells, state.line) < max,
    ensures
        kept(cells, step(cells, state, count as usize, max, trim), (count + 1) as nat, trim),
        width_of(cells, step(cells, state, count as usize, max, trim).line) < max,
{
    let index = count as usize;
    let cell = cells[count as int];
    lemma_total_width_grows(cells, count + 1, cells.len());
    lemma_total_width_grows(cells, count, count);
    lemma_width_of_is_natural(cells, state.line);
    lemma_width_of_is_natural(cells, state.spaces);
    lemma_width_of_is_natural(cells, state.word);
    assert(total_width(cells, count + 1) == total_width(cells, count) + cell.width);
    assert(cell.width <= max);
    assert(cells[index as int] == cell);
    assert(must_flush(cells, state, cell, max, trim) == (state.after_word && cell.whitespace));
    let flushed = if must_flush(cells, state, cell, max, trim) {
        flush(state, trim)
    } else {
        state
    };
    if must_flush(cells, state, cell, max, trim) {
        lemma_flush_kept(cells, state, count, trim);
        assert(cell.width == 0 ==> total_width(cells, count) < max);
    }
    lemma_width_of_is_natural(cells, flushed.line);
    lemma_width_of_is_natural(cells, flushed.spaces);
    lemma_width_of_is_natural(cells, flushed.word);
    assert(width_of(cells, flushed.line) < max);
    assert(!must_seal(cells, flushed, cell, max));
    assert(step(cells, state, index, max, trim) == append(flushed, index, cell));
    lemma_append_kept(cells, flushed, count, trim);
}

proof fn lemma_run_kept(cells: Seq<Cell>, count: nat, max: int, trim: bool)
    requires
        count <= cells.len(),
        fits_whole(cells, max),
    ensures
        kept(cells, run(cells, count, max, trim), count, trim),
        width_of(cells, run(cells, count, max, trim).line) < max,
    decreases count,
{
    if count > 0 {
        lemma_run_kept(cells, (count - 1) as nat, max, trim);
        lemma_step_kept(cells, run(cells, (count - 1) as nat, max, trim), (count - 1) as nat, max, trim);
    } else {
        assert(initial().spaces =~= range(0, 0));
        assert(initial().word =~= range(0, 0));
    }
}

/// A line that fits `max` columns whole is kept as one line with all its fragments in
/// their order; where `trim` is set, without the whitespace that it starts with.
///
/// This is not so where whitespace without width ends a word at which the columns are
/// used up: of two fragments of one column, whitespace without width and one more
/// fragment without width, in two columns, the first two make a line, the whitespace is
/// dropped and the last makes a second line.
pub proof fn lemma_short_line_is_kept(cells: Seq<Cell>, max: int, trim: bool)
    requires
        fits_whole(cells, max),
    ensures
        wrap_lines(cells, max, trim) == seq![
            range(
                if trim {
                    leading_whitespace(cells, cells.len()) as int
                } else {
                    0
                },
                cells.len() as int,
            ),
        ],
{
    let count = cells.len();
    let state = run(cells, count, max, trim);
    let lead = leading_whitespace(cells, count) as int;
    lemma_run_kept(cells, count, max, trim);
    lemma_leading_whitespace_in_range(cells, count);
    let expected = range(
        if trim {
            lead
        } else {
            0
        },
        count as int,
    );
    let last = if !trim || state.line.len() > 0 {
        state.line + state.spaces + state.word
    } else {
        state.line + state.word
    };
    if state.line.len() == 0 {
        assert(range(0, lead) + range(lead, count as int) =~= range(0, count as int));
        assert(state.line + state.spaces + state.word =~= range(0, count as int));
        assert(state.line + state.word =~= range(lead, count as int));
    }
    assert(last =~= expected);
    if last.len() == 0 {
        assert(expected =~= Seq::<usize>::empty());
    }
    assert(state.lines.push(expected) =~= seq![expected]);
    assert(wrap_lines(cells, max, trim) =~= seq![expected]);
}

/// Whether the buffers and the complete lines hold only indices below `bound`.
pub open spec fn state_below(state: WrapState, bound: int) -> bool {
    &&& forall|k: int| 0 <= k < state.lines.len() ==> all_below(#[trigger] state.lines[k], bound)
    &&& all_below(state.line, bound)
    &&& all_below(state.spaces, bound)
    &&& all_below(state.word, bound)
}

proof fn lemma_step_below(cells: Seq<Cell>, state: WrapState, index: usize, max: int, trim: bool)
    requires
        state_below(state, index as int),
    ensures
        state_below(step(cells, state, index, max, trim), index + 1),
{
    let cell = cells[index as int];
    let bound = index + 1;
    assert(state_below(state, bound));
    if cell.width <= max {
        let flushed = if must_flush(cells, state, cell, max, trim) {
            flush(state, trim)
        } else {
            state
        };
        assert(state_below(flushed, bound));
        if must_seal(cells, flushed, cell, max) {
            let remaining = columns_left(max, width_of(cells, flushed.line));
            let sealed = seal(cells, flushed, max);
            lemma_drop_leading_is_suffix(cells, flushed.spaces, remaining);
            assert(all_below(sealed.spaces, bound)) by {
                assert forall|k: int| 0 <= k < sealed.spaces.len() implies #[trigger] sealed.spaces[k]
                    < bound by {
                    assert(sealed.spaces[k] == flushed.spaces[k + (flushed.spaces.len()
                        - sealed.spaces.len())]);
                }
            }
            assert forall|k: int| 0 <= k < sealed.lines.len() implies all_below(
                #[trigger] sealed.lines[k],
                bound,
            ) by {
                if k < flushed.lines.len() {
                    assert(sealed.lines[k] == flushed.lines[k]);
                }
            }
            assert(state_below(sealed, bound));
            assert(state_below(append(sealed, index, cell), bound));
        } else {
            assert(state_below(append(flushed, index, cell), bound));
        }
    }
}

proof fn lemma_run_below(cells: Seq<Cell>, count: nat, max: int, trim: bool)
    requires
        count <= usize::MAX,
    ensures
        state_below(run(cells, count, max, trim), count as int),
    decreases count,
{
    if count > 0 {
        lemma_run_below(cells, (count - 1) as nat, max, trim);
        lemma_step_below(cells, run(cells, (count - 1) as nat, max, trim), (count - 1) as usize, max, trim);
    }
}

/// The wrapping makes at least one line, and its lines name fragments of the input.
pub proof fn lemma_wrap_lines_name_cells(cells: Seq<Cell>, max: int, trim: bool)
    requires
        cells.len() <= usize::MAX,
    ensures
        wrap_lines(cells, max, trim).len() >= 1,
        forall|k: int|
            0 <= k < wrap_lines(cells, max, trim).len() ==> all_below(
                #[trigger] wrap_lines(cells, max, trim)[k],
                cells.len() as int,
            ),
{
    let state = run(cells, cells.len(), max, trim);
    let lines = wrap_lines(cells, max, trim);
    lemma_run_below(cells, cells.len(), max, trim);
    assert forall|k: int| 0 <= k < lines.len() implies all_below(#[trigger] lines[k], cells.len() as int) by {
        if k < state.lines.len() {
            assert(lines[k] == state.lines[k]);
        }
    }
}

} // verus!
