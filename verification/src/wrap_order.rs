//! What the wrapping does to the fragments of a line: it keeps their order, shows none
//! twice, and loses no fragment of a word.

use vstd::prelude::*;
use crate::word_wrap::{
    append, columns_left, drop_leading, finish, flush, initial, lemma_drop_leading_is_suffix,
    must_flush, must_seal, run, seal, step, wrap_lines, Cell, WrapState,
};

verus! {

/// The lines one after the other.
pub open spec fn joined(lines: Seq<Seq<usize>>) -> Seq<usize>
    decreases lines.len(),
{
    if lines.len() == 0 {
        Seq::empty()
    } else {
        joined(lines.drop_last()) + lines.last()
    }
}

/// Whether each index of the list is greater than the one before it.
pub open spec fn increasing(indices: Seq<usize>) -> bool {
    forall|i: int, j: int| 0 <= i < j < indices.len() ==> indices[i] < indices[j]
}

/// All that the layout holds between two fragments, in the order in which it will be
/// shown.
pub open spec fn held(state: WrapState) -> Seq<usize> {
    joined(state.lines) + state.line + state.spaces + state.word
}

/// What holds between two fragments: the fragments that are held are in their order and
/// among the first `count`, the whitespace that is held is whitespace, and every
/// fragment of a word among the first `count` is held, unless it is wider than a line.
pub open spec fn in_order(cells: Seq<Cell>, state: WrapState, count: nat, max: int) -> bool {
    &&& increasing(held(state))
    &&& forall|k: int| 0 <= k < held(state).len() ==> #[trigger] held(state)[k] < count
    &&& forall|k: int| 0 <= k < state.spaces.len() ==> cells[#[trigger] state.spaces[k] as int].whitespace
    &&& state.word.len() > 0 ==> state.after_word
    &&& forall|i: int|
        0 <= i < count && !(#[trigger] cells[i]).whitespace && cells[i].width <= max ==> held(
            state,
        ).contains(i as usize)
}

proof fn lemma_joined_push(lines: Seq<Seq<usize>>, line: Seq<usize>)
    ensures
        joined(lines.push(line)) == joined(lines) + line,
{
    assert(lines.push(line).drop_last() =~= lines);
}

/// What is held where the part `from..to` of it is dropped, which is whitespace: it is
/// still in order, and the fragments of words are still held.
proof fn lemma_drop_part(
    cells: Seq<Cell>,
    before: Seq<usize>,
    after: Seq<usize>,
    from: int,
    to: int,
    count: nat,
    max: int,
)
    requires
        count <= usize::MAX,
        0 <= from <= to <= before.len(),
        after == before.take(from) + before.skip(to),
        increasing(before),
        forall|k: int| 0 <= k < before.len() ==> #[trigger] before[k] < count,
        forall|k: int| from <= k < to ==> cells[#[trigger] before[k] as int].whitespace,
        forall|i: int|
            0 <= i < count && !(#[trigger] cells[i]).whitespace && cells[i].width <= max
                ==> before.contains(i as usize),
    ensures
        increasing(after),
        forall|k: int| 0 <= k < after.len() ==> #[trigger] after[k] < count,
        forall|i: int|
            0 <= i < count && !(#[trigger] cells[i]).whitespace && cells[i].width <= max
                ==> after.contains(i as usize),
{
    assert forall|k: int| 0 <= k < after.len() implies #[trigger] after[k] < count by {
        if k < from {
            assert(after[k] == before[k]);
        } else {
            assert(after[k] == before[k + (to - from)]);
        }
    }
    assert forall|i: int, j: int| 0 <= i < j < after.len() implies after[i] < after[j] by {
        let at = if i < from {
            i
        } else {
            i + (to - from)
        };
        let then = if j < from {
            j
        } else {
            j + (to - from)
        };
        assert(after[i] == before[at]);
        assert(after[j] == before[then]);
    }
    assert forall|i: int|
        0 <= i < count && !(#[trigger] cells[i]).whitespace && cells[i].width
            <= max implies after.contains(i as usize) by {
        assert(before.contains(i as usize));
        let at = choose|at: int| 0 <= at < before.len() && before[at] == i as usize;
        if at < from {
            assert(after[at] == i as usize);
        } else {
            if at < to {
                assert(cells[before[at] as int].whitespace);
            }
            assert(after[at - (to - from)] == i as usize);
        }
    }
}

proof fn lemma_flush_in_order(cells: Seq<Cell>, state: WrapState, count: nat, max: int, trim: bool)
    requires
        count <= usize::MAX,
        in_order(cells, state, count, max),
    ensures
        in_order(cells, flush(state, trim), count, max),
{
    let flushed = flush(state, trim);
    let before = held(state);
    let after = held(flushed);
    if state.line.len() > 0 || !trim {
        assert(after =~= before);
    } else {
        let from = (joined(state.lines) + state.line).len() as int;
        let to = from + state.spaces.len();
        assert(after =~= before.take(from) + before.skip(to));
        assert forall|k: int| from <= k < to implies cells[#[trigger] before[k] as int].whitespace by {
            assert(before[k] == state.spaces[k - from]);
        }
        lemma_drop_part(cells, before, after, from, to, count, max);
    }
}

proof fn lemma_seal_in_order(cells: Seq<Cell>, state: WrapState, count: nat, max: int)
    requires
        count <= usize::MAX,
        in_order(cells, state, count, max),
    ensures
        in_order(cells, seal(cells, state, max), count, max),
{
    let sealed = seal(cells, state, max);
    let remaining = columns_left(max, crate::word_wrap::width_of(cells, state.line));
    let before = held(state);
    let after = held(sealed);
    lemma_joined_push(state.lines, state.line);
    lemma_drop_leading_is_suffix(cells, state.spaces, remaining);
    let dropped = state.spaces.len() - sealed.spaces.len();
    let from = (joined(state.lines) + state.line).len() as int;
    let to = from + dropped;
    assert(after =~= before.take(from) + before.skip(to));
    assert forall|k: int| from <= k < to implies cells[#[trigger] before[k] as int].whitespace by {
        assert(before[k] == state.spaces[k - from]);
    }
    lemma_drop_part(cells, before, after, from, to, count, max);
    assert forall|k: int| 0 <= k < sealed.spaces.len() implies cells[
        #[trigger] sealed.spaces[k] as int
    ].whitespace by {
        assert(sealed.spaces[k] == state.spaces[k + dropped]);
    }
}

proof fn lemma_append_in_order(cells: Seq<Cell>, state: WrapState, count: nat, max: int)
    requires
        count < cells.len() <= usize::MAX,
        in_order(cells, state, count, max),
        cells[count as int].whitespace ==> state.word.len() == 0,
    ensures
        in_order(cells, append(state, count as usize, cells[count as int]), (count + 1) as nat, max),
{
    let index = count as usize;
    let cell = cells[count as int];
    let next = append(state, index, cell);
    let before = held(state);
    let after = held(next);
    if cell.whitespace {
        assert(state.word =~= Seq::<usize>::empty());
    }
    assert(after =~= before.push(index));
    assert forall|i: int, j: int| 0 <= i < j < after.len() implies after[i] < after[j] by {
        assert(after[i] == before[i]);
        if j < before.len() {
            assert(after[j] == before[j]);
        }
    }
    assert forall|i: int|
        0 <= i < count + 1 && !(#[trigger] cells[i]).whitespace && cells[i].width
            <= max implies after.contains(i as usize) by {
        if i < count {
            assert(before.contains(i as usize));
            let at = choose|at: int| 0 <= at < before.len() && before[at] == i as usize;
            assert(after[at] == i as usize);
        } else {
            assert(after[before.len() as int] == index);
        }
    }
    assert forall|k: int| 0 <= k < next.spaces.len() implies cells[
        #[trigger] next.spaces[k] as int
    ].whitespace by {
        if k < state.spaces.len() {
            assert(next.spaces[k] == state.spaces[k]);
        }
    }
}

proof fn lemma_step_in_order(cells: Seq<Cell>, state: WrapState, count: nat, max: int, trim: bool)
    requires
        count < cells.len() <= usize::MAX,
        in_order(cells, state, count, max),
    ensures
        in_order(cells, step(cells, state, count as usize, max, trim), (count + 1) as nat, max),
{
    let index = count as usize;
    let cell = cells[count as int];
    if cell.width <= max {
        let flushed = if must_flush(cells, state, cell, max, trim) {
            flush(state, trim)
        } else {
            state
        };
        if must_flush(cells, state, cell, max, trim) {
            lemma_flush_in_order(cells, state, count, max, trim);
        }
        assert(cell.whitespace ==> flushed.word.len() == 0);
        if must_seal(cells, flushed, cell, max) {
            let sealed = seal(cells, flushed, max);
            let remaining = columns_left(max, crate::word_wrap::width_of(cells, flushed.line));
            lemma_seal_in_order(cells, flushed, count, max);
            if cell.whitespace && drop_leading(cells, flushed.spaces, remaining).1 {
                assert(in_order(cells, sealed, (count + 1) as nat, max));
            } else {
                lemma_append_in_order(cells, sealed, count, max);
            }
        } else {
            lemma_append_in_order(cells, flushed, count, max);
        }
    } else {
        assert(in_order(cells, state, (count + 1) as nat, max));
    }
}

proof fn lemma_run_in_order(cells: Seq<Cell>, count: nat, max: int, trim: bool)
    requires
        count <= cells.len() <= usize::MAX,
    ensures
        in_order(cells, run(cells, count, max, trim), count, max),
    decreases count,
{
    if count > 0 {
        lemma_run_in_order(cells, (count - 1) as nat, max, trim);
        lemma_step_in_order(cells, run(cells, (count - 1) as nat, max, trim), (count - 1) as nat, max, trim);
    } else {
        assert(held(initial()) =~= Seq::<usize>::empty());
    }
}

/// The wrapping shows the fragments of a line in their order and none of them twice,
/// and it shows every fragment of a word, unless the fragment is wider than a line.
/// Only whitespace is ever dropped.
pub proof fn lemma_wrapping_keeps_words(cells: Seq<Cell>, max: int, trim: bool)
    requires
        cells.len() <= usize::MAX,
    ensures
        increasing(joined(wrap_lines(cells, max, trim))),
        forall|i: int|
            0 <= i < cells.len() && !(#[trigger] cells[i]).whitespace && cells[i].width <= max
                ==> joined(wrap_lines(cells, max, trim)).contains(i as usize),
{
    let count = cells.len();
    let state = run(cells, count, max, trim);
    lemma_run_in_order(cells, count, max, trim);
    let before = held(state);
    let lines = finish(state, trim);
    let last = if !trim || state.line.len() > 0 {
        state.line + state.spaces + state.word
    } else {
        state.line + state.word
    };
    let after = joined(state.lines) + last;
    if !trim || state.line.len() > 0 {
        assert(after =~= before);
    } else {
        let from = (joined(state.lines) + state.line).len() as int;
        let to = from + state.spaces.len();
        assert(after =~= before.take(from) + before.skip(to));
        assert forall|k: int| from <= k < to implies cells[#[trigger] before[k] as int].whitespace by {
            assert(before[k] == state.spaces[k - from]);
        }
        lemma_drop_part(cells, before, after, from, to, count, max);
    }
    if last.len() > 0 {
        lemma_joined_push(state.lines, last);
    } else {
        assert(after =~= joined(state.lines));
        if state.lines.len() == 0 {
            lemma_joined_push(Seq::empty(), Seq::empty());
            assert(Seq::<Seq<usize>>::empty().push(Seq::empty()) =~= seq![Seq::<usize>::empty()]);
        }
    }
    assert(joined(lines) =~= after);
}

} // verus!
