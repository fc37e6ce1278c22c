//! Which part of the list of visible nodes is shown in a viewport of a given height.

use vstd::prelude::*;

verus! {

/// The height of the entries `start..end` together.
pub open spec fn total_height(heights: Seq<usize>, start: int, end: int) -> int
    decreases end - start,
{
    if start >= end {
        0
    } else {
        total_height(heights, start, end - 1) + heights[end - 1]
    }
}

/// Whether the entries `start..end` fit a viewport of height `available` together.
pub open spec fn fits(heights: Seq<usize>, start: int, end: int, available: int) -> bool {
    total_height(heights, start, end) <= available
}

/// Whether `start..end` is the part of the list that is shown where the entry at
/// `selected` is selected and the list was last shown from `offset` on.
///
/// The first entry that may be shown is the one at `offset`, or the selected one if it
/// comes before. Where the entries from there up to the selected one fit, the window
/// starts there and takes every entry that still fits. Where they do not fit, the
/// selected entry is the last in the window, and the window starts as early as it can:
/// at the first entry from which all fits, and at the selected entry itself where that
/// entry alone is higher than the viewport.
pub open spec fn is_window(
    heights: Seq<usize>,
    selected: int,
    offset: int,
    available: int,
    start: int,
    end: int,
) -> bool {
    let first = if offset < selected {
        offset
    } else {
        selected
    };
    if fits(heights, first, selected + 1, available) {
        &&& start == first
        &&& selected < end <= heights.len()
        &&& fits(heights, first, end, available)
        &&& end < heights.len() ==> !fits(heights, first, end + 1, available)
    } else {
        &&& end == selected + 1
        &&& first <= start <= selected
        &&& fits(heights, start, end, available) || start == selected
        &&& forall|earlier: int| first <= earlier < start ==> !fits(heights, earlier, end, available)
    }
}

/// A window that ends later is at least as high.
pub proof fn lemma_total_height_grows(heights: Seq<usize>, start: int, end: int, later: int)
    requires
        end <= later,
    ensures
        0 <= total_height(heights, start, end) <= total_height(heights, start, later),
    decreases later - start,
{
    if start < later {
        if end < later {
            lemma_total_height_grows(heights, start, end, later - 1);
        } else {
            lemma_total_height_grows(heights, start, end - 1, later - 1);
        }
    }
}

/// A window is as high as its first entry and the rest of it.
pub proof fn lemma_total_height_front(heights: Seq<usize>, start: int, end: int)
    requires
        start < end,
    ensures
        total_height(heights, start, end) == heights[start] + total_height(heights, start + 1, end),
    decreases end - start,
{
    if start + 1 < end {
        lemma_total_height_front(heights, start, end - 1);
    } else {
        assert(total_height(heights, start, end - 1) == 0);
        assert(total_height(heights, start + 1, end) == 0);
    }
}

/// A window that starts later is at most as high.
pub proof fn lemma_total_height_shrinks(heights: Seq<usize>, start: int, later: int, end: int)
    requires
        start <= later,
    ensures
        total_height(heights, later, end) <= total_height(heights, start, end),
    decreases later - start,
{
    if start < later {
        lemma_total_height_shrinks(heights, start + 1, later, end);
        if start < end {
            lemma_total_height_front(heights, start, end);
        } else {
            lemma_total_height_grows(heights, later, end, end);
        }
    }
}

/// The window that is shown always holds the selected entry. It fits the viewport
/// unless the selected entry alone is higher than the viewport; the window then holds
/// that entry and no other.
pub proof fn lemma_window_holds_selected(
    heights: Seq<usize>,
    selected: int,
    offset: int,
    available: int,
    start: int,
    end: int,
)
    requires
        0 <= selected < heights.len(),
        0 <= offset,
        is_window(heights, selected, offset, available, start, end),
    ensures
        0 <= start <= selected < end <= heights.len(),
        heights[selected] <= available ==> total_height(heights, start, end) <= available,
        heights[selected] > available ==> start == selected && end == selected + 1,
        (forall|k: int| start <= k < end ==> heights[k] <= available) ==> total_height(
            heights,
            start,
            end,
        ) <= available,
{
    let first = if offset < selected {
        offset
    } else {
        selected
    };
    lemma_total_height_grows(heights, selected, selected, selected + 1);
    assert(total_height(heights, selected, selected + 1) == heights[selected]);
    if fits(heights, first, selected + 1, available) {
        lemma_total_height_shrinks(heights, first, selected, selected + 1);
    } else {
        lemma_total_height_shrinks(heights, start, selected, selected + 1);
    }
}

/// No two windows are shown for the same list, selection, offset and viewport.
pub proof fn lemma_window_is_unique(
    heights: Seq<usize>,
    selected: int,
    offset: int,
    available: int,
    one: (int, int),
    other: (int, int),
)
    requires
        0 <= selected < heights.len(),
        0 <= offset,
        is_window(heights, selected, offset, available, one.0, one.1),
        is_window(heights, selected, offset, available, other.0, other.1),
    ensures
        one == other,
{
    let first = if offset < selected {
        offset
    } else {
        selected
    };
    if fits(heights, first, selected + 1, available) {
        if one.1 < other.1 {
            lemma_total_height_grows(heights, first, one.1 + 1, other.1);
        }
        if other.1 < one.1 {
            lemma_total_height_grows(heights, first, other.1 + 1, one.1);
        }
    }
}

/// The part of the list that is shown: the indices of its first entry and of the one
/// after its last.
pub fn window(heights: &[usize], selected: usize, offset: usize, available: usize) -> (shown: (
    usize,
    usize,
))
    requires
        selected < heights@.len(),
    ensures
        is_window(
            heights@,
            selected as int,
            offset as int,
            available as int,
            shown.0 as int,
            shown.1 as int,
        ),
        shown.0 <= selected < shown.1 <= heights@.len(),
        heights@[selected as int] <= available ==> total_height(
            heights@,
            shown.0 as int,
            shown.1 as int,
        ) <= available,
        heights@[selected as int] > available ==> shown.0 == selected && shown.1 == selected + 1,
{
    let first: usize = if offset < selected {
        offset
    } else {
        selected
    };
    let mut start: usize = first;
    let mut end: usize = start;
    let mut height: usize = 0;
    let mut full = false;
    while !full && end < heights.len()
        invariant
            start == first,
            start <= end <= heights@.len(),
            height == total_height(heights@, start as int, end as int),
            height <= available,
            full ==> end < heights@.len() && !fits(
                heights@,
                first as int,
                end + 1,
                available as int,
            ),
        decreases heights@.len() - end + (if full { 0int } else { 1int }),
    {
        if heights[end] > available - height {
            full = true;
        } else {
            height += heights[end];
            end += 1;
        }
    }
    if selected < end {
        proof {
            lemma_total_height_grows(heights@, first as int, selected + 1, end as int);
            lemma_window_holds_selected(
                heights@,
                selected as int,
                offset as int,
                available as int,
                start as int,
                end as int,
            );
        }
        return (start, end);
    }
    proof {
        lemma_total_height_grows(heights@, first as int, end + 1, selected + 1);
    }
    while end < selected
        invariant
            first <= start <= end <= selected,
            selected < heights@.len(),
            !fits(heights@, first as int, selected + 1, available as int),
            height == total_height(heights@, start as int, end as int),
            height <= available,
            forall|earlier: int|
                first <= earlier < start ==> !fits(heights@, earlier, end as int, available as int),
        decreases selected - end,
    {
        let added: usize = heights[end];
        let ghost next: int = end + 1;
        proof {
            assert forall|earlier: int| first <= earlier < start implies !fits(
                heights@,
                earlier,
                next,
                available as int,
            ) by {
                assert(!fits(heights@, earlier, end as int, available as int));
                lemma_total_height_grows(heights@, earlier, end as int, next);
            }
        }
        while start < end && (added > available || height > available - added)
            invariant
                first <= start <= end < selected,
                selected < heights@.len(),
                added == heights@[end as int],
                height == total_height(heights@, start as int, end as int),
                height <= available,
                next == end + 1,
                forall|earlier: int|
                    first <= earlier < start ==> !fits(heights@, earlier, next, available as int),
            decreases end - start,
        {
            proof {
                lemma_total_height_front(heights@, start as int, end as int);
                lemma_total_height_grows(heights@, start + 1, start + 1, end as int);
            }
            height -= heights[start];
            start += 1;
        }
        if added > available {
            proof {
                assert(total_height(heights@, end as int, end as int) == 0);
                assert(total_height(heights@, end + 1, end + 1) == 0);
            }
            start = end + 1;
            height = 0;
        } else {
            height += added;
        }
        end += 1;
    }
    // The selected entry is shown, whatever has to leave the window for it.
    let added: usize = heights[selected];
    let ghost next: int = selected + 1;
    proof {
        assert forall|earlier: int| first <= earlier < start implies !fits(
            heights@,
            earlier,
            next,
            available as int,
        ) by {
            assert(!fits(heights@, earlier, end as int, available as int));
            lemma_total_height_grows(heights@, earlier, end as int, next);
        }
    }
    while start < selected && (added > available || height > available - added)
        invariant
            first <= start <= selected,
            end == selected,
            selected < heights@.len(),
            added == heights@[selected as int],
            height == total_height(heights@, start as int, selected as int),
            height <= available,
            next == selected + 1,
            forall|earlier: int|
                first <= earlier < start ==> !fits(heights@, earlier, next, available as int),
        decreases selected - start,
    {
        proof {
            lemma_total_height_front(heights@, start as int, selected as int);
            lemma_total_height_grows(heights@, start + 1, start + 1, selected as int);
        }
        height -= heights[start];
        start += 1;
    }
    proof {
        lemma_window_holds_selected(
            heights@,
            selected as int,
            offset as int,
            available as int,
            start as int,
            next,
        );
    }
    (start, selected + 1)
}

} // verus!
