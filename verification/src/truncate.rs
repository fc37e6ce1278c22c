//! Cutting a line of text off where it would outgrow the columns that it is given, and
//! scrolling it sideways.

use vstd::prelude::*;
use crate::text::{grapheme_views, GraphemeView, StyledGrapheme};
use crate::unicode::{concat, contents, display_width, grapheme_clusters, graphemes, symbol_width};

verus! {

/// How many characters the grapheme clusters make up that are scrolled out of sight: the
/// clusters at the start of `clusters` that together take no more than `offset` columns.
pub open spec fn scrolled_out(clusters: Seq<Seq<char>>, offset: int) -> int
    decreases clusters.len(),
{
    if clusters.len() == 0 {
        0
    } else {
        let width = display_width(clusters[0]) as int;
        if width <= offset {
            clusters[0].len() + scrolled_out(clusters.drop_first(), offset - width)
        } else {
            0
        }
    }
}

/// What is left of a string when its first `offset` columns are scrolled out of sight. No
/// grapheme cluster is divided: one that is only partly out of sight stays whole.
pub open spec fn trimmed(src: Seq<char>, offset: int) -> Seq<char> {
    src.skip(scrolled_out(grapheme_clusters(src), offset))
}

/// The first strings of a list make up no more characters than all of them.
proof fn lemma_concat_prefix(parts: Seq<Seq<char>>, count: int)
    requires
        0 <= count <= parts.len(),
    ensures
        concat(parts.take(count)).len() <= concat(parts).len(),
    decreases parts.len(),
{
    if count == parts.len() {
        assert(parts.take(count) =~= parts);
    } else {
        lemma_concat_prefix(parts.drop_last(), count);
        assert(parts.drop_last().take(count) =~= parts.take(count));
    }
}

/// The part of `src` that starts `offset` columns from its start, see `trimmed`.
pub fn trim_offset(src: &str, offset: usize) -> (rest: &str)
    ensures
        rest@ == trimmed(src@, offset as int),
{
    let clusters = graphemes(src);
    let length: usize = src.unicode_len();
    let ghost parts = contents(clusters@);
    let mut left: usize = offset;
    let mut start: usize = 0;
    let mut i: usize = 0;
    let mut stopped = false;
    proof {
        assert(parts.skip(0) =~= parts);
        assert(parts.take(0) =~= Seq::<Seq<char>>::empty());
    }
    while !stopped && i < clusters.len()
        invariant
            i <= clusters@.len(),
            parts == contents(clusters@),
            concat(parts) == src@,
            length == src@.len(),
            start == concat(parts.take(i as int)).len(),
            !stopped ==> scrolled_out(parts, offset as int) == start + scrolled_out(
                parts.skip(i as int),
                left as int,
            ),
            stopped ==> scrolled_out(parts, offset as int) == start,
        decreases clusters@.len() - i + (if stopped { 0int } else { 1int }),
    {
        let cluster = clusters[i].as_str();
        let width: usize = symbol_width(cluster);
        proof {
            assert(parts.skip(i as int)[0] == parts[i as int]);
            assert(parts[i as int] == clusters@[i as int]@);
            assert(parts.skip(i as int).drop_first() =~= parts.skip(i + 1));
            assert(parts.take(i + 1).drop_last() =~= parts.take(i as int));
            lemma_concat_prefix(parts, i + 1);
        }
        if width <= left {
            left = left - width;
            start = start + cluster.unicode_len();
            i += 1;
        } else {
            stopped = true;
        }
    }
    proof {
        lemma_concat_prefix(parts, i as int);
    }
    src.substring_char(start, length)
}

/// What becomes of a fragment when a line is cut to the columns that it is given.
#[derive(Clone, Copy, Debug, PartialEq, Eq, Structural)]
pub enum Truncation {
    /// The fragment is wider than any line: it is passed over.
    Skip,
    /// The fragment does not fit the line any more: the line ends before it.
    Stop,
    /// The fragment joins the line.
    Keep,
    /// The fragment is scrolled out of sight: an empty fragment joins the line for it.
    Blank,
    /// The fragment is partly scrolled out of sight: what `trimmed` leaves of it joins the
    /// line.
    Cut,
}

/// What becomes of a fragment of `width` columns, where the line holds `used` columns,
/// `offset` columns are still to be scrolled out of sight, and a line has `max` columns.
/// Only lines that are aligned to the left are scrolled.
pub open spec fn truncation(width: int, used: int, offset: int, left: bool, max: int) -> Truncation {
    if width > max {
        Truncation::Skip
    } else if used + width > max {
        Truncation::Stop
    } else if offset == 0 || !left {
        Truncation::Keep
    } else if width > offset {
        Truncation::Cut
    } else {
        Truncation::Blank
    }
}

/// Decides what becomes of a fragment, see `truncation`.
pub fn truncate_step(width: usize, used: usize, offset: usize, left: bool, max_width: u16) -> (step:
    Truncation)
    ensures
        step == truncation(width as int, used as int, offset as int, left, max_width as int),
{
    let max: usize = max_width as usize;
    if width > max {
        Truncation::Skip
    } else if used > max || width > max - used {
        Truncation::Stop
    } else if offset == 0 || !left {
        Truncation::Keep
    } else if width > offset {
        Truncation::Cut
    } else {
        Truncation::Blank
    }
}

/// The line that the fragments from `from` on make, and its width, where the line
/// already holds `used` columns: the fragments join the line one by one as `truncation`
/// says, until one does not fit; that one and all after it are dropped.
pub open spec fn truncated_from(
    symbols: Seq<GraphemeView>,
    from: nat,
    used: int,
    offset: int,
    left: bool,
    max: int,
) -> (Seq<GraphemeView>, int)
    decreases symbols.len() - from,
{
    if from >= symbols.len() {
        (Seq::empty(), used)
    } else {
        let grapheme = symbols[from as int];
        let width = display_width(grapheme.symbol) as int;
        match truncation(width, used, offset, left, max) {
            Truncation::Skip => truncated_from(symbols, from + 1, used, offset, left, max),
            Truncation::Stop => (Seq::empty(), used),
            Truncation::Keep => {
                let rest = truncated_from(symbols, from + 1, used + width, offset, left, max);
                (seq![grapheme] + rest.0, rest.1)
            },
            Truncation::Blank => {
                let blank = GraphemeView { symbol: Seq::empty(), style: grapheme.style };
                let rest = truncated_from(symbols, from + 1, used, offset - width, left, max);
                (seq![blank] + rest.0, rest.1)
            },
            Truncation::Cut => {
                let cut = GraphemeView {
                    symbol: trimmed(grapheme.symbol, offset),
                    style: grapheme.style,
                };
                let rest = truncated_from(
                    symbols,
                    from + 1,
                    used + display_width(cut.symbol),
                    0,
                    left,
                    max,
                );
                (seq![cut] + rest.0, rest.1)
            },
        }
    }
}

/// The line that the fragments make when it is cut to `max` columns and scrolled by
/// `offset` columns, and its width.
pub open spec fn truncated(symbols: Seq<GraphemeView>, offset: int, left: bool, max: int) -> (
    Seq<GraphemeView>,
    int,
) {
    truncated_from(symbols, 0, 0, offset, left, max)
}

/// Cuts a line to `max_width` columns, scrolled by `offset` columns if it is aligned to
/// the left. Returns the line and its width.
pub fn truncate_symbols(symbols: &Vec<StyledGrapheme>, offset: usize, left: bool, max_width: u16) -> (line: (
    Vec<StyledGrapheme>,
    usize,
))
    ensures
        grapheme_views(line.0@) == truncated(
            grapheme_views(symbols@),
            offset as int,
            left,
            max_width as int,
        ).0,
        line.1 == truncated(grapheme_views(symbols@), offset as int, left, max_width as int).1,
{
    let ghost all = grapheme_views(symbols@);
    let ghost max = max_width as int;
    let ghost goal = truncated(all, offset as int, left, max);
    let mut line: Vec<StyledGrapheme> = Vec::new();
    let mut used: usize = 0;
    let mut scroll: usize = offset;
    let mut i: usize = 0;
    let mut stopped = false;
    proof {
        assert(grapheme_views(line@) + goal.0 =~= goal.0);
    }
    while !stopped && i < symbols.len()
        invariant
            i <= symbols@.len(),
            all == grapheme_views(symbols@),
            max == max_width,
            left && scroll > 0 ==> used == 0,
            !stopped ==> grapheme_views(line@) + truncated_from(
                all,
                i as nat,
                used as int,
                scroll as int,
                left,
                max,
            ).0 == goal.0,
            !stopped ==> truncated_from(all, i as nat, used as int, scroll as int, left, max).1
                == goal.1,
            stopped ==> grapheme_views(line@) == goal.0 && used == goal.1,
        decreases symbols@.len() - i + (if stopped { 0int } else { 1int }),
    {
        let ghost before = grapheme_views(line@);
        let ghost grapheme = all[i as int];
        let ghost rest = truncated_from(all, i as nat, used as int, scroll as int, left, max);
        let symbol = symbols[i].symbol.as_str();
        let width: usize = symbol_width(symbol);
        assert(grapheme == symbols@[i as int]@);
        match truncate_step(width, used, scroll, left, max_width) {
            Truncation::Skip => {
                i += 1;
            },
            Truncation::Stop => {
                proof {
                    assert(before + rest.0 =~= before);
                }
                stopped = true;
            },
            Truncation::Keep => {
                line.push(symbols[i].duplicate());
                used = used + width;
                i += 1;
                proof {
                    let after = truncated_from(all, i as nat, used as int, scroll as int, left, max);
                    assert(grapheme_views(line@) =~= before.push(grapheme));
                    assert(before + (seq![grapheme] + after.0) =~= before.push(grapheme) + after.0);
                }
            },
            Truncation::Blank => {
                let blank = StyledGrapheme::new(String::new(), symbols[i].style);
                let ghost shown = blank@;
                line.push(blank);
                scroll = scroll - width;
                i += 1;
                proof {
                    let after = truncated_from(all, i as nat, used as int, scroll as int, left, max);
                    assert(shown == (GraphemeView { symbol: Seq::empty(), style: grapheme.style }));
                    assert(grapheme_views(line@) =~= before.push(shown));
                    assert(before + (seq![shown] + after.0) =~= before.push(shown) + after.0);
                }
            },
            Truncation::Cut => {
                let rest_of_symbol = trim_offset(symbol, scroll);
                let cut_width: usize = symbol_width(rest_of_symbol);
                let cut = StyledGrapheme::new(String::from_str(rest_of_symbol), symbols[i].style);
                let ghost shown = cut@;
                line.push(cut);
                used = cut_width;
                scroll = 0;
                i += 1;
                proof {
                    let after = truncated_from(all, i as nat, used as int, scroll as int, left, max);
                    assert(grapheme_views(line@) =~= before.push(shown));
                    assert(before + (seq![shown] + after.0) =~= before.push(shown) + after.0);
                }
            },
        }
    }
    proof {
        if !stopped {
            assert(grapheme_views(line@) + Seq::<GraphemeView>::empty() =~= grapheme_views(line@));
        }
    }
    (line, used)
}

/// The fragments from `from` on that are no wider than a line.
pub open spec fn narrow_from(symbols: Seq<GraphemeView>, from: nat, max: int) -> Seq<GraphemeView>
    decreases symbols.len() - from,
{
    if from >= symbols.len() {
        Seq::empty()
    } else if display_width(symbols[from as int].symbol) > max {
        narrow_from(symbols, from + 1, max)
    } else {
        seq![symbols[from as int]] + narrow_from(symbols, from + 1, max)
    }
}

/// Whether no fragment is wider when its start is scrolled out of sight than it is whole.
pub open spec fn cut_narrows(symbols: Seq<GraphemeView>) -> bool {
    forall|i: int, offset: int|
        0 <= i < symbols.len() && 0 < offset < display_width(symbols[i].symbol) ==> display_width(
            #[trigger] trimmed(symbols[i].symbol, offset),
        ) <= display_width(symbols[i].symbol)
}

/// Whether every fragment is one grapheme cluster.
pub open spec fn single_clusters(symbols: Seq<GraphemeView>) -> bool {
    forall|i: int|
        0 <= i < symbols.len() ==> grapheme_clusters(#[trigger] symbols[i].symbol) == seq![
            symbols[i].symbol,
        ]
}

/// A fragment that is one grapheme cluster is never divided: it stays whole when it is
/// partly scrolled out of sight.
pub proof fn lemma_single_clusters_stay_whole(symbols: Seq<GraphemeView>)
    requires
        single_clusters(symbols),
    ensures
        cut_narrows(symbols),
        forall|i: int, offset: int|
            0 <= i < symbols.len() && 0 <= offset < display_width(symbols[i].symbol)
                ==> #[trigger] trimmed(symbols[i].symbol, offset) == symbols[i].symbol,
{
    assert forall|i: int, offset: int|
        0 <= i < symbols.len() && 0 <= offset < display_width(
            symbols[i].symbol,
        ) implies #[trigger] trimmed(symbols[i].symbol, offset) == symbols[i].symbol by {
        let symbol = symbols[i].symbol;
        assert(grapheme_clusters(symbol)[0] == symbol);
        assert(scrolled_out(grapheme_clusters(symbol), offset) == 0);
        assert(symbol.skip(0) =~= symbol);
    }
}

/// A line is never wider than `max` columns when it is cut, if it is not scrolled, or if
/// no fragment is wider when its start is scrolled out of sight than it is whole.
pub proof fn lemma_truncated_fits(
    symbols: Seq<GraphemeView>,
    from: nat,
    used: int,
    offset: int,
    left: bool,
    max: int,
)
    requires
        used <= max,
        offset >= 0,
        offset == 0 || !left || cut_narrows(symbols),
    ensures
        used <= truncated_from(symbols, from, used, offset, left, max).1 <= max,
    decreases symbols.len() - from,
{
    if from < symbols.len() {
        let symbol = symbols[from as int].symbol;
        let width = display_width(symbol) as int;
        match truncation(width, used, offset, left, max) {
            Truncation::Skip => {
                lemma_truncated_fits(symbols, from + 1, used, offset, left, max);
            },
            Truncation::Keep => {
                lemma_truncated_fits(symbols, from + 1, used + width, offset, left, max);
            },
            Truncation::Blank => {
                lemma_truncated_fits(symbols, from + 1, used, offset - width, left, max);
            },
            Truncation::Cut => {
                let cut = display_width(trimmed(symbol, offset)) as int;
                assert(cut <= width);
                lemma_truncated_fits(symbols, from + 1, used + cut, 0, left, max);
            },
            Truncation::Stop => {},
        }
    }
}

/// A line that is not scrolled is cut at the first fragment that does not fit: the line
/// is made of the first of the fragments that are no wider than a line, in their order,
/// and the one after them, if there is one, would make the line wider than `max` columns.
/// The line is as wide as its fragments are together.
pub proof fn lemma_truncated_is_prefix(
    symbols: Seq<GraphemeView>,
    from: nat,
    used: int,
    offset: int,
    left: bool,
    max: int,
)
    requires
        offset == 0 || !left,
    ensures
        ({
            let line = truncated_from(symbols, from, used, offset, left, max);
            let narrow = narrow_from(symbols, from, max);
            &&& line.0.len() <= narrow.len()
            &&& line.0 == narrow.take(line.0.len() as int)
            &&& line.0.len() < narrow.len() ==> line.1 + display_width(
                narrow[line.0.len() as int].symbol,
            ) > max
            &&& line.1 == used + total_display_width(line.0)
        }),
    decreases symbols.len() - from,
{
    let line = truncated_from(symbols, from, used, offset, left, max);
    let narrow = narrow_from(symbols, from, max);
    if from < symbols.len() {
        let grapheme = symbols[from as int];
        let width = display_width(grapheme.symbol) as int;
        match truncation(width, used, offset, left, max) {
            Truncation::Skip => {
                lemma_truncated_is_prefix(symbols, from + 1, used, offset, left, max);
            },
            Truncation::Keep => {
                lemma_truncated_is_prefix(symbols, from + 1, used + width, offset, left, max);
                let rest = truncated_from(symbols, from + 1, used + width, offset, left, max);
                let narrow_rest = narrow_from(symbols, from + 1, max);
                assert(line.0 =~= narrow.take(line.0.len() as int)) by {
                    assert(line.0 == seq![grapheme] + rest.0);
                    assert(narrow == seq![grapheme] + narrow_rest);
                    assert forall|k: int| 0 <= k < line.0.len() implies line.0[k] == narrow[k] by {
                        if k > 0 {
                            assert(line.0[k] == rest.0[k - 1]);
                            assert(rest.0[k - 1] == narrow_rest.take(rest.0.len() as int)[k - 1]);
                            assert(narrow[k] == narrow_rest[k - 1]);
                        }
                    }
                }
                if line.0.len() < narrow.len() {
                    assert(narrow[line.0.len() as int] == narrow_rest[rest.0.len() as int]);
                }
                lemma_total_display_width_front(line.0);
                assert(line.0.drop_first() =~= rest.0);
            },
            Truncation::Stop => {
                assert(line.0 =~= narrow.take(0));
                assert(narrow[0] == grapheme);
            },
            _ => {},
        }
    } else {
        assert(line.0 =~= narrow.take(0));
    }
}

/// The width of the fragments of a line together.
pub open spec fn total_display_width(line: Seq<GraphemeView>) -> int
    decreases line.len(),
{
    if line.len() == 0 {
        0
    } else {
        total_display_width(line.drop_last()) + display_width(line.last().symbol)
    }
}

proof fn lemma_total_display_width_front(line: Seq<GraphemeView>)
    requires
        line.len() > 0,
    ensures
        total_display_width(line) == display_width(line[0].symbol) + total_display_width(
            line.drop_first(),
        ),
    decreases line.len(),
{
    if line.len() == 1 {
        assert(line.drop_last() =~= Seq::<GraphemeView>::empty());
        assert(line.drop_first() =~= Seq::<GraphemeView>::empty());
        assert(total_display_width(line.drop_last()) == 0);
        assert(total_display_width(line.drop_first()) == 0);
    } else {
        lemma_total_display_width_front(line.drop_last());
        assert(line.drop_last().drop_first() =~= line.drop_first().drop_last());
        assert(line.drop_last()[0] == line[0]);
        assert(line.drop_first().last() == line.last());
    }
}

} // verus!
