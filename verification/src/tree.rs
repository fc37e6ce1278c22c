//! The tree as it is drawn: its nodes, how it looks, and which rows it takes in a viewport.

use vstd::prelude::*;
use crate::flatten::{entries, flatten, identifiers, position, position_of, same_identifier, visible, Entry};
use crate::item::TreeItem;
use crate::state::TreeState;
use crate::text::{default_style, is_plain, patch_style, patched_style};
use crate::unicode::{display_width, symbol_width};
use crate::window::{is_window, lemma_total_height_grows, total_height, window};

verus! {

/// The frame that `tui` draws around a widget. The library keeps it for the drawing and
/// never looks inside it.
#[verifier::external_type_specification]
#[verifier::external_body]
pub struct ExBlock<'a>(tui::widgets::Block<'a>);

/// The corner of the viewport from which the rows are laid out.
#[derive(Clone, Copy, Debug, PartialEq, Eq, Structural)]
pub enum Corner {
    TopLeft,
    TopRight,
    BottomRight,
    BottomLeft,
}

/// A tree that can be drawn.
pub struct Tree<'a> {
    pub items: Vec<TreeItem>,
    pub block: Option<tui::widgets::Block<'a>>,
    /// Whether the content of the nodes is wrapped.
    pub wrap: bool,
    pub start_corner: Corner,
    /// The style of the whole widget.
    pub style: tui::style::Style,
    /// The style of the selected node.
    pub highlight_style: tui::style::Style,
    /// The symbol in front of the selected node; it moves all nodes to the right.
    pub highlight_symbol: &'a str,
    /// The symbol in front of a node whose children are not visible.
    pub node_closed_symbol: &'a str,
    /// The symbol in front of a node whose children are visible.
    pub node_open_symbol: &'a str,
    /// The symbol in front of a node without children.
    pub node_no_children_symbol: &'a str,
}

/// Which symbol stands in front of a node.
#[derive(Clone, Copy, Debug, PartialEq, Eq, Structural)]
pub enum Marker {
    NoChildren,
    Open,
    Closed,
}

/// A visible node as it is drawn.
pub struct Row<'a> {
    pub identifier: Vec<usize>,
    pub item: &'a TreeItem,
    /// The number of ancestors of the node.
    pub depth: usize,
    /// The number of columns by which the node is indented.
    pub indent: usize,
    /// The number of lines between the start of the viewport and the node.
    pub top: usize,
    /// The number of lines of the node.
    pub height: usize,
    pub selected: bool,
    pub marker: Marker,
    /// The style of the node laid over the style of the tree.
    pub style: tui::style::Style,
}

/// The symbol that stands in front of a node.
pub open spec fn marker_of(entry: Entry, opened: Set<Seq<usize>>) -> Marker {
    if entry.item.children@.len() == 0 {
        Marker::NoChildren
    } else if opened.contains(entry.identifier) {
        Marker::Open
    } else {
        Marker::Closed
    }
}

/// The heights of the nodes of a list.
pub open spec fn heights_of(list: Seq<Entry>) -> Seq<usize> {
    Seq::new(list.len(), |i: int| list[i].item.text.lines.len())
}

/// The index of the node that the window is laid around: the selected node, or the first
/// one where the selected node is not in the list.
pub open spec fn anchor(list: Seq<Entry>, selected: Seq<usize>) -> int {
    let at = position(identifiers(list), selected);
    if at < list.len() {
        at
    } else {
        0
    }
}

/// The indentation of a node with `depth` ancestors: two columns for each of them.
pub open spec fn indent_of(depth: int) -> int {
    if 2 * depth > usize::MAX {
        usize::MAX as int
    } else {
        2 * depth
    }
}

/// Whether `row` is how the node `entry` is drawn `top` lines from the start, in a tree
/// of the style `base`.
pub open spec fn draws(
    row: Row,
    entry: Entry,
    top: int,
    state: crate::state::TreeStateView,
    base: tui::style::Style,
) -> bool {
    &&& row.identifier@ == entry.identifier
    &&& *row.item == entry.item
    &&& row.depth == entry.identifier.len() - 1
    &&& row.indent == indent_of(entry.identifier.len() - 1)
    &&& row.top == top
    &&& row.height == entry.item.text.lines.len()
    &&& row.selected == (entry.identifier == state.selected)
    &&& row.marker == marker_of(entry, state.opened)
    &&& row.style == patched_style(base, entry.item.style)
}

impl<'a> Tree<'a> {
    /// A tree with the given roots, without a frame, in the default styles, with arrows
    /// in front of the nodes that have children.
    #[must_use]
    pub fn new(items: Vec<TreeItem>) -> (tree: Tree<'a>)
        ensures
            tree.items == items,
            tree.block.is_none(),
            !tree.wrap,
            tree.start_corner == Corner::TopLeft,
            is_plain(tree.style),
            is_plain(tree.highlight_style),
            tree.highlight_symbol@ == ""@,
            tree.node_closed_symbol@ == "\u{25b6} "@,
            tree.node_open_symbol@ == "\u{25bc} "@,
            tree.node_no_children_symbol@ == "  "@,
    {
        Tree {
            items,
            block: None,
            wrap: false,
            start_corner: Corner::TopLeft,
            style: default_style(),
            highlight_style: default_style(),
            highlight_symbol: "",
            node_closed_symbol: "\u{25b6} ",
            node_open_symbol: "\u{25bc} ",
            node_no_children_symbol: "  ",
        }
    }

    #[must_use]
    pub fn block(self, block: tui::widgets::Block<'a>) -> (tree: Tree<'a>)
        ensures
            tree == (Tree { block: Some(block), ..self }),
    {
        let mut tree = self;
        tree.block = Some(block);
        tree
    }

    #[must_use]
    pub fn wrap(self, wrap: bool) -> (tree: Tree<'a>)
        ensures
            tree == (Tree { wrap, ..self }),
    {
        let mut tree = self;
        tree.wrap = wrap;
        tree
    }

    #[must_use]
    pub fn start_corner(self, corner: Corner) -> (tree: Tree<'a>)
        ensures
            tree == (Tree { start_corner: corner, ..self }),
    {
        let mut tree = self;
        tree.start_corner = corner;
        tree
    }

    #[must_use]
    pub fn style(self, style: tui::style::Style) -> (tree: Tree<'a>)
        ensures
            tree == (Tree { style, ..self }),
    {
        let mut tree = self;
        tree.style = style;
        tree
    }

    #[must_use]
    pub fn highlight_style(self, style: tui::style::Style) -> (tree: Tree<'a>)
        ensures
            tree == (Tree { highlight_style: style, ..self }),
    {
        let mut tree = self;
        tree.highlight_style = style;
        tree
    }

    #[must_use]
    pub fn highlight_symbol(self, highlight_symbol: &'a str) -> (tree: Tree<'a>)
        ensures
            tree == (Tree { highlight_symbol, ..self }),
    {
        let mut tree = self;
        tree.highlight_symbol = highlight_symbol;
        tree
    }

    #[must_use]
    pub fn node_closed_symbol(self, symbol: &'a str) -> (tree: Tree<'a>)
        ensures
            tree == (Tree { node_closed_symbol: symbol, ..self }),
    {
        let mut tree = self;
        tree.node_closed_symbol = symbol;
        tree
    }

    #[must_use]
    pub fn node_open_symbol(self, symbol: &'a str) -> (tree: Tree<'a>)
        ensures
            tree == (Tree { node_open_symbol: symbol, ..self }),
    {
        let mut tree = self;
        tree.node_open_symbol = symbol;
        tree
    }

    #[must_use]
    pub fn node_no_children_symbol(self, symbol: &'a str) -> (tree: Tree<'a>)
        ensures
            tree == (Tree { node_no_children_symbol: symbol, ..self }),
    {
        let mut tree = self;
        tree.node_no_children_symbol = symbol;
        tree
    }
}

/// The rows of the nodes `start..start + rows.len()` of `list`, one below the other.
pub open spec fn draws_window(
    rows: Seq<Row>,
    list: Seq<Entry>,
    start: int,
    state: crate::state::TreeStateView,
    base: tui::style::Style,
) -> bool {
    forall|k: int|
        0 <= k < rows.len() ==> draws(
            #[trigger] rows[k],
            list[start + k],
            total_height(heights_of(list), start, start + k),
            state,
            base,
        )
}

impl<'a> Tree<'a> {
    /// Lays the tree out in a viewport of the given size, and scrolls `state` so that the
    /// selected node is shown.
    ///
    /// The rows are those of the visible nodes in the window that `is_window` describes,
    /// laid around the selected node, or around the first node where the selected node
    /// is not visible. That node is always among the rows; where it alone is higher than
    /// the viewport, it is the only row. Nothing is laid out, and `state` stays as it is,
    /// where the viewport or the tree is empty.
    pub fn rows(&self, state: &mut TreeState, available_width: usize, available_height: usize) -> (rows:
        Vec<Row<'_>>)
        requires
            old(state).wf(),
        ensures
            final(state).wf(),
            final(state)@.opened == old(state)@.opened,
            final(state)@.selected == old(state)@.selected,
            ({
                let list = visible(old(state)@.opened, self.items@);
                if available_width < 1 || available_height < 1 || list.len() == 0 {
                    &&& rows@.len() == 0
                    &&& final(state)@.offset == old(state)@.offset
                } else {
                    &&& is_window(
                        heights_of(list),
                        anchor(list, old(state)@.selected),
                        old(state)@.offset as int,
                        available_height as int,
                        final(state)@.offset as int,
                        (final(state)@.offset + rows@.len()) as int,
                    )
                    &&& final(state)@.offset <= anchor(list, old(state)@.selected)
                        < final(state)@.offset + rows@.len() <= list.len()
                    &&& draws_window(rows@, list, final(state)@.offset as int, old(state)@, self.style)
                    &&& forall|k: int|
                        0 <= k < rows@.len() ==> (#[trigger] rows@[k]).top <= available_height
                    &&& heights_of(list)[anchor(list, old(state)@.selected)] <= available_height
                        ==> {
                        &&& forall|k: int|
                            0 <= k < rows@.len() ==> (#[trigger] rows@[k]).top + rows@[k].height
                                <= available_height
                        &&& total_height(
                            heights_of(list),
                            final(state)@.offset as int,
                            (final(state)@.offset + rows@.len()) as int,
                        ) <= available_height
                    }
                    &&& heights_of(list)[anchor(list, old(state)@.selected)] > available_height
                        ==> rows@.len() == 1
                }
            }),
    {
        let mut rows: Vec<Row> = Vec::new();
        if available_width < 1 || available_height < 1 {
            return rows;
        }
        let opened = state.get_all_opened();
        let list = flatten(opened.as_slice(), self.items.as_slice());
        if list.len() == 0 {
            return rows;
        }
        let ghost all = entries(list@);
        let ghost before = state@;
        proof {
            crate::flatten::lemma_visible_is_identified(before.opened, self.items@);
        }
        let mut heights: Vec<usize> = Vec::new();
        let mut i: usize = 0;
        while i < list.len()
            invariant
                i <= list@.len(),
                all == entries(list@),
                heights@.len() == i,
                forall|j: int| 0 <= j < i ==> #[trigger] heights@[j] == heights_of(all)[j],
            decreases list@.len() - i,
        {
            assert(all[i as int] == list@[i as int]@);
            heights.push(list[i].item().height());
            i += 1;
        }
        proof {
            assert(heights@ =~= heights_of(all));
        }
        let selected = state.selected();
        let found: usize = position_of(&list, selected.as_slice());
        let selected_index: usize = if found < list.len() {
            found
        } else {
            0
        };
        let (start, end) = window(heights.as_slice(), selected_index, state.get_offset(), available_height);
        state.scroll_to(start);
        proof {
            if heights@[selected_index as int] > available_height {
                lemma_total_height_grows(heights@, start as int, start as int, end as int);
                assert(total_height(heights@, start as int, start as int) == 0);
            }
        }
        let mut top: usize = 0;
        let mut k: usize = start;
        while k < end
            invariant
                start <= k <= end <= list@.len(),
                all == entries(list@),
                all == visible(before.opened, self.items@),
                heights@ == heights_of(all),
                state.wf(),
                state@.opened == before.opened,
                state@.selected == before.selected,
                selected@ == before.selected,
                forall|j: int| 0 <= j < all.len() ==> (#[trigger] all[j]).identifier.len() > 0,
                total_height(heights@, start as int, end as int) <= usize::MAX,
                heights@[selected_index as int] <= available_height ==> total_height(
                    heights@,
                    start as int,
                    end as int,
                ) <= available_height,
                heights@[selected_index as int] > available_height ==> end == start + 1,
                top == total_height(heights@, start as int, k as int),
                rows@.len() == k - start,
                draws_window(rows@, all, start as int, before, self.style),
                forall|j: int| 0 <= j < rows@.len() ==> (#[trigger] rows@[j]).top <= available_height,
                heights@[selected_index as int] <= available_height ==> forall|j: int|
                    0 <= j < rows@.len() ==> (#[trigger] rows@[j]).top + rows@[j].height
                        <= available_height,
            decreases end - k,
        {
            let entry = &list[k];
            let ghost shown = all[k as int];
            assert(shown == list@[k as int]@);
            assert(shown.identifier.len() > 0);
            let identifier = vstd::slice::slice_to_vec(entry.identifier().as_slice());
            let depth: usize = entry.depth();
            let indent: usize = if depth > usize::MAX / 2 {
                usize::MAX
            } else {
                2 * depth
            };
            let height: usize = heights[k];
            let marker = if entry.item().children().len() == 0 {
                Marker::NoChildren
            } else if state.is_open(identifier.as_slice()) {
                Marker::Open
            } else {
                Marker::Closed
            };
            let is_selected = same_identifier(identifier.as_slice(), selected.as_slice());
            let style = patch_style(self.style, entry.item().style);
            let ghost drawn = rows@;
            rows.push(
                Row {
                    identifier,
                    item: entry.item(),
                    depth,
                    indent,
                    top,
                    height,
                    selected: is_selected,
                    marker,
                    style,
                },
            );
            proof {
                lemma_total_height_grows(heights@, start as int, k + 1, end as int);
                assert forall|j: int| 0 <= j < rows@.len() implies draws(
                    #[trigger] rows@[j],
                    all[start + j],
                    total_height(heights_of(all), start as int, start + j),
                    before,
                    self.style,
                ) by {
                    if j < drawn.len() {
                        assert(rows@[j] == drawn[j]);
                    }
                }
            }
            top = top + height;
            k += 1;
        }
        rows
    }

    /// How many lines of a row are shown in a viewport of `area_height` lines: all of
    /// them, or as many as there are from the start of the row to the end of the viewport.
    pub fn shown_height(&self, row: &Row, area_height: u16) -> (height: u16)
        requires
            row.top <= area_height,
        ensures
            height == (if row.top + row.height <= area_height {
                row.height as int
            } else {
                area_height - row.top
            }),
    {
        let left: usize = area_height as usize - row.top;
        if row.height <= left {
            row.height as u16
        } else {
            left as u16
        }
    }

    /// The line of the viewport on which a row starts, counted from the top, in a viewport
    /// of `area_height` lines: the rows are laid out downwards from the top, or upwards
    /// from the bottom where the tree starts in the bottom left corner. A row that is
    /// higher than what is left of the viewport takes what is left.
    pub fn first_line(&self, row: &Row, area_height: u16) -> (line: u16)
        requires
            row.top <= area_height,
        ensures
            line == (if self.start_corner != Corner::BottomLeft {
                row.top as int
            } else if row.top + row.height <= area_height {
                area_height - (row.top + row.height)
            } else {
                0
            }),
    {
        match self.start_corner {
            Corner::BottomLeft => {
                let shown: u16 = self.shown_height(row, area_height);
                area_height - row.top as u16 - shown
            },
            _ => row.top as u16,
        }
    }

    /// As many spaces as the symbol of the selected node is wide: what stands in front of
    /// the other nodes.
    pub fn blank_symbol(&self) -> (blank: String)
        ensures
            blank@ == Seq::new(display_width(self.highlight_symbol@), |i: int| ' '),
    {
        let width: usize = symbol_width(self.highlight_symbol);
        spaces(width)
    }
}

/// A string of `count` spaces.
pub fn spaces(count: usize) -> (blank: String)
    ensures
        blank@ == Seq::new(count as nat, |i: int| ' '),
{
    let mut blank = String::new();
    let mut i: usize = 0;
    proof {
        reveal_strlit(" ");
        assert(blank@ =~= Seq::new(0, |i: int| ' '));
    }
    while i < count
        invariant
            i <= count,
            blank@ == Seq::new(i as nat, |i: int| ' '),
            " "@ == seq![' '],
        decreases count - i,
    {
        let ghost before = blank@;
        blank.append(" ");
        i += 1;
        proof {
            assert(blank@ =~= Seq::new(i as nat, |i: int| ' '));
        }
    }
    blank
}

} // verus!
