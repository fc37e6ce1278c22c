//! The nodes of the tree.

use vstd::prelude::*;
use crate::reflow::{inputs, wrapped_text, Composed, LineComposer, WordWrapper};
use crate::text::{
    default_style, grapheme_views, is_plain, line_graphemes, styled_line, Alignment, GraphemeView,
    StyledGrapheme, Text,
};

verus! {

/// Whether the content of a node is wrapped, and to how many columns.
#[derive(Clone, Copy, Debug)]
pub enum Wrap {
    Width(usize),
    Off,
}

/// One node of the tree, with its content, its style and its children.
#[derive(Debug)]
pub struct TreeItem {
    pub text: Text,
    pub style: tui::style::Style,
    pub children: Vec<TreeItem>,
}

/// The lines of a text as a composer takes them: the fragments of each line, in their
/// spans' styles laid over `style`, aligned to the left.
pub open spec fn text_inputs(text: Text, style: tui::style::Style) -> Seq<
    (Seq<GraphemeView>, Alignment),
> {
    Seq::new(
        text.lines@.len(),
        |i: int| (line_graphemes(text.lines@[i]@, 0, style), Alignment::Left),
    )
}

/// The number of columns that content is wrapped to: no more than 16 bits hold.
pub open spec fn wrap_columns(width: usize) -> int {
    if width > u16::MAX {
        u16::MAX as int
    } else {
        width as int
    }
}

/// The lines that are shown for the content of a node: its lines as they are, or wrapped
/// at word boundaries, without the whitespace that would start a line.
pub open spec fn shown_lines(text: Text, style: tui::style::Style, wrap: Wrap) -> Seq<Seq<GraphemeView>> {
    match wrap {
        Wrap::Off => Seq::new(text.lines@.len(), |i: int| text_inputs(text, style)[i].0),
        Wrap::Width(width) => {
            let composed = wrapped_text(text_inputs(text, style), wrap_columns(width), true);
            Seq::new(composed.len(), |i: int| composed[i].line)
        },
    }
}

/// What a list of lines holds.
pub open spec fn lines_views(lines: Seq<Vec<StyledGrapheme>>) -> Seq<Seq<GraphemeView>> {
    Seq::new(lines.len(), |i: int| grapheme_views(lines[i]@))
}

impl TreeItem {
    /// A node without children, in the default style.
    #[must_use]
    pub fn new_leaf(text: Text) -> (item: TreeItem)
        ensures
            item.text == text,
            item.children@.len() == 0,
            is_plain(item.style),
    {
        TreeItem { text, style: default_style(), children: Vec::new() }
    }

    /// A node with the given children, in the default style.
    #[must_use]
    pub fn new(text: Text, children: Vec<TreeItem>) -> (item: TreeItem)
        ensures
            item.text == text,
            item.children == children,
            is_plain(item.style),
    {
        TreeItem { text, style: default_style(), children }
    }

    #[must_use]
    pub fn children(&self) -> (children: &[TreeItem])
        ensures
            children@ == self.children@,
    {
        self.children.as_slice()
    }

    /// The child at `index`, if there is one.
    #[must_use]
    pub fn child(&self, index: usize) -> (child: Option<&TreeItem>)
        ensures
            index < self.children@.len() ==> child == Some(&self.children@[index as int]),
            index >= self.children@.len() ==> child.is_none(),
    {
        if index < self.children.len() {
            Some(&self.children[index])
        } else {
            None
        }
    }

    /// The number of lines of the content.
    #[must_use]
    pub fn height(&self) -> (height: usize)
        ensures
            height == self.text.lines@.len(),
    {
        self.text.lines.len()
    }

    /// The fragments of each line of the content.
    fn styled_lines(&self) -> (lines: Vec<(Vec<StyledGrapheme>, Alignment)>)
        ensures
            inputs(lines@) == text_inputs(self.text, self.style),
    {
        let mut lines: Vec<(Vec<StyledGrapheme>, Alignment)> = Vec::new();
        let mut i: usize = 0;
        while i < self.text.lines.len()
            invariant
                i <= self.text.lines@.len(),
                lines@.len() == i,
                forall|j: int|
                    0 <= j < i ==> grapheme_views((#[trigger] lines@[j]).0@) == line_graphemes(
                        self.text.lines@[j]@,
                        0,
                        self.style,
                    ) && lines@[j].1 == Alignment::Left,
            decreases self.text.lines@.len() - i,
        {
            lines.push((styled_line(&self.text.lines[i], self.style), Alignment::Left));
            i += 1;
        }
        proof {
            assert(inputs(lines@) =~= text_inputs(self.text, self.style));
        }
        lines
    }

    /// The lines that are shown for the content.
    pub fn lines(&self, wrap: Wrap) -> (lines: Vec<Vec<StyledGrapheme>>)
        ensures
            lines_views(lines@) == shown_lines(self.text, self.style, wrap),
    {
        let mut styled = self.styled_lines();
        let ghost fragments = inputs(styled@);
        let mut lines: Vec<Vec<StyledGrapheme>> = Vec::new();
        match wrap {
            Wrap::Off => {
                let mut i: usize = 0;
                while i < styled.len()
                    invariant
                        i <= styled@.len(),
                        lines@.len() == i,
                        forall|j: int|
                            0 <= j < i ==> grapheme_views(#[trigger] lines@[j]@) == grapheme_views(
                                styled@[j].0@,
                            ),
                    decreases styled@.len() - i,
                {
                    let mut line: Vec<StyledGrapheme> = Vec::new();
                    let mut k: usize = 0;
                    while k < styled[i].0.len()
                        invariant
                            i < styled@.len(),
                            k <= styled@[i as int].0@.len(),
                            line@.len() == k,
                            forall|j: int| 0 <= j < k ==> (#[trigger] line@[j])@ == styled@[i as int].0@[j]@,
                        decreases styled@[i as int].0@.len() - k,
                    {
                        line.push(styled[i].0[k].duplicate());
                        k += 1;
                    }
                    proof {
                        assert(grapheme_views(line@) =~= grapheme_views(styled@[i as int].0@));
                    }
                    lines.push(line);
                    i += 1;
                }
                proof {
                    assert forall|j: int| 0 <= j < lines@.len() implies grapheme_views(
                        #[trigger] lines@[j]@,
                    ) == text_inputs(self.text, self.style)[j].0 by {
                        assert(inputs(styled@)[j] == text_inputs(self.text, self.style)[j]);
                        assert(inputs(styled@)[j].0 == grapheme_views(styled@[j].0@));
                    }
                    assert(inputs(styled@).len() == styled@.len());
                    assert(text_inputs(self.text, self.style).len() == self.text.lines@.len());
                    assert(lines_views(lines@) =~= Seq::new(
                        self.text.lines@.len(),
                        |i: int| text_inputs(self.text, self.style)[i].0,
                    ));
                }
            },
            Wrap::Width(width) => {
                let columns: u16 = if width > u16::MAX as usize {
                    u16::MAX
                } else {
                    width as u16
                };
                let mut wrapper = WordWrapper::new(styled, columns, true);
                let ghost composed = wrapper.remaining();
                let mut done = false;
                proof {
                    assert(composed.skip(0) =~= composed);
                    assert(columns == wrap_columns(width));
                    assert(composed == wrapped_text(
                        text_inputs(self.text, self.style),
                        wrap_columns(width),
                        true,
                    ));
                }
                while !done
                    invariant
                        wrapper.wf(),
                        lines@.len() <= composed.len(),
                        wrapper.remaining() == composed.skip(lines@.len() as int),
                        forall|j: int|
                            0 <= j < lines@.len() ==> grapheme_views(#[trigger] lines@[j]@)
                                == composed[j].line,
                        done ==> lines@.len() == composed.len(),
                    decreases composed.len() - lines@.len() + (if done { 0int } else { 1int }),
                {
                    let ghost shown = lines@.len() as int;
                    match wrapper.next_line() {
                        Some(next) => {
                            assert(composed.skip(shown)[0] == composed[shown]);
                            assert(composed.skip(shown).drop_first() =~= composed.skip(shown + 1));
                            lines.push(next.0);
                        },
                        None => {
                            done = true;
                        },
                    }
                }
                proof {
                    assert(lines@.len() == composed.len());
                    assert(lines_views(lines@) =~= Seq::new(
                        composed.len(),
                        |i: int| composed[i].line,
                    ));
                }
            },
        }
        lines
    }

    /// The same node in another style.
    #[must_use]
    pub fn style(self, style: tui::style::Style) -> (item: TreeItem)
        ensures
            item.style == style,
            item.text == self.text,
            item.children == self.children,
    {
        let mut item = self;
        item.style = style;
        item
    }

    /// Adds a child after the children that the node has.
    pub fn add_child(&mut self, child: TreeItem)
        ensures
            final(self).children@ == old(self).children@.push(child),
            final(self).text == old(self).text,
            final(self).style == old(self).style,
    {
        self.children.push(child);
    }
}

} // verus!
