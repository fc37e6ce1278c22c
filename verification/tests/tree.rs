use tui::style::{Color, Modifier, Style};
use tui_tree_widget::item::{TreeItem, Wrap};
use tui_tree_widget::state::TreeState;
use tui_tree_widget::text::{styled_line, Span, StyledGrapheme, Text};
use tui_tree_widget::tree::{spaces, Corner, Marker, Row, Tree};

fn text(content: &str) -> Text {
    Text { lines: vec![vec![Span::raw(content.to_string())]] }
}

fn example() -> Vec<TreeItem> {
    vec![
        TreeItem::new_leaf(text("a")),
        TreeItem::new(
            text("b"),
            vec![
                TreeItem::new_leaf(text("c")),
                TreeItem::new(
                    text("d"),
                    vec![TreeItem::new_leaf(text("e")), TreeItem::new_leaf(text("f"))],
                ),
                TreeItem::new_leaf(text("g")),
            ],
        ),
        TreeItem::new_leaf(text("h")),
    ]
}

fn joined(line: &[StyledGrapheme]) -> String {
    line.iter().map(|grapheme| grapheme.symbol.as_str()).collect()
}

fn row(item: &TreeItem, top: usize) -> Row<'_> {
    tall_row(item, top, 3)
}

fn tall_row(item: &TreeItem, top: usize, height: usize) -> Row<'_> {
    Row {
        identifier: vec![0],
        item,
        depth: 0,
        indent: 0,
        top,
        height,
        selected: false,
        marker: Marker::NoChildren,
        style: Style::default(),
    }
}

#[test]
fn a_leaf_has_no_children_and_the_default_style() {
    let leaf = TreeItem::new_leaf(text("leaf"));
    assert!(leaf.children().is_empty());
    assert!(leaf.child(0).is_none());
    assert_eq!(leaf.style, Style::default());
    assert_eq!(leaf.height(), 1);
}

#[test]
fn a_node_holds_its_children_in_order() {
    let mut node = TreeItem::new(text("root"), vec![TreeItem::new_leaf(text("x"))]);
    node.add_child(TreeItem::new_leaf(text("y")));
    assert_eq!(node.children().len(), 2);
    assert_eq!(node.child(1).unwrap().text.lines[0][0].content, "y");
    assert_eq!(node.child(0).unwrap().text.lines[0][0].content, "x");
    assert!(node.child(2).is_none());
}

#[test]
fn style_sets_the_style_of_a_node() {
    let red = Style::default().fg(Color::Red);
    let node = TreeItem::new(text("root"), vec![TreeItem::new_leaf(text("x"))]).style(red);
    assert_eq!(node.style, red);
    assert_eq!(node.children().len(), 1);
    assert_eq!(node.text.lines[0][0].content, "root");
}

#[test]
fn height_counts_the_lines_of_the_content() {
    let lines = vec![vec![Span::raw("one".to_string())], vec![], vec![Span::raw("three".to_string())]];
    assert_eq!(TreeItem::new_leaf(Text { lines }).height(), 3);
    assert_eq!(TreeItem::new_leaf(Text { lines: vec![] }).height(), 0);
}

#[test]
fn styled_line_splits_spans_into_graphemes() {
    let red = Style::default().fg(Color::Red);
    let blue = Style::default().bg(Color::Blue).add_modifier(Modifier::BOLD);
    let spans = vec![
        Span::styled("e\u{301}\u{5bbd}".to_string(), blue),
        Span::raw("a\nb".to_string()),
    ];
    let line = styled_line(&spans, red);
    let symbols = line.iter().map(|grapheme| grapheme.symbol.as_str()).collect::<Vec<_>>();
    assert_eq!(symbols, vec!["e\u{301}", "\u{5bbd}", "a", "b"]);
    assert_eq!(line[0].style, red.patch(blue));
    assert_eq!(line[0].style.fg, Some(Color::Red));
    assert_eq!(line[0].style.bg, Some(Color::Blue));
    assert_eq!(line[2].style, red);
}

#[test]
fn lines_gives_the_content_as_it_is_or_wrapped() {
    let item = TreeItem::new_leaf(Text {
        lines: vec![
            vec![Span::raw("aa ".to_string()), Span::raw("bb cc".to_string())],
            vec![],
            vec![Span::raw("dd".to_string())],
        ],
    });
    let plain = item.lines(Wrap::Off);
    assert_eq!(plain.iter().map(|line| joined(line)).collect::<Vec<_>>(), vec!["aa bb cc", "", "dd"]);
    let wrapped = item.lines(Wrap::Width(5));
    assert_eq!(
        wrapped.iter().map(|line| joined(line)).collect::<Vec<_>>(),
        vec!["aa bb", "cc", "", "dd"]
    );
    assert!(item.lines(Wrap::Width(0)).is_empty());
}

#[test]
fn a_new_tree_has_the_default_symbols() {
    let tree = Tree::new(example());
    assert_eq!(tree.items.len(), 3);
    assert!(tree.block.is_none());
    assert!(!tree.wrap);
    assert_eq!(tree.start_corner, Corner::TopLeft);
    assert_eq!(tree.style, Style::default());
    assert_eq!(tree.highlight_style, Style::default());
    assert_eq!(tree.highlight_symbol, "");
    assert_eq!(tree.node_closed_symbol, "\u{25b6} ");
    assert_eq!(tree.node_open_symbol, "\u{25bc} ");
    assert_eq!(tree.node_no_children_symbol, "  ");
}

#[test]
fn the_builders_set_one_field_each() {
    let red = Style::default().fg(Color::Red);
    let blue = Style::default().fg(Color::Blue);
    let tree = Tree::new(example())
        .block(tui::widgets::Block::default())
        .wrap(true)
        .start_corner(Corner::BottomLeft)
        .style(red)
        .highlight_style(blue)
        .highlight_symbol(">> ")
        .node_closed_symbol("+")
        .node_open_symbol("-")
        .node_no_children_symbol(".");
    assert!(tree.block.is_some());
    assert!(tree.wrap);
    assert_eq!(tree.start_corner, Corner::BottomLeft);
    assert_eq!(tree.style, red);
    assert_eq!(tree.highlight_style, blue);
    assert_eq!(tree.highlight_symbol, ">> ");
    assert_eq!(tree.node_closed_symbol, "+");
    assert_eq!(tree.node_open_symbol, "-");
    assert_eq!(tree.node_no_children_symbol, ".");
    assert_eq!(tree.items.len(), 3);
}

#[test]
fn rows_lays_out_the_window_around_the_selected_node() {
    let red = Style::default().fg(Color::Red);
    let tree = Tree::new(example()).style(red);
    let mut state = TreeState::default();
    state.open(vec![1]);
    state.select(vec![1, 1]);
    let rows = tree.rows(&mut state, 20, 3);
    assert_eq!(state.get_offset(), 1);
    assert_eq!(rows.len(), 3);
    let identifiers = rows.iter().map(|row| row.identifier.clone()).collect::<Vec<_>>();
    assert_eq!(identifiers, vec![vec![1], vec![1, 0], vec![1, 1]]);
    assert_eq!(rows.iter().map(|row| row.depth).collect::<Vec<_>>(), vec![0, 1, 1]);
    assert_eq!(rows.iter().map(|row| row.indent).collect::<Vec<_>>(), vec![0, 2, 2]);
    assert_eq!(rows.iter().map(|row| row.top).collect::<Vec<_>>(), vec![0, 1, 2]);
    assert_eq!(rows.iter().map(|row| row.height).collect::<Vec<_>>(), vec![1, 1, 1]);
    assert_eq!(rows.iter().map(|row| row.selected).collect::<Vec<_>>(), vec![false, false, true]);
    assert_eq!(
        rows.iter().map(|row| row.marker).collect::<Vec<_>>(),
        vec![Marker::Open, Marker::NoChildren, Marker::Closed]
    );
    assert_eq!(rows[0].style, red);
    assert!(std::ptr::eq(rows[2].item, &tree.items[1].children()[1]));
    assert_eq!(state.selected(), vec![1, 1]);
    assert_eq!(state.get_all_opened(), vec![vec![1]]);
}

#[test]
fn rows_starts_at_the_first_node_where_nothing_is_selected() {
    let tree = Tree::new(example());
    let mut state = TreeState::default();
    let rows = tree.rows(&mut state, 20, 2);
    assert_eq!(state.get_offset(), 0);
    assert_eq!(rows.len(), 2);
    assert!(rows.iter().all(|row| !row.selected));
}

#[test]
fn rows_patches_the_style_of_the_node_over_that_of_the_tree() {
    let red = Style::default().fg(Color::Red);
    let blue = Style::default().bg(Color::Blue);
    let tree = Tree::new(vec![TreeItem::new_leaf(text("a")).style(blue)]).style(red);
    let mut state = TreeState::default();
    let rows = tree.rows(&mut state, 20, 2);
    assert_eq!(rows[0].style, Style::default().fg(Color::Red).bg(Color::Blue));
}

#[test]
fn rows_of_an_empty_tree_or_viewport_are_none() {
    let mut state = TreeState::default();
    state.select(vec![2]);
    state.scroll_to(1);
    assert!(Tree::new(Vec::new()).rows(&mut state, 20, 5).is_empty());
    assert!(Tree::new(example()).rows(&mut state, 20, 0).is_empty());
    assert!(Tree::new(example()).rows(&mut state, 0, 5).is_empty());
    assert_eq!(state.get_offset(), 1);
    assert_eq!(state.selected(), vec![2]);
}

#[test]
fn rows_counts_the_lines_of_each_node() {
    let tall = Text { lines: vec![vec![Span::raw("1".to_string())], vec![Span::raw("2".to_string())]] };
    let tree = Tree::new(vec![
        TreeItem::new_leaf(tall.clone()),
        TreeItem::new_leaf(text("b")),
        TreeItem::new_leaf(tall),
    ]);
    let mut state = TreeState::default();
    state.select(vec![2]);
    let rows = tree.rows(&mut state, 20, 3);
    assert_eq!(state.get_offset(), 1);
    assert_eq!(rows.iter().map(|row| row.top).collect::<Vec<_>>(), vec![0, 1]);
    assert_eq!(rows.iter().map(|row| row.height).collect::<Vec<_>>(), vec![1, 2]);
}

#[test]
fn first_line_counts_from_the_start_corner() {
    let item = TreeItem::new_leaf(text("a"));
    let tree = Tree::new(example());
    assert_eq!(tree.first_line(&row(&item, 2), 10), 2);
    let tree = tree.start_corner(Corner::BottomLeft);
    assert_eq!(tree.first_line(&row(&item, 2), 10), 5);
    assert_eq!(tree.first_line(&row(&item, 0), 3), 0);
    assert_eq!(tree.first_line(&tall_row(&item, 0, 7), 3), 0);
    assert_eq!(tree.first_line(&tall_row(&item, 1, 7), 3), 0);
}

#[test]
fn shown_height_is_cut_at_the_end_of_the_viewport() {
    let item = TreeItem::new_leaf(text("a"));
    let tree = Tree::new(example());
    assert_eq!(tree.shown_height(&row(&item, 2), 10), 3);
    assert_eq!(tree.shown_height(&row(&item, 2), 5), 3);
    assert_eq!(tree.shown_height(&row(&item, 2), 4), 2);
    assert_eq!(tree.shown_height(&tall_row(&item, 0, 7), 3), 3);
    assert_eq!(tree.shown_height(&row(&item, 4), 4), 0);
}

#[test]
fn rows_shows_the_selected_node_alone_where_it_is_higher_than_the_viewport() {
    let tall = Text {
        lines: vec![
            vec![Span::raw("1".to_string())],
            vec![Span::raw("2".to_string())],
            vec![Span::raw("3".to_string())],
        ],
    };
    let tree = Tree::new(vec![
        TreeItem::new_leaf(text("a")),
        TreeItem::new_leaf(tall),
        TreeItem::new_leaf(text("c")),
    ]);
    let mut state = TreeState::default();
    state.select(vec![1]);
    let rows = tree.rows(&mut state, 20, 2);
    assert_eq!(state.get_offset(), 1);
    assert_eq!(rows.len(), 1);
    assert_eq!(rows[0].identifier, vec![1]);
    assert_eq!(rows[0].top, 0);
    assert_eq!(rows[0].height, 3);
    assert!(rows[0].selected);
}

#[test]
fn blank_symbol_is_as_wide_as_the_highlight_symbol() {
    assert_eq!(Tree::new(example()).blank_symbol(), "");
    assert_eq!(Tree::new(example()).highlight_symbol(">> ").blank_symbol(), "   ");
    assert_eq!(Tree::new(example()).highlight_symbol("\u{5bbd}").blank_symbol(), "  ");
    assert_eq!(spaces(4), "    ");
}
