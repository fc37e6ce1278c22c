use tui_tree_widget::item::TreeItem;
use tui_tree_widget::state::TreeState;
use tui_tree_widget::text::{Span, Text};

fn text(content: &str) -> Text {
    Text { lines: vec![vec![Span::raw(content.to_string())]] }
}

fn example() -> Vec<TreeItem> {
    vec![
        TreeItem::new_leaf(text("a")),
        TreeItem::new(
            text("b"),
            vec![
                TreeItem::new_leaf(text("c")),
                TreeItem::new(
                    text("d"),
                    vec![TreeItem::new_leaf(text("e")), TreeItem::new_leaf(text("f"))],
                ),
                TreeItem::new_leaf(text("g")),
            ],
        ),
        TreeItem::new_leaf(text("h")),
    ]
}

fn sorted(mut opened: Vec<Vec<usize>>) -> Vec<Vec<usize>> {
    opened.sort();
    opened
}

#[test]
fn default_state_has_nothing_open_or_selected() {
    let state = TreeState::default();
    assert_eq!(state.get_offset(), 0);
    assert!(state.get_all_opened().is_empty());
    assert!(state.selected().is_empty());
}

#[test]
fn open_returns_whether_the_node_was_closed() {
    let mut state = TreeState::default();
    assert!(state.open(vec![1]));
    assert!(!state.open(vec![1]));
    assert!(state.open(vec![1, 1]));
    assert_eq!(sorted(state.get_all_opened()), vec![vec![1], vec![1, 1]]);
}

#[test]
fn open_twice_leaves_the_set_as_it_is() {
    let mut state = TreeState::default();
    state.open(vec![2]);
    state.open(vec![0, 1]);
    let before = sorted(state.get_all_opened());
    assert!(!state.open(vec![2]));
    assert_eq!(sorted(state.get_all_opened()), before);
}

#[test]
fn close_returns_whether_the_node_was_open() {
    let mut state = TreeState::default();
    state.open(vec![1]);
    state.open(vec![2]);
    assert!(state.close(&[1]));
    assert!(!state.close(&[1]));
    assert!(!state.close(&[7]));
    assert_eq!(state.get_all_opened(), vec![vec![2]]);
}

#[test]
fn the_empty_identifier_is_never_opened() {
    let mut state = TreeState::default();
    assert!(!state.open(vec![]));
    assert!(state.get_all_opened().is_empty());
    state.toggle(vec![]);
    assert!(state.get_all_opened().is_empty());
    state.toggle_selected();
    assert!(state.get_all_opened().is_empty());
    state.key_right();
    assert!(state.get_all_opened().is_empty());
    assert!(!state.is_open(&[]));
}

#[test]
fn toggle_opens_and_closes() {
    let mut state = TreeState::default();
    state.toggle(vec![1]);
    assert!(state.is_open(&[1]));
    state.toggle(vec![1]);
    assert!(!state.is_open(&[1]));
    state.select(vec![1, 1]);
    state.toggle_selected();
    assert_eq!(state.get_all_opened(), vec![vec![1, 1]]);
    state.toggle_selected();
    assert!(state.get_all_opened().is_empty());
}

#[test]
fn close_all_keeps_the_selection() {
    let mut state = TreeState::default();
    state.open(vec![1]);
    state.open(vec![1, 1]);
    state.select(vec![1, 1, 0]);
    state.close_all();
    assert!(state.get_all_opened().is_empty());
    assert_eq!(state.selected(), vec![1, 1, 0]);
}

#[test]
fn select_of_nothing_scrolls_to_the_top() {
    let mut state = TreeState::default();
    state.scroll_to(5);
    state.select(vec![2]);
    assert_eq!(state.get_offset(), 5);
    assert_eq!(state.selected(), vec![2]);
    state.select(vec![]);
    assert_eq!(state.get_offset(), 0);
    assert!(state.selected().is_empty());
}

#[test]
fn select_first_selects_the_first_root() {
    let mut state = TreeState::default();
    state.select_first();
    assert_eq!(state.selected(), vec![0]);
}

#[test]
fn select_last_selects_the_last_visible_node() {
    let items = example();
    let mut state = TreeState::default();
    state.select_last(&items);
    assert_eq!(state.selected(), vec![2]);
    let nested = vec![TreeItem::new(text("x"), vec![TreeItem::new_leaf(text("y"))])];
    state.open(vec![0]);
    state.select_last(&nested);
    assert_eq!(state.selected(), vec![0, 0]);
}

#[test]
fn select_last_of_an_empty_tree_selects_nothing() {
    let mut state = TreeState::default();
    state.select(vec![3]);
    state.scroll_to(2);
    state.select_last(&[]);
    assert!(state.selected().is_empty());
    assert_eq!(state.get_offset(), 0);
}

#[test]
fn key_down_walks_the_visible_nodes_and_stops_at_the_last() {
    let items = example();
    let mut state = TreeState::default();
    state.open(vec![1]);
    let mut seen = Vec::new();
    for _ in 0..8 {
        state.key_down(&items);
        seen.push(state.selected());
    }
    assert_eq!(
        seen,
        vec![
            vec![0],
            vec![1],
            vec![1, 0],
            vec![1, 1],
            vec![1, 2],
            vec![2],
            vec![2],
            vec![2],
        ]
    );
}

#[test]
fn key_up_walks_back_and_stays_on_the_first() {
    let items = example();
    let mut state = TreeState::default();
    state.open(vec![1]);
    state.select(vec![1, 1]);
    let mut seen = Vec::new();
    for _ in 0..5 {
        state.key_up(&items);
        seen.push(state.selected());
    }
    assert_eq!(seen, vec![vec![1, 0], vec![1], vec![0], vec![0], vec![0]]);
}

#[test]
fn a_selection_that_is_not_visible_falls_back_to_the_first_node() {
    let items = example();
    let mut state = TreeState::default();
    state.select(vec![1, 1, 0]);
    state.key_up(&items);
    assert_eq!(state.selected(), vec![0]);
    state.select(vec![1, 1, 0]);
    state.key_down(&items);
    assert_eq!(state.selected(), vec![0]);
    state.select(vec![9]);
    state.key_down(&items);
    assert_eq!(state.selected(), vec![0]);
}

#[test]
fn keys_on_an_empty_tree_select_nothing() {
    let mut state = TreeState::default();
    state.select(vec![0]);
    state.scroll_to(3);
    state.key_up(&[]);
    assert!(state.selected().is_empty());
    assert_eq!(state.get_offset(), 0);
    state.select(vec![0]);
    state.key_down(&[]);
    assert!(state.selected().is_empty());
}

#[test]
fn key_left_closes_an_open_node_or_moves_to_the_parent() {
    let mut state = TreeState::default();
    state.open(vec![1]);
    state.select(vec![1]);
    state.key_left();
    assert_eq!(state.selected(), vec![1]);
    assert!(state.get_all_opened().is_empty());
    state.select(vec![1, 2, 0]);
    state.key_left();
    assert_eq!(state.selected(), vec![1, 2]);
    state.key_left();
    assert_eq!(state.selected(), vec![1]);
    state.scroll_to(4);
    state.key_left();
    assert!(state.selected().is_empty());
    assert_eq!(state.get_offset(), 0);
    state.key_left();
    assert!(state.selected().is_empty());
}

#[test]
fn key_right_opens_the_selected_node() {
    let mut state = TreeState::default();
    state.select(vec![1]);
    state.key_right();
    assert_eq!(state.get_all_opened(), vec![vec![1]]);
    assert_eq!(state.selected(), vec![1]);
    state.key_right();
    assert_eq!(state.get_all_opened(), vec![vec![1]]);
}
