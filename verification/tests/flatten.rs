use tui_tree_widget::flatten::{flatten, position_of, same_identifier};
use tui_tree_widget::identifier::{child_identifier, get_without_leaf};
use tui_tree_widget::item::TreeItem;
use tui_tree_widget::text::{Span, Text};

fn text(content: &str) -> Text {
    Text { lines: vec![vec![Span::raw(content.to_string())]] }
}

fn get_naive_string_from_text(text: &Text) -> String {
    text.lines.first().unwrap().first().unwrap().content.to_string()
}

fn get_example_tree_items() -> Vec<TreeItem> {
    vec![
        TreeItem::new_leaf(text("a")),
        TreeItem::new(
            text("b"),
            vec![
                TreeItem::new_leaf(text("c")),
                TreeItem::new(
                    text("d"),
                    vec![TreeItem::new_leaf(text("e")), TreeItem::new_leaf(text("f"))],
                ),
                TreeItem::new_leaf(text("g")),
            ],
        ),
        TreeItem::new_leaf(text("h")),
    ]
}

#[test]
fn get_opened_nothing_opened_is_top_level() {
    let items = get_example_tree_items();
    let result = flatten(&[], &items);
    let result_text = result
        .iter()
        .map(|o| get_naive_string_from_text(&o.item.text))
        .collect::<Vec<_>>();
    assert_eq!(result_text, ["a", "b", "h"]);
}

#[test]
fn get_opened_wrong_opened_is_only_top_level() {
    let items = get_example_tree_items();
    let opened = [vec![0], vec![1, 1]];
    let result = flatten(&opened, &items);
    let result_text = result
        .iter()
        .map(|o| get_naive_string_from_text(&o.item.text))
        .collect::<Vec<_>>();
    assert_eq!(result_text, ["a", "b", "h"]);
}

#[test]
fn get_opened_one_is_opened() {
    let items = get_example_tree_items();
    let opened = [vec![1]];
    let result = flatten(&opened, &items);
    let result_text = result
        .iter()
        .map(|o| get_naive_string_from_text(&o.item.text))
        .collect::<Vec<_>>();
    assert_eq!(result_text, ["a", "b", "c", "d", "g", "h"]);
}

#[test]
fn get_opened_all_opened() {
    let items = get_example_tree_items();
    let opened = [vec![1], vec![1, 1]];
    let result = flatten(&opened, &items);
    let result_text = result
        .iter()
        .map(|o| get_naive_string_from_text(&o.item.text))
        .collect::<Vec<_>>();
    assert_eq!(result_text, ["a", "b", "c", "d", "e", "f", "g", "h"]);
}

#[test]
fn flatten_gives_identifiers_and_depths_in_walk_order() {
    let items = get_example_tree_items();
    let opened = [vec![1], vec![1, 1]];
    let result = flatten(&opened, &items);
    let identifiers = result.iter().map(|o| o.identifier().clone()).collect::<Vec<_>>();
    assert_eq!(
        identifiers,
        vec![
            vec![0],
            vec![1],
            vec![1, 0],
            vec![1, 1],
            vec![1, 1, 0],
            vec![1, 1, 1],
            vec![1, 2],
            vec![2],
        ]
    );
    let depths = result.iter().map(|o| o.depth()).collect::<Vec<_>>();
    assert_eq!(depths, vec![0, 0, 1, 1, 2, 2, 1, 0]);
    for pair in identifiers.windows(2) {
        assert!(pair[0] < pair[1]);
    }
}

#[test]
fn flatten_of_no_roots_is_empty() {
    let items: Vec<TreeItem> = Vec::new();
    assert!(flatten(&[vec![0]], &items).is_empty());
}

#[test]
fn flatten_does_not_look_below_a_closed_node() {
    let items = get_example_tree_items();
    let result = flatten(&[vec![1, 1]], &items);
    assert_eq!(result.len(), 3);
}

#[test]
fn flatten_hands_out_the_nodes_themselves() {
    let items = get_example_tree_items();
    let result = flatten(&[vec![1]], &items);
    assert!(std::ptr::eq(result[3].item(), &items[1].children()[1]));
    assert_eq!(result[3].item().children().len(), 2);
}

#[test]
fn position_of_finds_the_first_match_or_the_length() {
    let items = get_example_tree_items();
    let result = flatten(&[vec![1]], &items);
    assert_eq!(position_of(&result, &[1, 1]), 3);
    assert_eq!(position_of(&result, &[0]), 0);
    assert_eq!(position_of(&result, &[1, 1, 0]), 6);
    assert_eq!(position_of(&result, &[]), 6);
}

#[test]
fn same_identifier_compares_by_value() {
    assert!(same_identifier(&[1, 2, 3], &[1, 2, 3]));
    assert!(!same_identifier(&[1, 2, 3], &[1, 2]));
    assert!(!same_identifier(&[1, 2, 3], &[1, 2, 4]));
    assert!(same_identifier(&[], &[]));
}

#[test]
fn child_identifier_appends_the_index() {
    assert_eq!(child_identifier(&[1, 2], 0), vec![1, 2, 0]);
    assert_eq!(child_identifier(&[], 7), vec![7]);
}

#[test]
fn get_without_leaf_splits_off_the_last_index() {
    assert_eq!(get_without_leaf(&[1, 2, 0]), (vec![1, 2], Some(0)));
    assert_eq!(get_without_leaf(&[4]), (vec![], Some(4)));
    assert_eq!(get_without_leaf(&[]), (vec![], None));
}
