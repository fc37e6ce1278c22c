use tui_tree_widget::window::window;

#[test]
fn window_takes_all_that_fits_from_the_offset() {
    assert_eq!(window(&[1, 1, 1, 1, 1], 1, 0, 3), (0, 3));
    assert_eq!(window(&[1, 1, 1, 1, 1], 2, 1, 3), (1, 4));
    assert_eq!(window(&[1, 1, 1], 0, 0, 10), (0, 3));
}

#[test]
fn window_starts_at_the_selected_node_when_it_is_above_the_offset() {
    assert_eq!(window(&[1, 1, 1, 1, 1], 1, 3, 2), (1, 3));
    assert_eq!(window(&[1, 1, 1, 1, 1], 0, 9, 2), (0, 2));
}

#[test]
fn window_moves_down_to_the_selected_node() {
    assert_eq!(window(&[1, 1, 1, 1, 1], 4, 0, 3), (2, 5));
    assert_eq!(window(&[1, 1, 1, 1, 1], 3, 0, 3), (1, 4));
}

#[test]
fn window_counts_the_heights_of_the_nodes() {
    assert_eq!(window(&[2, 3, 1, 2, 4], 3, 0, 5), (2, 4));
    assert_eq!(window(&[2, 3, 1, 2, 4], 4, 0, 6), (3, 5));
    assert_eq!(window(&[2, 3, 1, 2, 4], 1, 0, 5), (0, 2));
    assert_eq!(window(&[2, 0, 0, 3], 0, 0, 2), (0, 3));
}

#[test]
fn window_holds_only_the_selected_node_where_it_is_higher_than_the_viewport() {
    assert_eq!(window(&[1, 5, 1], 1, 0, 3), (1, 2));
    assert_eq!(window(&[4], 0, 0, 3), (0, 1));
    assert_eq!(window(&[5], 0, 0, 3), (0, 1));
    assert_eq!(window(&[1, 1, 9, 1], 2, 0, 3), (2, 3));
    assert_eq!(window(&[1, 1, 9, 1], 2, 3, 3), (2, 3));
}

#[test]
fn window_leaves_out_a_node_on_the_way_that_is_higher_than_the_viewport() {
    assert_eq!(window(&[1, 5, 1], 2, 0, 3), (2, 3));
    assert_eq!(window(&[1, 5, 1, 1], 3, 0, 3), (2, 4));
}

#[test]
fn window_holds_the_selected_node_and_fits() {
    let heights = [3usize, 1, 2, 2, 1, 4, 1, 1];
    for available in 0..9usize {
        for offset in 0..9usize {
            for selected in 0..heights.len() {
                let (start, end) = window(&heights, selected, offset, available);
                assert!(start <= selected && selected < end);
                assert!(end <= heights.len());
                if heights[selected] <= available {
                    assert!(heights[start..end].iter().sum::<usize>() <= available);
                } else {
                    assert_eq!((start, end), (selected, selected + 1));
                }
            }
        }
    }
}
