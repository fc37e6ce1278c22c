use tui_tree_widget::word_wrap::{wrap_cells, Cell};

fn cells(text: &str) -> Vec<Cell> {
    text.chars()
        .map(|c| match c {
            ' ' => Cell { width: 1, whitespace: true },
            'W' => Cell { width: 2, whitespace: false },
            '0' => Cell { width: 0, whitespace: false },
            '_' => Cell { width: 0, whitespace: true },
            _ => Cell { width: 1, whitespace: false },
        })
        .collect()
}

fn range(from: usize, to: usize) -> Vec<usize> {
    (from..to).collect()
}

#[test]
fn wrap_cells_breaks_between_words() {
    assert_eq!(wrap_cells(&cells("aa bb cc"), 5, true), vec![range(0, 5), range(6, 8)]);
    assert_eq!(wrap_cells(&cells("aa bb cc"), 5, false), vec![range(0, 5), range(6, 8)]);
    assert_eq!(wrap_cells(&cells("a b"), 2, true), vec![vec![0], vec![2]]);
}

#[test]
fn wrap_cells_breaks_a_word_that_is_longer_than_a_line() {
    assert_eq!(
        wrap_cells(&cells("abcdefghij"), 4, true),
        vec![range(0, 4), range(4, 8), range(8, 10)]
    );
    assert_eq!(
        wrap_cells(&cells("abcdefghij"), 4, false),
        vec![range(0, 4), range(4, 8), range(8, 10)]
    );
}

#[test]
fn wrap_cells_keeps_a_short_line_whole() {
    assert_eq!(wrap_cells(&cells("a bc"), 10, true), vec![range(0, 4)]);
    assert_eq!(wrap_cells(&cells("a bc"), 4, false), vec![range(0, 4)]);
    assert_eq!(wrap_cells(&cells("ab  "), 4, true), vec![range(0, 4)]);
}

#[test]
fn wrap_cells_trims_the_whitespace_that_starts_the_line() {
    assert_eq!(wrap_cells(&cells("  ab"), 10, true), vec![range(2, 4)]);
    assert_eq!(wrap_cells(&cells("  ab"), 10, false), vec![range(0, 4)]);
}

#[test]
fn wrap_cells_makes_one_empty_line_of_nothing() {
    assert_eq!(wrap_cells(&[], 10, true), vec![Vec::<usize>::new()]);
    assert_eq!(wrap_cells(&[], 10, false), vec![Vec::<usize>::new()]);
}

#[test]
fn wrap_cells_keeps_whitespace_alone_unless_it_is_trimmed() {
    assert_eq!(wrap_cells(&cells("   "), 10, true), vec![Vec::<usize>::new()]);
    assert_eq!(wrap_cells(&cells("   "), 10, false), vec![range(0, 3)]);
    assert_eq!(wrap_cells(&cells("  "), 5, false), vec![range(0, 2)]);
}

#[test]
fn wrap_cells_makes_no_line_of_whitespace_that_is_left_after_a_full_line() {
    assert_eq!(wrap_cells(&cells("abcd  "), 4, true), vec![range(0, 4)]);
    assert_eq!(wrap_cells(&cells("abcd  "), 4, false), vec![range(0, 4), vec![5]]);
}

#[test]
fn wrap_cells_passes_over_what_is_wider_than_a_line() {
    assert_eq!(wrap_cells(&cells("aWb"), 1, true), vec![vec![0], vec![2]]);
    assert_eq!(wrap_cells(&cells("W"), 1, true), vec![Vec::<usize>::new()]);
}

#[test]
fn wrap_cells_keeps_unit_width_lines_within_the_width() {
    let text = "the quick  brown fox   jumps over a verylongwordindeed and   stops";
    let input = cells(text);
    for max in 1..12u16 {
        for trim in [true, false] {
            for line in wrap_cells(&input, max, trim) {
                assert!(line.len() <= max as usize);
            }
        }
    }
}

#[test]
fn wrap_cells_can_outgrow_the_width_with_wide_fragments() {
    let lines = wrap_cells(&cells("a bcdW "), 4, true);
    assert_eq!(lines, vec![vec![0], vec![2, 3, 4, 5]]);
    assert_eq!(wrap_cells(&cells("abW"), 3, true), vec![range(0, 3)]);
}

#[test]
fn wrap_cells_keeps_lines_with_marks_within_the_width() {
    let text = "a0b0 c0d00  e0 f0g0h0i0j0k0 l0";
    let input = cells(text);
    for max in 1..9u16 {
        for trim in [true, false] {
            for line in wrap_cells(&input, max, trim) {
                let width: usize = line.iter().map(|index| input[*index].width).sum();
                assert!(width <= max as usize);
            }
        }
    }
}

#[test]
fn wrap_cells_keeps_a_line_that_fits_within_the_width_whatever_its_fragments() {
    for text in ["W", "aW", "W W", "0W0 _a", "_0_", " W"] {
        let input = cells(text);
        let total: usize = input.iter().map(|cell| cell.width).sum();
        for max in total.max(1)..total + 3 {
            for trim in [true, false] {
                for line in wrap_cells(&input, max as u16, trim) {
                    let width: usize = line.iter().map(|index| input[*index].width).sum();
                    assert!(width <= max);
                }
            }
        }
    }
}

#[test]
fn wrap_cells_keeps_a_short_line_with_a_mark_at_the_full_width() {
    assert_eq!(wrap_cells(&cells("abc0"), 3, true), vec![range(0, 4)]);
    assert_eq!(wrap_cells(&cells("ab 0"), 3, false), vec![range(0, 4)]);
}

#[test]
fn wrap_cells_can_outgrow_the_width_after_a_line_without_width() {
    assert_eq!(wrap_cells(&cells("0_abc "), 2, true), vec![vec![0], vec![2, 3, 4]]);
}

#[test]
fn wrap_cells_breaks_after_a_full_line_before_a_fragment_without_width() {
    assert_eq!(wrap_cells(&cells("ab_0"), 2, false), vec![range(0, 2), vec![3]]);
    assert_eq!(wrap_cells(&cells("ab 0"), 3, false), vec![range(0, 4)]);
    assert_eq!(wrap_cells(&cells("ab0"), 2, true), vec![range(0, 3)]);
}

#[test]
fn wrap_cells_of_width_zero_takes_only_what_has_no_width() {
    assert_eq!(wrap_cells(&cells("ab"), 0, true), vec![Vec::<usize>::new()]);
}

#[test]
fn wrap_cells_keeps_the_order_and_loses_no_fragment_of_a_word() {
    for text in ["the quick  brown fox", "a bcdW ", "0_abc ", "  W  aW 0 bb", "abcdefghij", "   "] {
        let input = cells(text);
        for max in 0..7u16 {
            for trim in [true, false] {
                let shown: Vec<usize> = wrap_cells(&input, max, trim).concat();
                for pair in shown.windows(2) {
                    assert!(pair[0] < pair[1]);
                }
                for (index, cell) in input.iter().enumerate() {
                    if !cell.whitespace && cell.width <= max as usize {
                        assert!(shown.contains(&index));
                    }
                }
            }
        }
    }
}
