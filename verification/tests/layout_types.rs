use czor::layout::{grid, weights_to_split_percentages, Direction, Layout};

#[test]
fn layout_test_weights_to_split_percentages_two_equal() {
    assert_eq!(weights_to_split_percentages(&[1, 1]), vec![50]);
}

#[test]
fn layout_test_weights_to_split_percentages_two_unequal() {
    assert_eq!(weights_to_split_percentages(&[2, 1]), vec![33]);
}

#[test]
fn layout_test_weights_to_split_percentages_three() {
    assert_eq!(weights_to_split_percentages(&[1, 2, 1]), vec![75, 33]);
}

#[test]
fn layout_test_weights_to_split_percentages_four_equal() {
    assert_eq!(weights_to_split_percentages(&[1, 1, 1, 1]), vec![75, 67, 50]);
}

#[test]
fn layout_test_weights_to_split_percentages_single() {
    let expected: Vec<u8> = vec![];
    assert_eq!(weights_to_split_percentages(&[1]), expected);
}

#[test]
fn layout_test_weights_to_split_percentages_empty() {
    let expected: Vec<u8> = vec![];
    assert_eq!(weights_to_split_percentages(&[]), expected);
}

#[test]
fn layout_test_grid_1x1() {
    assert_eq!(grid(1, 1), Layout::Pane);
}

#[test]
fn layout_test_grid_1x3() {
    assert_eq!(
        grid(1, 3),
        Layout::Split {
            direction: Direction::Horizontal,
            children: vec![(1, Layout::Pane), (1, Layout::Pane), (1, Layout::Pane)],
        }
    );
}

#[test]
fn layout_test_grid_2x1() {
    assert_eq!(
        grid(2, 1),
        Layout::Split {
            direction: Direction::Vertical,
            children: vec![(1, Layout::Pane), (1, Layout::Pane)],
        }
    );
}

#[test]
fn layout_test_grid_2x2() {
    assert_eq!(
        grid(2, 2),
        Layout::Split {
            direction: Direction::Vertical,
            children: vec![
                (
                    1,
                    Layout::Split {
                        direction: Direction::Horizontal,
                        children: vec![(1, Layout::Pane), (1, Layout::Pane)],
                    }
                ),
                (
                    1,
                    Layout::Split {
                        direction: Direction::Horizontal,
                        children: vec![(1, Layout::Pane), (1, Layout::Pane)],
                    }
                ),
            ],
        }
    );
}
