use ai_algorithms::digit_classifier::{
    read_header, read_numbers, read_test_datum, read_train_datum,
};
use ai_algorithms::grid_map::{counting_lines, read_description, read_grid, read_row};
use ai_algorithms::localization::{is_wide_enough, perform_action, veer, Action, Slip};
use ai_algorithms::ransac::Ransac;

fn lines(text: &[&str]) -> Vec<String> {
    text.iter().map(|l| String::from(*l)).collect()
}

#[test]
fn header_holds_three_numbers() {
    assert_eq!(read_header("64 attributes, 17 values, 10 classes"), Some((64, 17, 10)));
    assert_eq!(read_header("1 a 2 b 3"), Some((1, 2, 3)));
    assert_eq!(read_header("1 a 2 b"), None);
    assert_eq!(read_header("1 a x b 3"), None);
    assert_eq!(read_header(""), None);
}

#[test]
fn data_lines_hold_whole_numbers() {
    assert_eq!(read_train_datum("7 0 16 3", 3), Some((7, vec![0, 16, 3])));
    assert_eq!(read_train_datum("7", 0), Some((7, vec![])));
    assert_eq!(read_train_datum("7 0 16", 3), None);
    assert_eq!(read_train_datum("7 0 x 3", 3), None);
    assert_eq!(read_train_datum("x 0 1 3", 3), None);
    assert_eq!(read_train_datum("", 0), None);
    assert_eq!(read_test_datum("0 16 3", 3), Some(vec![0, 16, 3]));
    assert_eq!(read_test_datum("", 0), Some(vec![]));
    assert_eq!(read_test_datum("0 16", 3), None);
    assert_eq!(read_test_datum("0 -1 3", 3), None);
    let words = lines(&["a", "1", "2"]);
    assert_eq!(read_numbers(&words, 1), Some(vec![1, 2]));
    assert_eq!(read_numbers(&words, 0), None);
    assert_eq!(read_numbers(&words, 3), Some(vec![]));
}

#[test]
fn rows_show_free_and_blocked_tiles() {
    assert_eq!(read_row("_#_"), Some(vec![false, true, false]));
    assert_eq!(read_row("_ # _"), Some(vec![false, true, false]));
    assert_eq!(read_row(""), Some(vec![]));
    assert_eq!(read_row("_x_"), None);
    assert_eq!(read_row("_#\t"), None);
}

#[test]
fn grid_is_read_bottom_row_first() {
    let text = lines(&["3", "2", "_#_", "#__"]);
    assert_eq!(
        read_grid(&text),
        Some(vec![vec![true, false, false], vec![false, true, false]])
    );
    // More lines than rows are not looked at; fewer give a smaller grid.
    let text = lines(&["2", "1", "__", "xx"]);
    assert_eq!(read_grid(&text), Some(vec![vec![false, false]]));
    let text = lines(&["2", "3", "__", "##"]);
    assert_eq!(read_grid(&text), Some(vec![vec![true, true], vec![false, false]]));
    assert_eq!(read_grid(&lines(&["2", "0"])), Some(vec![]));
    assert_eq!(read_grid(&lines(&["2", "1", "___"])), None);
    assert_eq!(read_grid(&lines(&["2", "1", "_?"])), None);
    assert_eq!(read_grid(&lines(&["x", "1", "__"])), None);
    assert_eq!(read_grid(&lines(&["2"])), None);
}

#[test]
fn comments_and_empty_lines_are_left_out() {
    let text = lines(&["/ a map", "", "2", "/ rows", "2", "_#", "", "__", "/ end"]);
    assert_eq!(counting_lines(&text), lines(&["2", "2", "_#", "__"]));
    assert_eq!(
        read_description(&text),
        Some(vec![vec![false, false], vec![false, true]])
    );
    assert_eq!(read_description(&lines(&["", "/"])), None);
}

#[test]
fn chance_turns_the_action() {
    assert_eq!(veer(Action::North, Slip::Straight), Some(Action::North));
    assert_eq!(veer(Action::North, Slip::Left), Some(Action::West));
    assert_eq!(veer(Action::South, Slip::Left), Some(Action::East));
    assert_eq!(veer(Action::East, Slip::Left), Some(Action::North));
    assert_eq!(veer(Action::West, Slip::Left), Some(Action::South));
    assert_eq!(veer(Action::North, Slip::Right), Some(Action::East));
    assert_eq!(veer(Action::South, Slip::Right), Some(Action::West));
    assert_eq!(veer(Action::East, Slip::Right), Some(Action::South));
    assert_eq!(veer(Action::West, Slip::Right), Some(Action::North));
    assert_eq!(veer(Action::West, Slip::Stall), None);
}

#[test]
fn particles_move_unless_stopped() {
    // Row 0 is the southernmost.
    let map = vec![
        vec![false, false, false],
        vec![false, true, false],
        vec![false, false, false],
    ];
    assert!(is_wide_enough(&map));
    assert_eq!(perform_action(0, 0, Action::North, Slip::Straight, &map), (0, 1));
    assert_eq!(perform_action(0, 0, Action::East, Slip::Straight, &map), (1, 0));
    assert_eq!(perform_action(0, 0, Action::South, Slip::Straight, &map), (0, 0));
    assert_eq!(perform_action(0, 0, Action::West, Slip::Straight, &map), (0, 0));
    assert_eq!(perform_action(1, 0, Action::North, Slip::Straight, &map), (1, 0));
    assert_eq!(perform_action(2, 2, Action::North, Slip::Straight, &map), (2, 2));
    assert_eq!(perform_action(2, 2, Action::East, Slip::Straight, &map), (2, 2));
    assert_eq!(perform_action(2, 2, Action::North, Slip::Left, &map), (1, 2));
    assert_eq!(perform_action(0, 0, Action::North, Slip::Right, &map), (1, 0));
    assert_eq!(perform_action(0, 0, Action::North, Slip::Stall, &map), (0, 0));
    assert!(!is_wide_enough(&vec![vec![false], vec![false, true]]));
    assert!(is_wide_enough(&vec![]));
}

#[test]
fn the_first_of_the_largest_segments_is_taken() {
    assert_eq!(Ransac::largest_segment(&vec![0, 2, 7, 9]), (2, 7));
    assert_eq!(Ransac::largest_segment(&vec![0, 3, 6, 9]), (0, 3));
    assert_eq!(Ransac::largest_segment(&vec![0, 0]), (0, 0));
    assert_eq!(Ransac::largest_segment(&vec![0, 5]), (0, 5));
    assert_eq!(Ransac::largest_segment(&vec![4, 4, 5]), (4, 5));
    assert_eq!(Ransac::largest_segment(&vec![7]), (0, 0));
    assert_eq!(Ransac::largest_segment(&vec![]), (0, 0));
}
