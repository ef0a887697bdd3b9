use minesweeper::{parse_board_size, parse_coordinate, parse_count};

#[test]
fn coordinate_examples() {
    assert_eq!(parse_coordinate("B3", 5, 5), Some((2, 1)));
    assert_eq!(parse_coordinate("A0", 5, 5), None);
    assert_eq!(parse_coordinate("Z9", 5, 5), None);
}

#[test]
fn coordinate_is_case_insensitive_and_trimmed() {
    assert_eq!(parse_coordinate("b3", 5, 5), Some((2, 1)));
    assert_eq!(parse_coordinate("  c1 \n", 5, 5), Some((0, 2)));
    assert_eq!(parse_coordinate("A1", 1, 1), Some((0, 0)));
    assert_eq!(parse_coordinate("Z26", 26, 26), Some((25, 25)));
    assert_eq!(parse_coordinate("a+2", 5, 5), Some((1, 0)));
    assert_eq!(parse_coordinate("A05", 5, 5), Some((4, 0)));
}

#[test]
fn coordinate_rejects_malformed_labels() {
    assert_eq!(parse_coordinate("", 5, 5), None);
    assert_eq!(parse_coordinate("B", 5, 5), None);
    assert_eq!(parse_coordinate("   ", 5, 5), None);
    assert_eq!(parse_coordinate("3B", 5, 5), None);
    assert_eq!(parse_coordinate("B-3", 5, 5), None);
    assert_eq!(parse_coordinate("B 3", 5, 5), None);
    assert_eq!(parse_coordinate("B+", 5, 5), None);
    assert_eq!(parse_coordinate("[1", 30, 30), None);
    assert_eq!(parse_coordinate("\u{e9}3", 5, 5), None);
    assert_eq!(parse_coordinate("B99999999999999999999999", 5, 5), None);
    assert_eq!(parse_coordinate("B6", 5, 5), None);
    assert_eq!(parse_coordinate("F1", 5, 5), None);
}

#[test]
fn board_size_examples() {
    assert_eq!(parse_board_size("9 9"), Some((9, 9)));
    assert_eq!(parse_board_size("  16\t30 \n"), Some((16, 30)));
    assert_eq!(parse_board_size("0 0"), Some((0, 0)));
    assert_eq!(parse_board_size("+4 5"), Some((4, 5)));
}

#[test]
fn board_size_rejects_malformed_input() {
    assert_eq!(parse_board_size(""), None);
    assert_eq!(parse_board_size("9"), None);
    assert_eq!(parse_board_size("9 9 9"), None);
    assert_eq!(parse_board_size("a 9"), None);
    assert_eq!(parse_board_size("9 -9"), None);
    assert_eq!(parse_board_size("9x9"), None);
    assert_eq!(parse_board_size("99999999999999999999999 1"), None);
}

#[test]
fn count_examples() {
    assert_eq!(parse_count("10\n"), Some(10));
    assert_eq!(parse_count("  0 "), Some(0));
    assert_eq!(parse_count("+7"), Some(7));
    assert_eq!(parse_count("18446744073709551615"), Some(usize::MAX));
    assert_eq!(parse_count(""), None);
    assert_eq!(parse_count("  \n"), None);
    assert_eq!(parse_count("1 2"), None);
    assert_eq!(parse_count("-1"), None);
    assert_eq!(parse_count("ten"), None);
    assert_eq!(parse_count("18446744073709551616"), None);
}
