use awildtxt::cursor::Cursor;
use awildtxt::lines::line_starts;

fn at(index: u32) -> Cursor {
    let mut cursor = Cursor::new((10, 20));
    cursor.index = index;
    cursor
}

fn sample() -> String {
    String::from("ab\ncde\n\nf")
}

#[test]
fn new_cursor_starts_at_zero() {
    let cursor = Cursor::new((7, 15));
    assert_eq!(cursor.index, 0);
    assert_eq!(cursor.font_size, (7, 15));
    assert!(!cursor.cursor_line);
}

#[test]
fn line_starts_of_a_text() {
    assert_eq!(line_starts(b"ab\ncde\n\nf"), vec![0, 3, 7, 8]);
    assert_eq!(line_starts(b"a\n"), vec![0]);
    assert_eq!(line_starts(b"\n\n"), vec![0, 1]);
    assert_eq!(line_starts(b"abc"), vec![0]);
    assert!(line_starts(b"").is_empty());
}

#[test]
fn line_number_counts_the_newlines_before_the_cursor() {
    let text = sample();
    assert_eq!(at(0).get_current_line_number(&text), 0);
    assert_eq!(at(2).get_current_line_number(&text), 0);
    assert_eq!(at(3).get_current_line_number(&text), 1);
    assert_eq!(at(6).get_current_line_number(&text), 1);
    assert_eq!(at(7).get_current_line_number(&text), 2);
    assert_eq!(at(8).get_current_line_number(&text), 3);
    assert_eq!(at(9).get_current_line_number(&text), 3);
    assert_eq!(at(100).get_current_line_number(&text), 3);
    assert_eq!(at(5).get_current_line_number(&String::new()), 0);
}

#[test]
fn line_number_counts_characters_not_bytes() {
    let text = String::from("\u{e9}\nx");
    assert_eq!(at(1).get_current_line_number(&text), 0);
    assert_eq!(at(2).get_current_line_number(&text), 1);
}

#[test]
fn column_is_the_distance_from_the_line_start() {
    let text = sample();
    assert_eq!(at(5).get_line_char_count_until_cursor(&text, 1), 2);
    assert_eq!(at(5).get_line_char_count_until_cursor(&text, 0), 5);
    assert_eq!(at(8).get_line_char_count_until_cursor(&text, 3), 0);
    assert_eq!(at(20).get_line_char_count_until_cursor(&text, 9), 11);
}

#[test]
fn moving_up_keeps_the_column_where_the_line_above_is_long_enough() {
    let text = sample();
    assert!(Cursor::can_move(&at(4), &text, -1));
    assert_eq!(Cursor::calc_new_index(&at(4), &text, -1), Some(3));
    assert_eq!(Cursor::calc_new_index(&at(7), &text, -1), Some(4));
}

#[test]
fn moving_up_lands_on_the_end_of_a_shorter_line() {
    let text = sample();
    assert_eq!(Cursor::calc_new_index(&at(6), &text, -1), Some(4));
    assert_eq!(Cursor::calc_new_index(&at(8), &text, -1), Some(1));
}

#[test]
fn moving_up_from_the_first_line_goes_nowhere() {
    let text = sample();
    assert_eq!(Cursor::calc_new_index(&at(0), &text, -1), None);
    assert_eq!(Cursor::calc_new_index(&at(2), &text, -1), None);
}

#[test]
fn moving_down_keeps_the_column_where_the_line_below_is_long_enough() {
    let text = sample();
    assert!(Cursor::can_move(&at(1), &text, 1));
    assert_eq!(Cursor::calc_new_index(&at(1), &text, 1), Some(3));
    assert_eq!(Cursor::calc_new_index(&at(7), &text, 1), Some(1));
}

#[test]
fn moving_down_lands_on_the_end_of_a_shorter_line() {
    let text = sample();
    assert_eq!(Cursor::calc_new_index(&at(5), &text, 1), Some(2));
    assert_eq!(Cursor::calc_new_index(&at(6), &text, 1), Some(1));
    let other = String::from("abcdef\nxy\nz");
    assert_eq!(Cursor::calc_new_index(&at(4), &other, 1), Some(5));
}

#[test]
fn moving_down_from_the_last_line_goes_nowhere() {
    let text = sample();
    assert_eq!(Cursor::calc_new_index(&at(8), &text, 1), None);
    assert_eq!(Cursor::calc_new_index(&at(50), &text, 1), None);
    assert_eq!(Cursor::calc_new_index(&at(0), &String::from("abc"), 1), None);
    assert_eq!(Cursor::calc_new_index(&at(0), &String::new(), 1), None);
}

#[test]
fn a_move_is_by_one_line_only() {
    let text = sample();
    assert!(!Cursor::can_move(&at(4), &text, 0));
    assert!(!Cursor::can_move(&at(4), &text, 2));
    assert!(!Cursor::can_move(&at(4), &text, -2));
}

#[test]
fn a_cursor_without_a_column_cannot_move_up() {
    let text = String::from("\u{e9}\nx");
    assert!(!Cursor::can_move(&at(2), &text, -1));
    assert!(Cursor::can_move(&at(2), &text, 1));
    assert_eq!(Cursor::calc_new_index(&at(2), &text, 1), None);
    assert!(Cursor::can_move(&at(3), &text, -1));
    assert_eq!(Cursor::calc_new_index(&at(3), &text, -1), Some(3));
    assert!(!at(2).has_screen_position(&text));
}

#[test]
fn screen_position_is_column_and_line_times_the_glyph_size() {
    let text = sample();
    assert!(at(5).has_screen_position(&text));
    assert_eq!(at(5).screen_position(&text), (20, 20));
    assert_eq!(at(0).screen_position(&text), (0, 0));
    assert_eq!(at(8).screen_position(&text), (0, 60));
}

#[test]
fn screen_position_wraps_into_the_signed_range() {
    let mut cursor = Cursor::new((1 << 30, 1));
    cursor.index = 3;
    let text = String::from("abcdef");
    assert!(cursor.has_screen_position(&text));
    assert_eq!(cursor.screen_position(&text), (-(1 << 30), 0));
    cursor.index = 4;
    assert!(!cursor.has_screen_position(&text));
}

#[test]
fn clone_copies_the_cursor() {
    let mut cursor = at(4);
    cursor.cursor_line = true;
    let copy = cursor.clone();
    assert_eq!(copy.index, 4);
    assert_eq!(copy.font_size, (10, 20));
    assert!(copy.cursor_line);
}
