use awildtxt::piece_table::{Piece, PieceTable, Source};

#[test]
fn append_string_to_empty_table() {
    let mut pt = PieceTable::new();
    pt.append("Hello World");

    let expected = "Hello World";
    assert_eq!(pt.read(), expected);
}

#[test]
fn append_multiple_string_after_each_other() {
    let mut pt = PieceTable::new();
    pt.append("Hello");

    let mut expected = "Hello";
    assert_eq!(pt.read(), expected);

    pt.append("World");

    expected = "HelloWorld";
    assert_eq!(pt.read(), expected);
}

#[test]
fn insert_string_on_empty_table() {
    let mut pt = PieceTable::new();

    pt.insert("Hello", 0);
    assert_eq!(pt.read(), "Hello");
}

#[test]
fn insert_string_with_invalid_offset() {
    let mut pt = PieceTable::new();
    assert_eq!(pt.insert("Hello", 5), false);
    assert_eq!(pt.read(), "");
}

#[test]
fn insert_string_in_between_existing_text() {
    let mut pt = PieceTable::new();
    pt.append("Hello World");

    pt.insert("insert", 5);

    assert_eq!(pt.read(), "Helloinsert World");
}

#[test]
fn append_string_to_table_with_base_content() {
    let mut pt = PieceTable::init(String::from("Hello World"));

    pt.append(" 2: Electric Boogaloo");

    assert_eq!(pt.read(), "Hello World 2: Electric Boogaloo");
}

#[test]
fn insert_string_inside_table_with_base_content() {
    let mut pt = PieceTable::init(String::from("Hello World"));

    pt.insert("insert", 5);

    assert_eq!(pt.read(), "Helloinsert World");
}

#[test]
fn delete_1_character_inside_base_content_string() {
    let mut pt = PieceTable::init(String::from("Hello"));

    pt.delete(2, 1);

    assert_eq!(pt.read(), "Helo");
}

#[test]
fn delete_1_character_inside_added_string() {
    let mut pt = PieceTable::new();
    pt.append("Hello");

    pt.delete(2, 1);

    assert_eq!(pt.read(), "Helo");
}

#[test]
fn delete_multiple_characters_inside_base_content() {
    let mut pt = PieceTable::init(String::from("Hello"));

    pt.delete(2, 3);

    assert_eq!(pt.read(), "He");
}

#[test]
fn delete_multiple_characters_inside_added_string() {
    let mut pt = PieceTable::new();
    pt.append("Hello");

    pt.delete(2, 3);

    assert_eq!(pt.read(), "He");
}

#[test]
fn delete_characters_over_multiple_pieces() {
    let mut pt = PieceTable::init(String::from("Hello"));
    pt.append("World");

    pt.delete(4, 3);

    assert_eq!(pt.read(), "Hellrld");
}

#[test]
fn delete_one_character_in_pieces_of_1_char() {
    let mut pt = PieceTable::init(String::from("A"));
    pt.append("B");
    pt.append("C");
    pt.append("D");

    pt.delete(1, 1);

    assert_eq!(pt.read(), "ACD");
}

#[test]
fn delete_on_empty_buffer() {
    let mut pt = PieceTable::new();

    pt.delete(0, 1);

    assert_eq!(pt.read(), "");
}

fn original(offset: usize, length: usize) -> Piece {
    Piece { source: Source::Original, offset, length }
}

fn added(offset: usize, length: usize) -> Piece {
    Piece { source: Source::Added, offset, length }
}

#[test]
fn new_table_is_empty() {
    let pt = PieceTable::new();
    assert_eq!(pt.read(), "");
    assert!(pt.pieces().is_empty());
    assert_eq!(pt.added_len(), 0);
}

#[test]
fn init_records_one_original_piece() {
    let pt = PieceTable::init(String::from("Hello World"));
    assert_eq!(pt.pieces(), &vec![original(0, 11)]);
    assert_eq!(pt.added_len(), 0);
    assert_eq!(pt.read(), "Hello World");
}

#[test]
fn init_counts_bytes_not_characters() {
    let pt = PieceTable::init(String::from("h\u{e9}llo"));
    assert_eq!(pt.pieces(), &vec![original(0, 6)]);
    assert_eq!(pt.read(), "h\u{e9}llo");
}

#[test]
fn append_pushes_a_piece_at_the_end_of_the_added_buffer() {
    let mut pt = PieceTable::init(String::from("Hello"));
    pt.append("World");
    pt.append("!");
    assert_eq!(pt.pieces(), &vec![original(0, 5), added(0, 5), added(5, 1)]);
    assert_eq!(pt.added_len(), 6);
    assert_eq!(pt.read(), "HelloWorld!");
}

#[test]
fn insert_in_the_middle_splits_the_piece_in_two() {
    let mut pt = PieceTable::init(String::from("Hello World"));
    assert!(pt.insert("insert", 5));
    assert_eq!(pt.pieces(), &vec![original(0, 5), added(0, 6), original(5, 6)]);
    assert_eq!(pt.read(), "Helloinsert World");
}

#[test]
fn insert_at_the_start_keeps_only_the_right_half() {
    let mut pt = PieceTable::init(String::from("World"));
    assert!(pt.insert("Hello ", 0));
    assert_eq!(pt.pieces(), &vec![added(0, 6), original(0, 5)]);
    assert_eq!(pt.read(), "Hello World");
}

#[test]
fn insert_at_the_end_keeps_only_the_left_half() {
    let mut pt = PieceTable::init(String::from("Hello"));
    assert!(pt.insert(" World", 5));
    assert_eq!(pt.pieces(), &vec![original(0, 5), added(0, 6)]);
    assert_eq!(pt.read(), "Hello World");
}

#[test]
fn insert_on_a_boundary_attaches_to_the_piece_that_ends_there() {
    let mut pt = PieceTable::init(String::from("ab"));
    pt.append("cd");
    assert!(pt.insert("X", 2));
    assert_eq!(pt.pieces(), &vec![original(0, 2), added(2, 1), added(0, 2)]);
    assert_eq!(pt.read(), "abXcd");
    let found = PieceTable::find_piece_at_offset(pt.pieces(), 2).unwrap();
    assert_eq!(found.index, 0);
    assert_eq!(found.piece_start, 0);
    assert_eq!(found.piece, original(0, 2));
}

#[test]
fn insert_past_the_end_is_rejected_and_changes_nothing() {
    let mut pt = PieceTable::init(String::from("Hello"));
    pt.append("World");
    let before = pt.pieces().clone();
    assert!(!pt.insert("x", 11));
    assert!(!pt.insert("x", u32::MAX));
    assert_eq!(pt.pieces(), &before);
    assert_eq!(pt.added_len(), 5);
    assert_eq!(pt.read(), "HelloWorld");
    assert!(pt.insert("x", 10));
    assert_eq!(pt.read(), "HelloWorldx");
}

#[test]
fn insert_grows_the_piece_count_by_one_or_two() {
    let mut pt = PieceTable::init(String::from("Hello World"));
    assert!(pt.insert("a", 5));
    assert_eq!(pt.pieces().len(), 3);
    assert!(pt.insert("b", 0));
    assert_eq!(pt.pieces().len(), 4);
    assert!(pt.insert("c", 9));
    assert_eq!(pt.pieces().len(), 6);
    assert_eq!(pt.read(), "bHelloa Wcorld");
}

#[test]
fn insert_only_appends_to_the_added_buffer() {
    let mut pt = PieceTable::init(String::from("0123456789"));
    assert!(pt.insert("abc", 4));
    assert_eq!(pt.added_len(), 3);
    assert!(pt.insert("de", 0));
    assert_eq!(pt.added_len(), 5);
    assert!(pt.delete(0, 6));
    assert_eq!(pt.added_len(), 5);
    assert_eq!(pt.pieces(), &vec![added(0, 3), original(4, 6)]);
    assert_eq!(pt.read(), "abc456789");
}

#[test]
fn delete_inside_one_piece_leaves_two_remnants() {
    let mut pt = PieceTable::init(String::from("Hello"));
    assert!(pt.delete(2, 1));
    assert_eq!(pt.pieces(), &vec![original(0, 2), original(3, 2)]);
}

#[test]
fn delete_of_a_prefix_leaves_only_the_right_remnant() {
    let mut pt = PieceTable::init(String::from("Hello"));
    assert!(pt.delete(0, 2));
    assert_eq!(pt.pieces(), &vec![original(2, 3)]);
    assert_eq!(pt.read(), "llo");
}

#[test]
fn delete_of_everything_leaves_no_piece() {
    let mut pt = PieceTable::init(String::from("Hello"));
    pt.append("World");
    assert!(pt.delete(0, 10));
    assert!(pt.pieces().is_empty());
    assert_eq!(pt.read(), "");
}

#[test]
fn delete_across_pieces_drops_the_ones_in_between() {
    let mut pt = PieceTable::init(String::from("AB"));
    pt.append("CD");
    pt.append("EF");
    pt.append("GH");
    assert!(pt.delete(1, 6));
    assert_eq!(pt.pieces(), &vec![original(0, 1), added(5, 1)]);
    assert_eq!(pt.read(), "AH");
}

#[test]
fn delete_across_a_boundary_trims_both_pieces() {
    let mut pt = PieceTable::init(String::from("Hello"));
    pt.append("World");
    assert!(pt.delete(4, 3));
    assert_eq!(pt.pieces(), &vec![original(0, 4), added(2, 3)]);
}

#[test]
fn delete_of_one_whole_piece_keeps_its_neighbours() {
    let mut pt = PieceTable::init(String::from("A"));
    pt.append("B");
    pt.append("C");
    pt.append("D");
    assert!(pt.delete(1, 1));
    assert_eq!(pt.pieces(), &vec![original(0, 1), added(1, 1), added(2, 1)]);
}

#[test]
fn delete_on_an_empty_table_fails() {
    let mut pt = PieceTable::new();
    assert!(!pt.delete(0, 1));
    assert!(!pt.delete(0, 0));
    assert_eq!(pt.read(), "");
}

#[test]
fn delete_past_the_end_is_rejected_and_changes_nothing() {
    let mut pt = PieceTable::init(String::from("Hello"));
    pt.append("World");
    let before = pt.pieces().clone();
    assert!(!pt.delete(11, 1));
    assert!(!pt.delete(8, 3));
    assert!(!pt.delete(0, u32::MAX));
    assert!(!pt.delete(u32::MAX, u32::MAX));
    assert_eq!(pt.pieces(), &before);
    assert_eq!(pt.read(), "HelloWorld");
    assert!(pt.delete(8, 2));
    assert_eq!(pt.read(), "HelloWor");
}

#[test]
fn edits_match_a_plain_string() {
    let mut pt = PieceTable::init(String::from("The fox"));
    let mut plain = String::from("The fox");
    pt.append(" jumps");
    plain.push_str(" jumps");
    assert!(pt.insert("quick ", 4));
    plain.insert_str(4, "quick ");
    assert!(pt.insert("brown ", 10));
    plain.insert_str(10, "brown ");
    assert!(pt.insert("!", 25));
    plain.insert_str(25, "!");
    assert_eq!(pt.read(), plain);
    assert_eq!(pt.read(), "The quick brown fox jumps!");
    assert!(pt.delete(3, 6));
    plain.replace_range(3..9, "");
    assert_eq!(pt.read(), plain);
    assert_eq!(pt.read(), "The brown fox jumps!");
}

#[test]
fn offsets_count_bytes() {
    let mut pt = PieceTable::init(String::from("h\u{e9}llo"));
    assert!(pt.insert("\u{1f600}", 3));
    assert_eq!(pt.read(), "h\u{e9}\u{1f600}llo");
    assert!(pt.insert("!", 10));
    assert!(!pt.insert("!", 12));
    assert!(pt.delete(1, 2));
    assert_eq!(pt.read(), "h\u{1f600}llo!");
}

#[test]
fn read_replaces_a_character_cut_apart() {
    let mut pt = PieceTable::init(String::from("h\u{e9}llo"));
    assert!(pt.delete(2, 1));
    assert_eq!(pt.read(), "h\u{fffd}llo");
    assert!(pt.delete(1, 1));
    assert_eq!(pt.read(), "hllo");
}

#[test]
fn clone_is_independent() {
    let mut pt = PieceTable::init(String::from("Hello"));
    let copy = pt.clone();
    assert!(pt.insert("!", 5));
    assert_eq!(copy.read(), "Hello");
    assert_eq!(pt.read(), "Hello!");
}

#[test]
fn offset_validity_is_a_plain_comparison() {
    let pieces = vec![original(0, 3), added(0, 4)];
    assert!(PieceTable::is_offset_valid(&pieces, 0));
    assert!(PieceTable::is_offset_valid(&pieces, 7));
    assert!(!PieceTable::is_offset_valid(&pieces, 8));
    assert!(!PieceTable::is_offset_valid(&pieces, u32::MAX));
    assert!(PieceTable::is_offset_valid(&Vec::new(), 0));
    assert!(!PieceTable::is_offset_valid(&Vec::new(), 1));
}

#[test]
fn find_piece_at_offset_walks_the_cumulative_lengths() {
    let pieces = vec![original(0, 3), added(0, 4), original(3, 2)];
    let first = PieceTable::find_piece_at_offset(&pieces, 0).unwrap();
    assert_eq!((first.index, first.piece_start), (0, 0));
    let boundary = PieceTable::find_piece_at_offset(&pieces, 3).unwrap();
    assert_eq!((boundary.index, boundary.piece_start), (0, 0));
    let inner = PieceTable::find_piece_at_offset(&pieces, 4).unwrap();
    assert_eq!((inner.index, inner.piece_start), (1, 3));
    assert_eq!(inner.piece, added(0, 4));
    let last = PieceTable::find_piece_at_offset(&pieces, 9).unwrap();
    assert_eq!((last.index, last.piece_start), (2, 7));
    assert!(PieceTable::find_piece_at_offset(&pieces, 10).is_none());
    assert!(PieceTable::find_piece_at_offset(&Vec::new(), 0).is_none());
}

#[test]
fn find_pieces_in_range_collects_the_touched_run() {
    let pieces = vec![original(0, 3), added(0, 4), original(3, 2)];
    let one = PieceTable::find_pieces_in_range(&pieces, 1, 1);
    assert_eq!(one.len(), 1);
    assert_eq!(one[0].index, 0);
    let two = PieceTable::find_pieces_in_range(&pieces, 2, 3);
    assert_eq!(two.iter().map(|s| s.index).collect::<Vec<_>>(), vec![0, 1]);
    assert_eq!(two[1].piece_start, 3);
    let all = PieceTable::find_pieces_in_range(&pieces, 0, 9);
    assert_eq!(all.iter().map(|s| s.index).collect::<Vec<_>>(), vec![0, 1, 2]);
    let past = PieceTable::find_pieces_in_range(&pieces, 8, 5);
    assert_eq!(past.iter().map(|s| s.index).collect::<Vec<_>>(), vec![2]);
    assert!(PieceTable::find_pieces_in_range(&pieces, 10, 1).is_empty());
    assert!(PieceTable::find_pieces_in_range(&Vec::new(), 0, 1).is_empty());
}

#[test]
fn delete_shrinks_the_list_by_the_touched_pieces_but_two() {
    let mut pt = PieceTable::init(String::from("AB"));
    pt.append("CD");
    pt.append("EF");
    pt.append("GH");
    let touched = PieceTable::find_pieces_in_range(pt.pieces(), 1, 6).len();
    assert_eq!(touched, 4);
    assert!(pt.delete(1, 6));
    assert_eq!(pt.pieces().len(), 4 - touched + 2);
    let mut whole = PieceTable::init(String::from("AB"));
    whole.append("CD");
    whole.append("EF");
    let touched = PieceTable::find_pieces_in_range(whole.pieces(), 2, 2).len();
    assert_eq!(touched, 2);
    assert!(whole.delete(2, 2));
    assert_eq!(whole.pieces(), &vec![original(0, 2), added(2, 2)]);
}

#[test]
fn edits_leave_the_other_pieces_as_they_were() {
    let mut pt = PieceTable::init(String::from("abc"));
    pt.append("def");
    pt.append("ghi");
    assert!(pt.insert("X", 4));
    assert_eq!(
        pt.pieces(),
        &vec![original(0, 3), added(0, 1), added(6, 1), added(1, 2), added(3, 3)]
    );
    assert!(pt.delete(4, 1));
    assert_eq!(pt.pieces(), &vec![original(0, 3), added(0, 1), added(1, 2), added(3, 3)]);
    assert_eq!(pt.added_len(), 7);
    assert_eq!(pt.read(), "abcdefghi");
}

#[test]
fn a_zero_length_delete_changes_no_text() {
    let mut pt = PieceTable::init(String::from("Hello"));
    assert!(pt.delete(2, 0));
    assert_eq!(pt.read(), "Hello");
    assert_eq!(pt.pieces(), &vec![original(0, 2), original(2, 3)]);
    assert!(pt.delete(5, 0));
    assert_eq!(pt.read(), "Hello");
}

#[test]
fn empty_content_is_stored_as_an_empty_piece() {
    let mut pt = PieceTable::init(String::new());
    assert_eq!(pt.pieces(), &vec![original(0, 0)]);
    pt.append("");
    assert_eq!(pt.pieces(), &vec![original(0, 0), added(0, 0)]);
    assert!(pt.insert("a", 0));
    assert_eq!(pt.pieces(), &vec![added(0, 1), added(0, 0)]);
    assert_eq!(pt.read(), "a");
    assert!(pt.insert("", 1));
    assert_eq!(pt.read(), "a");
}
