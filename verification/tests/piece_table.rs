use fed::history::{Commit, History, Kind};
use fed::piece::{Piece, Source};
use fed::piece_table::PieceTable;
use fed::slice::Slice;

fn text(t: &PieceTable) -> String {
    t.to_string()
}

#[test]
fn from_str_holds_text_and_lines() {
    let t = PieceTable::from_str("ab\ncd\n");
    assert_eq!(text(&t), "ab\ncd\n");
    assert_eq!(t.len(), 6);
    assert_eq!(t.lines(), 3);
    assert_eq!(t.get_line_start_byte(0), 0);
    assert_eq!(t.get_line_start_byte(1), 3);
    assert_eq!(t.get_line_start_byte(2), 6);
    assert_eq!(t.get_line_start_byte(3), 6);
    assert_eq!(t.get_line_end_byte(0), 3);
    assert_eq!(t.get_line_end_byte(1), 6);
    assert_eq!(t.get_line_end_byte(5), 6);
    assert!(!t.is_empty());
}

#[test]
fn default_is_empty() {
    let t = PieceTable::default();
    assert!(t.is_empty());
    assert_eq!(t.lines(), 1);
    assert_eq!(text(&t), "");
}

#[test]
fn line_end_is_next_line_start() {
    let t = PieceTable::from_str("one\ntwo\n\nfour");
    for n in 0..6 {
        assert_eq!(t.get_line_end_byte(n), t.get_line_start_byte(n + 1));
    }
}

#[test]
fn insert_at_start_middle_end() {
    let mut t = PieceTable::from_string(String::from("hello world"));
    t.insert(5, ",");
    assert_eq!(text(&t), "hello, world");
    t.insert(0, ">> ");
    assert_eq!(text(&t), ">> hello, world");
    t.append("!");
    assert_eq!(text(&t), ">> hello, world!");
    t.insert(t.len(), "\nbye");
    assert_eq!(text(&t), ">> hello, world!\nbye");
    assert_eq!(t.lines(), 2);
    assert_eq!(t.get_line_start_byte(1), 17);
}

#[test]
fn consecutive_inserts_extend_text() {
    let mut t = PieceTable::from_str("");
    t.insert(0, "a");
    t.insert(1, "b");
    t.insert(2, "c");
    t.insert(1, "\n");
    assert_eq!(text(&t), "a\nbc");
    assert_eq!(t.lines(), 2);
}

#[test]
fn remove_across_pieces() {
    let mut t = PieceTable::from_str("0123456789");
    t.insert(5, "abc");
    assert_eq!(text(&t), "01234abc56789");
    t.remove(3, 4);
    assert_eq!(text(&t), "012c56789");
    t.remove(0, 1);
    assert_eq!(text(&t), "12c56789");
    t.remove(2, 1);
    assert_eq!(text(&t), "1256789");
    t.remove(6, 1);
    assert_eq!(text(&t), "125678");
    t.remove(1, 2);
    assert_eq!(text(&t), "1678");
}

#[test]
fn remove_inside_one_piece_and_lines() {
    let mut t = PieceTable::from_str("a\nb\nc\nd");
    t.remove(1, 4);
    assert_eq!(text(&t), "a\nd");
    assert_eq!(t.lines(), 2);
    assert_eq!(t.get_line_start_byte(1), 2);
}

#[test]
fn undo_restores_text_before_commit() {
    let mut t = PieceTable::from_str("base");
    t.start_commit();
    t.insert(4, " text");
    t.remove(0, 1);
    t.end_commit();
    assert_eq!(text(&t), "ase text");
    assert!(t.can_undo());
    t.undo();
    assert_eq!(text(&t), "base");
    assert!(t.can_redo());
    t.hot_redo();
    assert_eq!(text(&t), "ase text");
}

#[test]
fn undo_twice_walks_back_two_commits() {
    let mut t = PieceTable::from_str("x");
    t.start_commit();
    t.append("y");
    t.end_commit();
    t.start_commit();
    t.insert(0, "w\n");
    t.end_commit();
    assert_eq!(text(&t), "w\nxy");
    t.undo();
    assert_eq!(text(&t), "xy");
    assert_eq!(t.lines(), 1);
    t.undo();
    assert_eq!(text(&t), "x");
    // The root has no parent: nothing happens.
    t.undo();
    assert_eq!(text(&t), "x");
    t.hot_redo();
    assert_eq!(text(&t), "xy");
    t.hot_redo();
    assert_eq!(text(&t), "w\nxy");
    t.hot_redo();
    assert_eq!(text(&t), "w\nxy");
}

#[test]
fn empty_commit_is_not_saved() {
    let mut t = PieceTable::from_str("abc");
    t.start_commit();
    t.end_commit();
    t.undo();
    assert_eq!(text(&t), "abc");
}

#[test]
fn slices() {
    let t = PieceTable::from_str("hello world");
    assert_eq!(t.slice(0..5), "hello");
    assert_eq!(t.slice(6..=10), "world");
    assert_eq!(t.slice(..), "hello world");
    assert_eq!(t.slice(6..11), "world");
    assert_eq!(t.slice(6..), "world");
    assert_eq!(t.slice(11..), "");
    assert_eq!(t.slice(..5), "hello");
    assert_eq!(t.slice(..=4), "hello");
    assert_eq!(t.slice(..=10), "hello world");
    assert_eq!(t.slice_range(3, 3), "");
    assert_eq!(t.slice_range(6, 100), "world");
    assert!(t.is_valid_slice(0, 11));
}

#[test]
fn multibyte_text() {
    let mut t = PieceTable::from_str("héllo");
    assert_eq!(t.len(), 6);
    t.insert(3, "ü");
    assert_eq!(text(&t), "héüllo");
    assert!(!t.is_valid_slice(0, 2));
    assert!(t.is_valid_slice(0, 3));
}

#[test]
fn history_tree_links() {
    let mut h = History::new(Commit::new());
    let mut c = Commit::new();
    c.add_change(0, Piece::new(Source::Original, 0, 1), Kind::Insertion);
    h.save(c);
    assert_eq!(h.len(), 2);
    assert_eq!(h.head_index(), 1);
    assert!(h.undo().is_some());
    assert_eq!(h.head_index(), 0);
    assert!(h.undo().is_none());
    assert!(h.hot_redo().is_some());
    assert_eq!(h.head_index(), 1);
    assert_eq!(h.entry(0).next, vec![1]);
}

#[test]
fn remove_undoes_insert() {
    let mut t = PieceTable::from_str("first\nsecond");
    t.insert(3, "-xyz\n");
    assert_eq!(text(&t), "fir-xyz\nst\nsecond");
    assert_eq!(t.lines(), 3);
    t.remove(3, 5);
    assert_eq!(text(&t), "first\nsecond");
    assert_eq!(t.lines(), 2);
    assert_eq!(t.get_line_start_byte(1), 6);
}

#[test]
fn insert_splits_original_piece() {
    let mut pt = PieceTable::from_str("hello world");
    pt.insert(5, ",\n");
    assert_eq!(text(&pt), "hello,\n world");
    assert_eq!(pt.len(), 13);
    assert_eq!(pt.lines(), 2);
    assert_eq!(pt.get_line_start_byte(1), 7);
}

#[test]
fn insert_extends_last_piece() {
    let mut pt = PieceTable::from_str("abc");
    pt.insert(1, "X");
    pt.insert(2, "Y");
    assert_eq!(text(&pt), "aXYbc");
    assert_eq!(pt.len(), 5);
    pt.remove(1, 3);
    assert_eq!(text(&pt), "ac");
    assert_eq!(pt.lines(), 1);
}

#[test]
fn undo_and_redo_at_root_do_nothing() {
    let mut pt = PieceTable::from_str("abc");
    pt.undo();
    assert_eq!(text(&pt), "abc");
    pt.hot_redo();
    assert_eq!(text(&pt), "abc");
    pt.start_commit();
    pt.end_commit();
    pt.undo();
    assert_eq!(text(&pt), "abc");
}

#[test]
fn commit_undo_redo_round_trip() {
    let mut pt = PieceTable::from_str("abc");
    pt.start_commit();
    pt.insert(3, "d");
    pt.remove(0, 1);
    pt.end_commit();
    assert_eq!(text(&pt), "bcd");
    pt.undo();
    assert_eq!(text(&pt), "abc");
    assert_eq!(pt.len(), 3);
    pt.hot_redo();
    assert_eq!(text(&pt), "bcd");
    pt.hot_redo();
    assert_eq!(text(&pt), "bcd");
}

#[test]
fn hot_redo_follows_last_branch() {
    let mut pt = PieceTable::from_str("x");
    pt.start_commit();
    pt.insert(1, "A");
    pt.end_commit();
    pt.undo();
    pt.start_commit();
    pt.insert(1, "B");
    pt.end_commit();
    pt.undo();
    assert_eq!(text(&pt), "x");
    pt.hot_redo();
    assert_eq!(text(&pt), "xB");
    assert_eq!(pt.len(), 2);
}

#[test]
fn line_count_follows_the_newlines() {
    let mut t = PieceTable::from_str("a\nb");
    assert_eq!(t.lines(), 2);
    t.insert(1, "x\ny\nz");
    assert_eq!(t.lines(), 4);
    t.remove(0, 3);
    assert_eq!(text(&t), "y\nz\nb");
    assert_eq!(t.lines(), 3);
    t.append("\n\n");
    assert_eq!(t.lines(), 5);
    assert_eq!(PieceTable::from_str("").lines(), 1);
}
