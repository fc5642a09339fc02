use fed::action::{
    backspace, can_insert, can_move, can_remove, can_transact, create_cursor_at_pos, delete,
    execute_transaction, insert, move_cursor_to_pos, move_cursors, offset_to_pos, pos_to_offset,
    refresh_pref_x, remove_cursor, remove_edits, sort_cursors, sort_edits, Edit,
};
use fed::piece_table::PieceTable;
use fed::text_lines::line_at;
use fed::types::{Cursor, Decoration, Direction, Face, Pos, Span};

fn offsets(cs: &[Cursor]) -> Vec<usize> {
    cs.iter().map(|c| c.offset).collect()
}

#[test]
fn line_of_offsets() {
    let t = PieceTable::from_str("ab\ncd");
    assert_eq!(line_at(&t, 0), 0);
    assert_eq!(line_at(&t, 2), 0);
    assert_eq!(line_at(&t, 3), 1);
    assert_eq!(line_at(&t, 5), 1);
    assert_eq!(line_at(&t, 99), 1);
}

#[test]
fn offsets_and_positions() {
    let t = PieceTable::from_str("ab\ncd");
    assert_eq!(offset_to_pos(&t, 4, &[], 1), Pos::new(1, 0));
    assert_eq!(offset_to_pos(&t, 4, &[], 4), Pos::new(1, 1));
    assert_eq!(offset_to_pos(&t, 4, &[], 5), Pos::new(2, 1));
    assert_eq!(pos_to_offset(&t, 4, &[], Pos::new(5, 0)), 2);
    assert_eq!(pos_to_offset(&t, 4, &[], Pos::new(1, 7)), 4);
    assert_eq!(pos_to_offset(&t, 4, &[], Pos::new(0, 1)), 3);
}

#[test]
fn position_inside_a_tab_points_at_the_tab() {
    let t = PieceTable::from_str("\tx");
    assert_eq!(pos_to_offset(&t, 4, &[], Pos::new(2, 0)), 0);
    assert_eq!(pos_to_offset(&t, 4, &[], Pos::new(4, 0)), 1);
    assert_eq!(offset_to_pos(&t, 4, &[], 1), Pos::new(4, 0));
}

#[test]
fn moving_right_at_a_line_end_goes_to_the_next_line() {
    let t = PieceTable::from_str("ab\ncd");
    let mut cs = vec![Cursor::new(2, 2)];
    move_cursors(&t, 4, &plain_lines(&t), &mut cs, Direction::Right);
    assert_eq!(cs, vec![Cursor::new(3, 0)]);
}

#[test]
fn moving_down_keeps_the_preferred_column() {
    let t = PieceTable::from_str("abc\nd\nefg");
    let mut cs = vec![Cursor::new(2, 2)];
    move_cursors(&t, 4, &plain_lines(&t), &mut cs, Direction::Down);
    assert_eq!(cs, vec![Cursor::new(5, 2)]);
    move_cursors(&t, 4, &plain_lines(&t), &mut cs, Direction::Down);
    assert_eq!(cs, vec![Cursor::new(8, 2)]);
    move_cursors(&t, 4, &plain_lines(&t), &mut cs, Direction::Down);
    assert_eq!(cs, vec![Cursor::new(9, 2)]);
}

#[test]
fn moving_up_on_the_first_line_goes_to_the_start() {
    let t = PieceTable::from_str("abc");
    let mut cs = vec![Cursor::new(2, 2)];
    move_cursors(&t, 4, &plain_lines(&t), &mut cs, Direction::Up);
    assert_eq!(cs, vec![Cursor::new(0, 2)]);
}

#[test]
fn moving_left_at_a_line_start_goes_to_the_line_above() {
    let t = PieceTable::from_str("ab\ncd");
    let mut cs = vec![Cursor::new(3, 0)];
    move_cursors(&t, 4, &plain_lines(&t), &mut cs, Direction::Left);
    assert_eq!(cs, vec![Cursor::new(2, 2)]);
}

#[test]
fn cursors_that_meet_merge() {
    let t = PieceTable::from_str("ab\ncd");
    let mut cs = vec![Cursor::new(1, 1), Cursor::new(0, 0)];
    move_cursors(&t, 4, &plain_lines(&t), &mut cs, Direction::Left);
    assert_eq!(offsets(&cs), vec![0]);
}

#[test]
fn sorting_keeps_the_first_cursor_of_an_offset() {
    let cs = vec![Cursor::new(5, 1), Cursor::new(2, 7), Cursor::new(5, 9), Cursor::new(0, 3)];
    let sorted = sort_cursors(&cs);
    assert_eq!(sorted, vec![Cursor::new(0, 3), Cursor::new(2, 7), Cursor::new(5, 1)]);
}

#[test]
fn sorting_edits_keeps_the_first_edit_of_an_offset() {
    let es = vec![
        Edit::new(1, 0, "a".to_string()),
        Edit::new(4, 0, "b".to_string()),
        Edit::new(1, 0, "c".to_string()),
    ];
    let sorted = sort_edits(&es);
    let got: Vec<(usize, String)> = sorted.iter().map(|e| (e.offset, e.insert.clone())).collect();
    assert_eq!(got, vec![(4, "b".to_string()), (1, "a".to_string())]);
}

#[test]
fn typing_moves_the_cursor_after_the_text() {
    let mut t = PieceTable::from_str("ab\ncd");
    let mut modified = false;
    let mut cs = vec![Cursor::new(1, 1)];
    insert(&mut t, &mut modified, &mut cs, 4, &[], "x".to_string());
    assert_eq!(t.to_string(), "axb\ncd");
    assert_eq!(offsets(&cs), vec![2]);
    assert!(modified);
}

#[test]
fn typing_at_several_cursors() {
    let mut t = PieceTable::from_str("ab\ncd");
    let mut modified = false;
    let mut cs = vec![Cursor::new(1, 1), Cursor::new(4, 1)];
    insert(&mut t, &mut modified, &mut cs, 4, &[], "--".to_string());
    assert_eq!(t.to_string(), "a--b\nc--d");
    assert_eq!(offsets(&cs), vec![3, 8]);
}

#[test]
fn a_tab_becomes_spaces_to_the_next_stop() {
    let mut t = PieceTable::from_str("ab");
    let mut modified = false;
    let mut cs = vec![Cursor::new(1, 1)];
    t.start_commit();
    insert(&mut t, &mut modified, &mut cs, 4, &[], "\t".to_string());
    assert_eq!(t.to_string(), "a   b");
    assert_eq!(offsets(&cs), vec![4]);
}

#[test]
fn a_space_starts_a_new_commit() {
    let mut t = PieceTable::from_str("");
    let mut modified = false;
    let mut cs = vec![Cursor::new(0, 0)];
    t.start_commit();
    insert(&mut t, &mut modified, &mut cs, 4, &[], "a".to_string());
    insert(&mut t, &mut modified, &mut cs, 4, &[], " ".to_string());
    insert(&mut t, &mut modified, &mut cs, 4, &[], "b".to_string());
    t.end_commit();
    assert_eq!(t.to_string(), "a b");
    t.undo();
    assert_eq!(t.to_string(), "a");
    t.undo();
    assert_eq!(t.to_string(), "");
}

#[test]
fn backspace_joins_lines_and_removes_graphemes() {
    let mut t = PieceTable::from_str("ab\ncé");
    let mut modified = false;
    let mut cs = vec![Cursor::new(3, 0)];
    backspace(&mut t, &mut modified, &mut cs);
    assert_eq!(t.to_string(), "abcé");
    assert_eq!(offsets(&cs), vec![2]);
    let mut cs = vec![Cursor::new(t.len(), 0)];
    backspace(&mut t, &mut modified, &mut cs);
    assert_eq!(t.to_string(), "abc");
    assert_eq!(offsets(&cs), vec![3]);
    let mut cs = vec![Cursor::new(0, 0)];
    backspace(&mut t, &mut modified, &mut cs);
    assert_eq!(t.to_string(), "abc");
    assert_eq!(offsets(&cs), vec![0]);
}

#[test]
fn delete_removes_the_next_grapheme_or_newline() {
    let mut t = PieceTable::from_str("ab\ncd");
    let mut modified = false;
    let mut cs = vec![Cursor::new(1, 1)];
    delete(&mut t, &mut modified, &mut cs);
    assert_eq!(t.to_string(), "a\ncd");
    assert_eq!(offsets(&cs), vec![1]);
    delete(&mut t, &mut modified, &mut cs);
    assert_eq!(t.to_string(), "acd");
    let mut cs = vec![Cursor::new(3, 0)];
    delete(&mut t, &mut modified, &mut cs);
    assert_eq!(t.to_string(), "acd");
}

#[test]
fn removals_at_each_cursor() {
    let t = PieceTable::from_str("ab\ncd");
    let es = remove_edits(&t, &vec![Cursor::new(0, 0), Cursor::new(2, 0), Cursor::new(4, 0)], true);
    let got: Vec<(usize, usize)> = es.iter().map(|e| (e.offset, e.remove)).collect();
    assert_eq!(got, vec![(1, 1), (3, 1)]);
}

#[test]
fn a_removal_around_a_cursor_pulls_it_to_the_edit() {
    let mut t = PieceTable::from_str("abcdef");
    let mut modified = false;
    let mut cs = vec![Cursor::new(3, 3), Cursor::new(6, 6)];
    execute_transaction(&mut t, &mut modified, &mut cs, &vec![Edit::new(1, 4, "X".to_string())]);
    assert_eq!(t.to_string(), "aXf");
    assert_eq!(offsets(&cs), vec![1, 3]);
}

#[test]
fn an_empty_transaction_leaves_the_document_unmodified() {
    let mut t = PieceTable::from_str("abc");
    let mut modified = false;
    let mut cs = vec![Cursor::new(1, 0)];
    execute_transaction(&mut t, &mut modified, &mut cs, &vec![Edit::new(1, 0, String::new())]);
    assert_eq!(t.to_string(), "abc");
    assert!(!modified);
}

#[test]
fn cursors_at_positions() {
    let t = PieceTable::from_str("ab\ncd");
    let mut cs = vec![Cursor::new(0, 0), Cursor::new(4, 1)];
    move_cursor_to_pos(&t, 4, &[], &mut cs, Pos::new(1, 1));
    assert_eq!(cs, vec![Cursor::new(4, 1)]);
    create_cursor_at_pos(&t, 4, &[], &mut cs, Pos::new(0, 0));
    assert_eq!(offsets(&cs), vec![0, 4]);
    remove_cursor(&mut cs, 4);
    assert_eq!(offsets(&cs), vec![0]);
}

#[test]
fn the_first_cursor_prefers_its_column() {
    let t = PieceTable::from_str("\tab");
    let mut cs = vec![Cursor::new(2, 0)];
    refresh_pref_x(&t, 4, &[], &mut cs);
    assert_eq!(cs, vec![Cursor::new(2, 5)]);
}

#[test]
fn inputs_the_edits_can_take_are_recognised() {
    let t = PieceTable::from_str("é\nab");
    let on = vec![Cursor::new(2, 0)];
    let inside = vec![Cursor::new(1, 0)];
    assert!(can_insert(&t, &on, 4, &[], &"x".to_string()));
    assert!(can_insert(&t, &on, 4, &[], &"\t".to_string()));
    assert!(!can_insert(&t, &on, 0, &[], &"x".to_string()));
    assert!(can_remove(&t, &on, true));
    assert!(can_remove(&t, &on, false));
    assert!(!can_remove(&t, &inside, true));
    assert!(can_transact(&t, &on, &vec![Edit::new(0, 2, String::new())]));
    assert!(!can_transact(&t, &on, &vec![Edit::new(4, 9, String::new())]));
}

#[test]
fn a_line_hidden_by_a_replacement_cannot_be_moved_onto() {
    let t = PieceTable::from_str("a\nbc\nd");
    let end = vec![Cursor::new(6, 0)];
    assert!(can_move(&t, 4, &plain_lines(&t), &end, Direction::Up));
    let decs = vec![Span { start: 0, end: 6, data: Decoration::Replace { text: "X".to_string(), face: Face::plain() } }];
    let line_decs = vec![Vec::new(), Vec::new(), decs];
    assert!(!can_move(&t, 4, &line_decs, &end, Direction::Up));
    assert!(can_move(&t, 4, &line_decs, &end, Direction::Left));
}

fn plain_lines(t: &PieceTable) -> Vec<Vec<Span<Decoration>>> {
    vec![Vec::new(); t.lines()]
}

#[test]
fn moving_up_lays_out_the_line_above_with_the_cursor_line_decorations() {
    let t = PieceTable::from_str("ab\ncd");
    let prompt = Span { start: 0, end: 0, data: Decoration::VirtualText { text: "> ".to_string(), face: Face::plain() } };
    let line_decs = vec![vec![prompt], Vec::new()];
    let mut cs = vec![Cursor::new(4, 1)];
    assert!(can_move(&t, 4, &line_decs, &cs, Direction::Up));
    move_cursors(&t, 4, &line_decs, &mut cs, Direction::Up);
    assert_eq!(cs, vec![Cursor::new(1, 1)]);
}
