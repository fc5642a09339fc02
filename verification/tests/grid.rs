use fed::buffer_render::{
    buffer_row_fits_check, check_buffer_rows, move_grid_cursor, move_grid_cursors_to, BufferRenderer, GridCursor,
};
use fed::cell::Cell;
use fed::fed_core;
use fed::piece_table::PieceTable;
use fed::screen::{render_face, DrawOp, Screen};
use fed::state::ViewId;
use fed::types::{Direction, Face, Pos, Rect, Rgb};
use fed::viewport::Viewport;

fn text_of(s: &mut Screen, y: usize, w: usize) -> String {
    let mut out = String::new();
    for x in 0..w {
        out.push_str(&s.get(Pos::new(x, y)).unwrap().ch);
    }
    out
}

fn reversed(s: &mut Screen, x: usize, y: usize) -> bool {
    s.get(Pos::new(x, y)).unwrap().face.reverse == Some(true)
}

#[test]
fn buffer_lines_expand_tabs_and_mark_cursors() {
    let mut s = Screen::new(6, 3);
    let r = BufferRenderer::new(fed_core::DocumentId(0), ViewId(1));
    let lines = vec!["ab\tc".to_string(), "x".to_string()];
    let cursors = vec![
        GridCursor { pos: Pos::new(1, 0), pref_x: 1 },
        GridCursor { pos: Pos::new(1, 1), pref_x: 1 },
    ];
    {
        let mut v = Viewport::new(&mut s, Rect::new(Pos::new(0, 0), 6, 3));
        r.render(&mut v, Some(&lines), &cursors, Pos::new(0, 0), 4);
    }
    assert_eq!(text_of(&mut s, 0, 6), "ab  c ");
    assert_eq!(text_of(&mut s, 1, 6), "x     ");
    assert_eq!(text_of(&mut s, 2, 6), "      ");
    assert!(!reversed(&mut s, 0, 0));
    assert!(reversed(&mut s, 1, 0));
    assert!(!reversed(&mut s, 2, 0));
    assert!(reversed(&mut s, 1, 1));
    assert!(!reversed(&mut s, 2, 1));
}

#[test]
fn buffer_lines_scroll_sideways() {
    let mut s = Screen::new(3, 1);
    let r = BufferRenderer::new(fed_core::DocumentId(0), ViewId(1));
    let lines = vec!["\tab".to_string()];
    {
        let mut v = Viewport::new(&mut s, Rect::new(Pos::new(0, 0), 3, 1));
        r.render(&mut v, Some(&lines), &vec![], Pos::new(2, 0), 4);
    }
    assert_eq!(text_of(&mut s, 0, 3), "  a");
}

#[test]
fn nothing_fetched_draws_blanks() {
    let mut s = Screen::new(2, 2);
    s.set(Pos::new(0, 0), Cell::new("q".to_string(), 1, Face::plain()));
    let r = BufferRenderer::new(fed_core::DocumentId(0), ViewId(1));
    {
        let mut v = Viewport::new(&mut s, Rect::new(Pos::new(0, 0), 2, 2));
        r.render(&mut v, None, &vec![], Pos::new(0, 0), 4);
    }
    assert_eq!(text_of(&mut s, 0, 2), "  ");
}

#[test]
fn a_frame_draws_dirty_cells_once() {
    let mut s = Screen::new(2, 1);
    let rev = Face { reverse: Some(true), ..Face::plain() };
    s.set(Pos::new(0, 0), Cell::new("a".to_string(), 1, Face::plain()));
    s.set(Pos::new(1, 0), Cell::new("b".to_string(), 1, rev));
    assert_eq!(
        s.frame(),
        vec![
            DrawOp::Reset,
            DrawOp::MoveTo(0, 0),
            DrawOp::Print("a".to_string()),
            DrawOp::Reverse,
            DrawOp::Print("b".to_string()),
        ]
    );
    assert_eq!(s.frame(), vec![DrawOp::Reset]);
    s.set(Pos::new(1, 0), Cell::new("c".to_string(), 1, Face::plain()));
    assert_eq!(s.frame(), vec![DrawOp::Reset, DrawOp::MoveTo(1, 0), DrawOp::Print("c".to_string())]);
}

#[test]
fn dropping_an_attribute_resets_the_face() {
    let red = Rgb { r: 255, g: 0, b: 0 };
    let mut ops = Vec::new();
    let mut active = Face { bold: Some(true), ..Face::plain() };
    let target = Face { fg: Some(red), italic: Some(true), ..Face::plain() };
    render_face(&mut ops, &mut active, &target);
    assert_eq!(ops, vec![DrawOp::Reset, DrawOp::Foreground(Some(red)), DrawOp::Italic]);
    assert_eq!(active, target);
    let mut ops2 = Vec::new();
    render_face(&mut ops2, &mut active, &target);
    assert!(ops2.is_empty());
}

#[test]
fn grid_cursors_step_between_stops() {
    let t = PieceTable::from_str("a\tb\nxy");
    let c = GridCursor { pos: Pos::new(0, 0), pref_x: 0 };
    let right = move_grid_cursor(&t, 4, &[], c, Direction::Right);
    assert_eq!(right, GridCursor { pos: Pos::new(1, 0), pref_x: 1 });
    let right2 = move_grid_cursor(&t, 4, &[], right, Direction::Right);
    assert_eq!(right2, GridCursor { pos: Pos::new(4, 0), pref_x: 4 });
    let down = move_grid_cursor(&t, 4, &[], right2, Direction::Down);
    assert_eq!(down, GridCursor { pos: Pos::new(2, 1), pref_x: 4 });
    let up = move_grid_cursor(&t, 4, &[], down, Direction::Up);
    assert_eq!(up, GridCursor { pos: Pos::new(4, 0), pref_x: 4 });
    let left = move_grid_cursor(&t, 4, &[], up, Direction::Left);
    assert_eq!(left, GridCursor { pos: Pos::new(1, 0), pref_x: 1 });
    let mut cs = vec![c, down];
    move_grid_cursors_to(&t, 4, &[], &mut cs, Pos::new(9, 7));
    assert_eq!(cs, vec![GridCursor { pos: Pos::new(2, 1), pref_x: 2 }]);
}

#[test]
fn ordinary_buffer_lines_fit_in_usize() {
    let lines = vec!["ab\tc".to_string(), "x".to_string()];
    let cursors = vec![GridCursor { pos: Pos::new(1, 0), pref_x: 1 }];
    assert!(buffer_row_fits_check(&lines[0], &cursors, 0, 0, 4, 6));
    assert!(!buffer_row_fits_check(&lines[0], &cursors, 0, 0, 0, 6));
    assert!(check_buffer_rows(Some(&lines), &cursors, Pos::new(0, 0), 4, 6, 3));
    assert!(!check_buffer_rows(Some(&lines), &cursors, Pos::new(0, usize::MAX), 4, 6, 3));
    assert!(check_buffer_rows(None, &cursors, Pos::new(0, 0), 0, 6, 3));
}
