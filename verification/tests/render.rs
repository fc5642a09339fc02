use fed::cell::Cell;
use fed::decorator::{check_mode_line, mode_line_texts, ModeLineInput, ViewDecoratorRenderer};
use fed::mini_buffer::MiniBufferDecorationProvider;
use fed::mode_line::{check_mode_line_fits, mode_line_row, ModeLineConfig, ModeLineWidget};
use fed::piece_table::PieceTable;
use fed::screen::Screen;
use fed::state::{count_digits, DocumentId, Layout, LocalViewData, ViewId, ViewMode};
use fed::text_format::{decimal, right_aligned};
use fed::types::{Cursor, Decoration, Face, Pos, Rect, Span};
use fed::view_render::ViewRenderer;
use fed::viewport::Viewport;

fn row_text(s: &mut Screen, y: usize, w: usize) -> String {
    let mut out = String::new();
    for x in 0..w {
        out.push_str(&s.get(Pos::new(x, y)).unwrap().ch);
    }
    out
}

#[test]
fn screen_starts_blank_and_keeps_what_is_set() {
    let mut s = Screen::new(3, 2);
    assert_eq!(s.get(Pos::new(2, 1)).unwrap().ch, " ");
    assert!(s.get(Pos::new(0, 2)).is_none());
    s.set(Pos::new(1, 1), Cell::new("x".to_string(), 1, Face::plain()));
    assert_eq!(s.get(Pos::new(1, 1)).unwrap().ch, "x");
    s.set(Pos::new(5, 5), Cell::new("y".to_string(), 1, Face::plain()));
    assert_eq!(row_text(&mut s, 0, 3), "   ");
}

#[test]
fn resizing_keeps_cells_that_fit() {
    let mut s = Screen::new(2, 2);
    s.set(Pos::new(0, 0), Cell::new("a".to_string(), 1, Face::plain()));
    s.set(Pos::new(1, 1), Cell::new("d".to_string(), 1, Face::plain()));
    s.resize(3, 1);
    assert_eq!(s.width(), 3);
    assert_eq!(s.height(), 1);
    assert_eq!(row_text(&mut s, 0, 3), "a  ");
    s.resize(2, 3);
    assert_eq!(s.get(Pos::new(1, 2)).unwrap().ch, " ");
}

#[test]
fn viewport_offsets_and_clips() {
    let mut s = Screen::new(4, 2);
    {
        let mut v = Viewport::new(&mut s, Rect::new(Pos::new(1, 1), 2, 1));
        assert_eq!(v.width(), 2);
        assert_eq!(v.height(), 1);
        v.set(Pos::new(0, 0), Cell::new("a".to_string(), 1, Face::plain()));
        v.set(Pos::new(2, 0), Cell::new("b".to_string(), 1, Face::plain()));
        assert_eq!(v.get(Pos::new(0, 0)).unwrap().ch, "a");
        assert!(v.get(Pos::new(0, 1)).is_none());
    }
    assert_eq!(row_text(&mut s, 1, 4), " a  ");
}

#[test]
fn view_renderer_draws_lines_cursors_and_blank_rows() {
    let mut s = Screen::new(4, 3);
    let lvd = LocalViewData { offset: 0, lines: vec!["ab\n".to_string(), "c".to_string()] };
    let r = ViewRenderer::new(DocumentId(1), ViewId(1));
    {
        let mut v = Viewport::new(&mut s, Rect::new(Pos::new(0, 0), 4, 3));
        r.render(&mut v, Some(&lvd), &vec![Cursor::new(1, 1)], Pos::new(0, 0), 4, &[]);
    }
    assert_eq!(row_text(&mut s, 0, 4), "ab  ");
    assert_eq!(row_text(&mut s, 1, 4), "c   ");
    assert_eq!(row_text(&mut s, 2, 4), "    ");
    assert_eq!(s.get(Pos::new(1, 0)).unwrap().face.reverse, Some(true));
    assert_eq!(s.get(Pos::new(0, 0)).unwrap().face.reverse, None);
}

#[test]
fn view_renderer_scrolls_and_blanks_cut_wide_graphemes() {
    let mut s = Screen::new(2, 1);
    let lvd = LocalViewData { offset: 0, lines: vec!["a漢b".to_string()] };
    let r = ViewRenderer::new(DocumentId(1), ViewId(1));
    {
        let mut v = Viewport::new(&mut s, Rect::new(Pos::new(0, 0), 2, 1));
        r.render(&mut v, Some(&lvd), &vec![], Pos::new(2, 0), 4, &[]);
    }
    assert_eq!(row_text(&mut s, 0, 2), " b");
}

#[test]
fn view_renderer_without_lines_draws_blank() {
    let mut s = Screen::new(2, 1);
    s.set(Pos::new(0, 0), Cell::new("x".to_string(), 1, Face::plain()));
    let r = ViewRenderer::new(DocumentId(1), ViewId(1));
    {
        let mut v = Viewport::new(&mut s, Rect::new(Pos::new(0, 0), 2, 1));
        r.render(&mut v, None, &vec![], Pos::new(0, 0), 4, &[]);
    }
    assert_eq!(row_text(&mut s, 0, 2), "  ");
}

fn texts(v: &[(String, Face)]) -> Vec<String> {
    v.iter().map(|t| t.0.clone()).collect()
}

#[test]
fn widgets_show_mode_path_and_position() {
    let t = PieceTable::from_str("ab\ncd");
    let cursors = vec![Cursor::new(4, 1)];
    let path = Some("notes.txt".to_string());
    let f = Face::plain();
    let mode = ModeLineWidget::Mode { face: f };
    let file = ModeLineWidget::FilePath { face: f };
    let pos = ModeLineWidget::CursorPos { face: f };
    assert_eq!(texts(&mode.render(ViewMode::Insert, &path, true, &t, &cursors, 4, &[])), vec!["[INSERT]"]);
    assert_eq!(texts(&file.render(ViewMode::Normal, &path, true, &t, &cursors, 4, &[])), vec!["[notes.txt*]"]);
    assert_eq!(texts(&file.render(ViewMode::Normal, &None, false, &t, &cursors, 4, &[])), vec!["[SCRATCHPAD]"]);
    assert_eq!(texts(&pos.render(ViewMode::Normal, &path, false, &t, &cursors, 4, &[])), vec!["[2:2 1]"]);
}

#[test]
fn mode_line_puts_left_and_right_texts_at_the_edges() {
    let f = Face::plain();
    let left = vec![("ab".to_string(), f)];
    let right = vec![("xy".to_string(), f), (" ".to_string(), f)];
    let row = mode_line_row(&left, &right, 7);
    let text: String = row.iter().map(|c| c.ch.clone()).collect();
    assert_eq!(text, "ab  xy ");
    assert!(row.iter().all(|c| c.face.reverse == Some(true)));
}

#[test]
fn default_mode_line_texts() {
    let t = PieceTable::from_str("abc");
    let cursors = vec![Cursor::new(0, 0)];
    let path = None;
    let inp = ModeLineInput {
        mode: ViewMode::Normal,
        path: &path,
        modified: false,
        table: &t,
        cursors: &cursors,
        tab_width: 4,
        decs: &[],
    };
    let (left, right) = mode_line_texts(&ModeLineConfig::default(), &inp);
    assert_eq!(texts(&left), vec!["[NORMAL]", " ", "[SCRATCHPAD]"]);
    assert_eq!(texts(&right), vec!["[1:1 1]", " "]);
}

#[test]
fn decorated_view_has_gutter_and_mode_line() {
    let t = PieceTable::from_str("ab\ncd");
    let cursors = vec![Cursor::new(0, 0)];
    let path = None;
    let inp = ModeLineInput {
        mode: ViewMode::Normal,
        path: &path,
        modified: false,
        table: &t,
        cursors: &cursors,
        tab_width: 4,
        decs: &[],
    };
    let lvd = LocalViewData { offset: 0, lines: vec!["ab\n".to_string(), "cd".to_string()] };
    let r = ViewDecoratorRenderer::new(ViewId(1), ViewRenderer::new(DocumentId(1), ViewId(1)));
    let mut s = Screen::new(40, 3);
    {
        let mut v = Viewport::new(&mut s, Rect::new(Pos::new(0, 0), 40, 3));
        r.render(&mut v, Layout { gutter: true, mode_line: 1 }, Pos::new(0, 0), Some(&lvd), &ModeLineConfig::default(), &inp);
    }
    assert_eq!(row_text(&mut s, 0, 5), "1 ab ");
    assert_eq!(row_text(&mut s, 1, 5), "2 cd ");
    assert_eq!(row_text(&mut s, 2, 40), "[NORMAL] [SCRATCHPAD]           [1:1 1] ");
}

#[test]
fn gutter_is_as_wide_as_the_largest_line_number() {
    assert_eq!(Layout { gutter: true, mode_line: 1 }.gutter_width(9), 2);
    assert_eq!(Layout { gutter: true, mode_line: 1 }.gutter_width(10), 3);
    assert_eq!(Layout { gutter: false, mode_line: 0 }.gutter_width(10), 0);
    assert_eq!(count_digits(0), 1);
    assert_eq!(count_digits(12345), 5);
}

#[test]
fn decimal_and_alignment() {
    assert_eq!(decimal(0), "0");
    assert_eq!(decimal(907), "907");
    assert_eq!(right_aligned(&"7".to_string(), 3), "  7");
    assert_eq!(right_aligned(&"1234".to_string(), 3), "1234");
}

#[test]
fn mini_buffer_prompt_stands_before_the_first_byte() {
    let p = MiniBufferDecorationProvider::new("Name: ".to_string(), Face::plain());
    let mut out: Vec<Span<Decoration>> = Vec::new();
    p.range(3, 9, &mut out);
    assert!(out.is_empty());
    p.range(0, 9, &mut out);
    assert_eq!(out.len(), 1);
    assert_eq!(out[0].start, 0);
    assert!(matches!(&out[0].data, Decoration::VirtualText { text, .. } if text == "Name: "));
}

#[test]
fn ordinary_mode_lines_can_be_shown() {
    let f = Face::plain();
    let left = vec![("ab".to_string(), f)];
    let right = vec![("xy".to_string(), f), (" ".to_string(), f)];
    assert!(check_mode_line_fits(&left, &right, 7));
    assert!(check_mode_line_fits(&left, &right, 0));
    let t = PieceTable::from_str("abc");
    let cursors = vec![Cursor::new(0, 0)];
    let path = None;
    let inp = ModeLineInput {
        mode: ViewMode::Normal,
        path: &path,
        modified: false,
        table: &t,
        cursors: &cursors,
        tab_width: 4,
        decs: &[],
    };
    assert!(check_mode_line(&ModeLineConfig::default(), &inp, 30));
    let bad = ModeLineInput { tab_width: 0, ..inp };
    assert!(!check_mode_line(&ModeLineConfig::default(), &bad, 30));
}
