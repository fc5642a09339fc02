use fed::cell::Cell;
use fed::layout::{cells_fits_check, layout_cells, layout_vom, vom_fits_check, VisualOffsetMapping};
use fed::types::{Decoration, Face, Span};

fn pairs(v: &[VisualOffsetMapping]) -> Vec<(usize, usize)> {
    v.iter().map(|m| (m.visual_x, m.offset)).collect()
}

fn texts(cells: &[Cell]) -> Vec<(String, usize)> {
    cells.iter().map(|c| (c.ch.clone(), c.width)).collect()
}

fn plain() -> Face {
    Face::plain()
}

#[test]
fn vom_maps_tabs_to_tab_stops() {
    let (vom, next) = layout_vom("ab\tc\n", 0, 4, &[]);
    assert_eq!(pairs(&vom), vec![(0, 0), (1, 1), (2, 2), (4, 3), (5, 4)]);
    assert_eq!(next, 5);
}

#[test]
fn vom_of_last_line_maps_its_end() {
    let (vom, next) = layout_vom("xy", 10, 4, &[]);
    assert_eq!(pairs(&vom), vec![(0, 10), (1, 11), (2, 12)]);
    assert_eq!(next, 12);
}

#[test]
fn vom_counts_bytes_and_columns_of_wide_graphemes() {
    let (vom, next) = layout_vom("漢a", 0, 4, &[]);
    assert_eq!(pairs(&vom), vec![(0, 0), (2, 3), (3, 4)]);
    assert_eq!(next, 4);
}

#[test]
fn cells_expand_tabs_and_pad_wide_graphemes() {
    let cells = layout_cells("a\t漢", 0, 4, &[]);
    assert_eq!(
        texts(&cells),
        vec![
            ("a".to_string(), 1),
            (" ".to_string(), 1),
            (" ".to_string(), 1),
            (" ".to_string(), 1),
            ("漢".to_string(), 2),
            (String::new(), 0),
        ]
    );
}

#[test]
fn newline_takes_no_cell() {
    let cells = layout_cells("a\n", 0, 4, &[]);
    assert_eq!(texts(&cells), vec![("a".to_string(), 1)]);
}

#[test]
fn virtual_text_comes_before_its_byte() {
    let decs = vec![Span {
        start: 0,
        end: 0,
        data: Decoration::VirtualText { text: "> ".to_string(), face: plain() },
    }];
    let (vom, next) = layout_vom("ab", 0, 4, &decs);
    assert_eq!(pairs(&vom), vec![(2, 0), (3, 1), (4, 2)]);
    assert_eq!(next, 2);
    let cells = layout_cells("ab", 0, 4, &decs);
    assert_eq!(
        texts(&cells),
        vec![(">".to_string(), 1), (" ".to_string(), 1), ("a".to_string(), 1), ("b".to_string(), 1)]
    );
}

#[test]
fn virtual_text_at_the_end_of_an_empty_document() {
    let decs = vec![Span {
        start: 0,
        end: 0,
        data: Decoration::VirtualText { text: "?".to_string(), face: plain() },
    }];
    let (vom, next) = layout_vom("", 0, 4, &decs);
    assert_eq!(pairs(&vom), vec![(1, 0)]);
    assert_eq!(next, 0);
    let cells = layout_cells("", 0, 4, &decs);
    assert_eq!(texts(&cells), vec![("?".to_string(), 1)]);
}

#[test]
fn replacement_hides_the_spanned_graphemes() {
    let decs = vec![Span {
        start: 0,
        end: 1,
        data: Decoration::Replace { text: "XY".to_string(), face: plain() },
    }];
    let (vom, next) = layout_vom("abc", 0, 4, &decs);
    assert_eq!(pairs(&vom), vec![(0, 0), (2, 2), (3, 3)]);
    assert_eq!(next, 3);
    let cells = layout_cells("abc", 0, 4, &decs);
    assert_eq!(
        texts(&cells),
        vec![("X".to_string(), 1), ("Y".to_string(), 1), ("c".to_string(), 1)]
    );
}

#[test]
fn style_spans_lay_their_face_over_the_text() {
    let mut bold = Face::plain();
    bold.bold = Some(true);
    let decs = vec![Span { start: 1, end: 1, data: Decoration::Style { face: bold } }];
    let cells = layout_cells("abc", 0, 4, &decs);
    assert_eq!(cells[0].face.bold, Some(true));
    assert_eq!(cells[1].face.bold, Some(true));
    assert_eq!(cells[2].face.bold, None);
}

#[test]
fn merge_keeps_what_the_layer_leaves_open() {
    let mut base = Face::plain();
    base.italic = Some(true);
    base.bold = Some(false);
    let mut layer = Face::plain();
    layer.bold = Some(true);
    base.merge(layer);
    assert_eq!(base.bold, Some(true));
    assert_eq!(base.italic, Some(true));
    assert_eq!(base.fg, None);
}

#[test]
fn ordinary_lines_fit_in_usize() {
    assert!(vom_fits_check("a\tb", 0, 4, &[]));
    assert!(cells_fits_check("a\tb\n", 7, 4, &[]));
    let t = fed::piece_table::PieceTable::from_str("ab\ncd\te");
    assert!(fed::action::check_layout(&t, 4, &[]));
    assert!(!fed::action::check_layout(&t, 0, &[]));
    let lvd = fed::state::LocalViewData { offset: 0, lines: vec!["ab\n".to_string(), "cd\te".to_string()] };
    assert!(fed::view_render::check_rows(Some(&lvd), 4, &[], 2));
    assert!(!fed::view_render::check_rows(Some(&lvd), 0, &[], 2));
    assert!(fed::view_render::check_rows(None, 0, &[], 2));
    assert!(!fed::view_render::check_rows(Some(&lvd), 0, &[], 0));
    let s = fed::screen::Screen::new(3, 2);
    assert!(s.check_narrow());
}

#[test]
fn zero_tab_width_lays_out_lines_without_tabs() {
    let (vom, next) = layout_vom("ab\n", 0, 0, &[]);
    assert_eq!(pairs(&vom), vec![(0, 0), (1, 1), (2, 2)]);
    assert_eq!(next, 3);
    let cells = layout_cells("ab", 0, 0, &[]);
    assert_eq!(texts(&cells), vec![(String::from("a"), 1), (String::from("b"), 1)]);
    assert!(vom_fits_check("ab", 0, 0, &[]));
    assert!(cells_fits_check("ab", 0, 0, &[]));
}
