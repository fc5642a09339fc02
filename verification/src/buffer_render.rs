use vstd::prelude::*;

use crate::cell::{blank_cell, cell_views, Cell, CellView};
use crate::fed_core::DocumentId;
use crate::action::{layout_ok, line_vom};
use crate::layout::{char_width, layout_vom, mapping_pairs, vom_fits};
use crate::piece_table::{line_start, PieceTable};
use crate::text_lines::{line_chars, line_text, num_lines};
use crate::types::{Decoration, Direction, Span};
use crate::mode_line::trailing_cell;
use crate::state::ViewId;
use crate::types::{plain_face, Face, Pos};
use crate::unicode::{grapheme_clusters, graphemes, str_width, string_views, width};
use crate::view_render::{reversed, space_cell};
use crate::viewport::{drawn, rows_view, shows_rows, within_width, Viewport};

verus! {

/// A cursor of the buffer protocol: the grid position it stands at, and the
/// column it prefers when it moves up or down.
#[derive(Clone, Copy, PartialEq, Eq, Structural, Debug)]
pub struct GridCursor {
    pub pos: Pos,
    pub pref_x: usize,
}

/// Renders the lines the buffer protocol fetched for a view.
pub struct BufferRenderer {
    pub doc: DocumentId,
    pub view: ViewId,
}

impl BufferRenderer {
    pub fn new(doc: DocumentId, view: ViewId) -> (r: Self)
        ensures
            r.doc == doc,
            r.view == view,
    {
        BufferRenderer { doc, view }
    }
}

/// Whether a cursor stands at column `x` of document line `y`.
pub open spec fn grid_cursor_at(cs: Seq<GridCursor>, x: int, y: int) -> bool {
    exists|i: int| 0 <= i < cs.len() && #[trigger] cs[i].pos == (Pos { x: x as usize, y: y as usize }) && x <= usize::MAX && y <= usize::MAX
}

/// The face of a cell at column `x` of document line `y`: reversed under a
/// cursor.
pub open spec fn grid_face(cs: Seq<GridCursor>, x: int, y: int) -> Face {
    if grid_cursor_at(cs, x, y) {
        reversed(plain_face())
    } else {
        plain_face()
    }
}

/// Progress through a line when drawing it: the cells drawn so far, the
/// visual column reached, and whether the line's drawing stopped.
pub struct LineDraw {
    pub cells: Seq<CellView>,
    pub visual_x: int,
    pub stopped: bool,
}

/// `n` copies of a cell.
pub open spec fn repeat_cell(c: CellView, n: int) -> Seq<CellView> {
    Seq::new(if n > 0 { n as nat } else { 0 }, |i: int| c)
}

/// One grapheme of a line scrolled by `scroll_x`, drawn into a row `vw`
/// columns wide. Graphemes of no width draw nothing; graphemes left of the
/// scroll draw nothing; a tab draws its visible columns as spaces; a wide
/// grapheme cut by the left edge draws one space; one that does not fit at
/// the right edge draws spaces up to it and stops the line; else the
/// grapheme and its trailing cells, as far as the row goes.
pub open spec fn draw_step(st: LineDraw, g: Seq<char>, cs: Seq<GridCursor>, y: int, scroll_x: int, tab: int, vw: int) -> LineDraw {
    let x = st.cells.len() as int;
    let w = char_width(g, st.visual_x, tab);
    if st.stopped || x >= vw || w == 0 {
        LineDraw { stopped: st.stopped || x >= vw, ..st }
    } else {
        let start = st.visual_x;
        let vx = start + w;
        let face = grid_face(cs, start, y);
        if vx <= scroll_x {
            LineDraw { cells: st.cells, visual_x: vx, stopped: false }
        } else if g == seq!['\t'] {
            let visible = vx - (if scroll_x > start { scroll_x } else { start });
            let n = if visible < vw - x { visible } else { vw - x };
            LineDraw { cells: st.cells + repeat_cell(space_cell(face), n), visual_x: vx, stopped: false }
        } else if start < scroll_x {
            LineDraw { cells: st.cells.push(space_cell(face)), visual_x: vx, stopped: false }
        } else if x + w > vw {
            LineDraw { cells: st.cells + repeat_cell(space_cell(face), vw - x), visual_x: vx, stopped: true }
        } else {
            let n = if w - 1 < vw - x - 1 { w - 1 } else { vw - x - 1 };
            LineDraw {
                cells: st.cells.push(CellView { ch: g, width: w as usize, face }) + repeat_cell(trailing_cell(face), n),
                visual_x: vx,
                stopped: false,
            }
        }
    }
}

/// `draw_step` over the graphemes of a line.
pub open spec fn draw_fold(gs: Seq<Seq<char>>, cs: Seq<GridCursor>, y: int, scroll_x: int, tab: int, vw: int) -> LineDraw
    decreases gs.len(),
{
    if gs.len() == 0 {
        LineDraw { cells: Seq::empty(), visual_x: 0, stopped: false }
    } else {
        draw_step(draw_fold(gs.drop_last(), cs, y, scroll_x, tab, vw), gs.last(), cs, y, scroll_x, tab, vw)
    }
}

/// The row of a line: its drawn cells, then spaces to the row's end, each
/// reversed under a cursor (columns counted on from the line's end).
pub open spec fn buffer_row_spec(line: Seq<char>, cs: Seq<GridCursor>, y: int, scroll_x: int, tab: int, vw: int) -> Seq<CellView> {
    let d = draw_fold(grapheme_clusters(line), cs, y, scroll_x, tab, vw);
    let x = d.cells.len() as int;
    d.cells + Seq::new(
        (if vw > x { vw - x } else { 0 }) as nat,
        |k: int| space_cell(grid_face(cs, d.visual_x + k, y)),
    )
}

/// Whether drawing a line keeps its columns within `usize`.
pub open spec fn buffer_row_fits(line: Seq<char>, cs: Seq<GridCursor>, y: int, scroll_x: int, tab: int, vw: int) -> bool {
    &&& tab > 0
    &&& draw_fold(grapheme_clusters(line), cs, y, scroll_x, tab, vw).visual_x + vw <= usize::MAX
}

pub proof fn lemma_draw_step_grows(st: LineDraw, g: Seq<char>, cs: Seq<GridCursor>, y: int, scroll_x: int, tab: int, vw: int)
    requires
        tab > 0,
        st.visual_x >= 0,
    ensures
        draw_step(st, g, cs, y, scroll_x, tab, vw).visual_x >= st.visual_x,
        !st.stopped && st.cells.len() < vw ==> draw_step(st, g, cs, y, scroll_x, tab, vw).visual_x == st.visual_x + char_width(g, st.visual_x, tab),
{
}

pub proof fn lemma_draw_fold_grows(gs: Seq<Seq<char>>, i: int, cs: Seq<GridCursor>, y: int, scroll_x: int, tab: int, vw: int)
    requires
        0 <= i <= gs.len(),
        tab > 0,
    ensures
        0 <= draw_fold(gs.take(i), cs, y, scroll_x, tab, vw).visual_x <= draw_fold(gs, cs, y, scroll_x, tab, vw).visual_x,
    decreases gs.len(),
{
    if gs.len() > 0 {
        if i < gs.len() {
            lemma_draw_fold_grows(gs.drop_last(), i, cs, y, scroll_x, tab, vw);
            assert(gs.drop_last().take(i) == gs.take(i));
        } else {
            assert(gs.take(i) == gs);
            lemma_draw_fold_grows(gs.drop_last(), i - 1, cs, y, scroll_x, tab, vw);
            assert(gs.drop_last().take(i - 1) == gs.drop_last());
        }
        lemma_draw_step_grows(draw_fold(gs.drop_last(), cs, y, scroll_x, tab, vw), gs.last(), cs, y, scroll_x, tab, vw);
    } else {
        assert(gs.take(i) =~= gs);
    }
}

/// Whether a cursor stands at column `x` of document line `y`.
fn cursor_here(cursors: &Vec<GridCursor>, x: usize, y: usize) -> (r: bool)
    ensures
        r == grid_cursor_at(cursors@, x as int, y as int),
{
    let mut k: usize = 0;
    while k < cursors.len()
        invariant
            k <= cursors@.len(),
            forall|i: int| 0 <= i < k ==> cursors@[i].pos != (Pos { x, y }),
        decreases cursors@.len() - k,
    {
        if cursors[k].pos.x == x && cursors[k].pos.y == y {
            proof {
                assert(cursors@[k as int].pos == (Pos { x: x as int as usize, y: y as int as usize }));
            }
            return true;
        }
        k = k + 1;
    }
    false
}

/// Pushes `n` copies of a cell made by `make`.
fn push_spaces_n(row: &mut Vec<Cell>, n: usize, face: Face)
    ensures
        cell_views(final(row)@) == cell_views(old(row)@) + repeat_cell(space_cell(face), n as int),
{
    let ghost r0 = cell_views(row@);
    let mut k: usize = 0;
    proof {
        assert(cell_views(row@) =~= r0 + repeat_cell(space_cell(face), 0));
    }
    while k < n
        invariant
            k <= n,
            cell_views(row@) == r0 + repeat_cell(space_cell(face), k as int),
        decreases n - k,
    {
        let ghost before = cell_views(row@);
        row.push(Cell::space(face));
        proof {
            assert(cell_views(row@) =~= before.push(space_cell(face)));
            assert(cell_views(row@) =~= r0 + repeat_cell(space_cell(face), k + 1));
        }
        k = k + 1;
    }
}

/// Pushes `n` trailing cells.
fn push_trailing_n(row: &mut Vec<Cell>, n: usize, face: Face)
    ensures
        cell_views(final(row)@) == cell_views(old(row)@) + repeat_cell(trailing_cell(face), n as int),
{
    let ghost r0 = cell_views(row@);
    let mut k: usize = 0;
    proof {
        assert(cell_views(row@) =~= r0 + repeat_cell(trailing_cell(face), 0));
    }
    while k < n
        invariant
            k <= n,
            cell_views(row@) == r0 + repeat_cell(trailing_cell(face), k as int),
        decreases n - k,
    {
        let ghost before = cell_views(row@);
        row.push(Cell::trailing(face));
        proof {
            assert(cell_views(row@) =~= before.push(trailing_cell(face)));
            assert(cell_views(row@) =~= r0 + repeat_cell(trailing_cell(face), k + 1));
        }
        k = k + 1;
    }
}

/// The row of a line of the document at line `doc_y`, scrolled by
/// `scroll_x`, in a row `vw` columns wide.
pub fn buffer_row(line: &String, cursors: &Vec<GridCursor>, doc_y: usize, scroll_x: usize, tab_width: usize, vw: usize) -> (r: Vec<Cell>)
    requires
        buffer_row_fits(line@, cursors@, doc_y as int, scroll_x as int, tab_width as int, vw as int),
    ensures
        cell_views(r@) == buffer_row_spec(line@, cursors@, doc_y as int, scroll_x as int, tab_width as int, vw as int),
{
    let gs = graphemes(line.as_str());
    let ghost gv = grapheme_clusters(line@);
    let ghost fin = draw_fold(gv, cursors@, doc_y as int, scroll_x as int, tab_width as int, vw as int);
    let mut row: Vec<Cell> = Vec::new();
    let mut vx: usize = 0;
    let mut stopped = false;
    let mut i: usize = 0;
    proof {
        assert(gv.take(0) =~= Seq::<Seq<char>>::empty());
        assert(cell_views(row@) =~= Seq::<CellView>::empty());
        lemma_draw_fold_grows(gv, gv.len() as int, cursors@, doc_y as int, scroll_x as int, tab_width as int, vw as int);
        assert(gv.take(gv.len() as int) == gv);
    }
    while i < gs.len()
        invariant
            i <= gs@.len(),
            string_views(gs@) == gv,
            tab_width > 0,
            fin == draw_fold(gv, cursors@, doc_y as int, scroll_x as int, tab_width as int, vw as int),
            fin.visual_x + vw <= usize::MAX,
            draw_fold(gv.take(i as int), cursors@, doc_y as int, scroll_x as int, tab_width as int, vw as int) == (LineDraw {
                cells: cell_views(row@),
                visual_x: vx as int,
                stopped,
            }),
        decreases gs@.len() - i,
    {
        let ghost st = LineDraw { cells: cell_views(row@), visual_x: vx as int, stopped };
        let ghost g = gv[i as int];
        proof {
            lemma_draw_fold_grows(gv, i + 1, cursors@, doc_y as int, scroll_x as int, tab_width as int, vw as int);
            assert(gv.take(i + 1).drop_last() == gv.take(i as int));
            assert(gv.take(i + 1).last() == g);
            assert(gs@[i as int]@ == g);
            lemma_draw_step_grows(st, g, cursors@, doc_y as int, scroll_x as int, tab_width as int, vw as int);
            assert(cell_views(row@).len() == row@.len());
        }
        let gr = &gs[i];
        let x = row.len();
        if stopped || x >= vw {
            stopped = true;
        } else {
            let w = if crate::layout::is_tab(gr) {
                tab_width - vx % tab_width
            } else if crate::layout::is_newline(gr) {
                0
            } else {
                width(gr.as_str())
            };
            if w != 0 {
                let start = vx;
                vx = vx + w;
                let mut face = Face::plain();
                if cursor_here(cursors, start, doc_y) {
                    face.reverse = Some(true);
                }
                if vx <= scroll_x {
                } else if crate::layout::is_tab(gr) {
                    let from = if scroll_x > start {
                        scroll_x
                    } else {
                        start
                    };
                    let visible = vx - from;
                    let n = if visible < vw - x {
                        visible
                    } else {
                        vw - x
                    };
                    push_spaces_n(&mut row, n, face);
                } else if start < scroll_x {
                    push_spaces_n(&mut row, 1, face);
                    proof {
                        assert(repeat_cell(space_cell(face), 1) =~= seq![space_cell(face)]);
                    }
                } else if w > vw - x {
                    push_spaces_n(&mut row, vw - x, face);
                    stopped = true;
                } else {
                    row.push(Cell::new(gr.clone(), w, face));
                    let n = if w - 1 < vw - x - 1 {
                        w - 1
                    } else {
                        vw - x - 1
                    };
                    push_trailing_n(&mut row, n, face);
                }
            }
        }
        proof {
            assert(cell_views(row@) =~= draw_step(st, g, cursors@, doc_y as int, scroll_x as int, tab_width as int, vw as int).cells);
        }
        i = i + 1;
    }
    proof {
        assert(gv.take(gs@.len() as int) == gv);
        assert(cell_views(row@).len() == row@.len());
    }
    let ghost drawn = cell_views(row@);
    let mut x = row.len();
    let mut k: usize = 0;
    while x < vw
        invariant
            drawn.len() <= x <= vw || (x == drawn.len() && x >= vw),
            x == drawn.len() + k,
            vx as int == fin.visual_x,
            fin.visual_x + vw <= usize::MAX,
            cell_views(row@) == drawn + Seq::new(k as nat, |j: int| space_cell(grid_face(cursors@, vx + j, doc_y as int))),
        decreases vw - x,
    {
        let mut face = Face::plain();
        if cursor_here(cursors, vx + k, doc_y) {
            face.reverse = Some(true);
        }
        let ghost before = cell_views(row@);
        row.push(Cell::space(face));
        proof {
            assert(cell_views(row@) =~= before.push(space_cell(grid_face(cursors@, vx + k, doc_y as int))));
            assert(cell_views(row@) =~= drawn + Seq::new((k + 1) as nat, |j: int| space_cell(grid_face(cursors@, vx + j, doc_y as int))));
        }
        x = x + 1;
        k = k + 1;
    }
    proof {
        assert(k == (if vw > drawn.len() { vw - drawn.len() } else { 0 }));
    }
    row
}

/// Whether a line can be drawn within `usize`: what `buffer_row` needs.
pub fn buffer_row_fits_check(line: &String, cursors: &Vec<GridCursor>, doc_y: usize, scroll_x: usize, tab_width: usize, vw: usize) -> (b: bool)
    ensures
        b == buffer_row_fits(line@, cursors@, doc_y as int, scroll_x as int, tab_width as int, vw as int),
{
    if tab_width == 0 {
        return false;
    }
    let gs = graphemes(line.as_str());
    let ghost gv = grapheme_clusters(line@);
    let ghost cs = cursors@;
    let ghost y = doc_y as int;
    let ghost sx = scroll_x as int;
    let ghost tab = tab_width as int;
    let ghost wv = vw as int;
    let ghost fin = draw_fold(gv, cs, y, sx, tab, wv);
    let mut x: usize = 0;
    let mut vx: usize = 0;
    let mut stopped = false;
    let mut i: usize = 0;
    proof {
        assert(gv.take(0) =~= Seq::<Seq<char>>::empty());
    }
    while i < gs.len()
        invariant
            i <= gs@.len(),
            string_views(gs@) == gv,
            gv == grapheme_clusters(line@),
            cs == cursors@,
            y == doc_y as int,
            sx == scroll_x as int,
            tab == tab_width as int,
            wv == vw as int,
            tab_width > 0,
            fin == draw_fold(gv, cs, y, sx, tab, wv),
            draw_fold(gv.take(i as int), cs, y, sx, tab, wv).cells.len() == x,
            draw_fold(gv.take(i as int), cs, y, sx, tab, wv).visual_x == vx,
            draw_fold(gv.take(i as int), cs, y, sx, tab, wv).stopped == stopped,
        decreases gs@.len() - i,
    {
        let ghost st = draw_fold(gv.take(i as int), cs, y, sx, tab, wv);
        let ghost g = gv[i as int];
        proof {
            lemma_draw_fold_grows(gv, i + 1, cs, y, sx, tab, wv);
            assert(gv.take(i + 1).drop_last() == gv.take(i as int));
            assert(gv.take(i + 1).last() == g);
            assert(gs@[i as int]@ == g);
            assert(draw_fold(gv.take(i + 1), cs, y, sx, tab, wv) == draw_step(st, g, cs, y, sx, tab, wv));
        }
        let gr = &gs[i];
        if stopped || x >= vw {
            stopped = true;
        } else {
            let w = if crate::layout::is_tab(gr) {
                tab_width - vx % tab_width
            } else if crate::layout::is_newline(gr) {
                0
            } else {
                width(gr.as_str())
            };
            if w != 0 {
                if vx > usize::MAX - w {
                    proof {
                        assert(draw_step(st, g, cs, y, sx, tab, wv).visual_x == vx + w);
                    }
                    return false;
                }
                let start = vx;
                vx = vx + w;
                if vx <= scroll_x {
                } else if crate::layout::is_tab(gr) {
                    let from = if scroll_x > start {
                        scroll_x
                    } else {
                        start
                    };
                    let visible = vx - from;
                    let n = if visible < vw - x {
                        visible
                    } else {
                        vw - x
                    };
                    x = x + n;
                } else if start < scroll_x {
                    x = x + 1;
                } else if w > vw - x {
                    x = vw;
                    stopped = true;
                } else {
                    let n = if w - 1 < vw - x - 1 {
                        w - 1
                    } else {
                        vw - x - 1
                    };
                    x = x + 1 + n;
                }
            }
        }
        i = i + 1;
    }
    proof {
        assert(gv.take(gs@.len() as int) == gv);
    }
    vx <= usize::MAX - vw
}

/// Whether each fetched line, as many as `vh` rows show, can be drawn
/// within `usize`: what `BufferRenderer::render` needs of them.
pub fn check_buffer_rows(lines: Option<&Vec<String>>, cursors: &Vec<GridCursor>, scroll: Pos, tab_width: usize, vw: usize, vh: usize) -> (b: bool)
    ensures
        b == match lines {
            Some(ls) => buffer_rows_fit(string_views(ls@), cursors@, scroll, tab_width as int, vw as int, vh as int),
            None => true,
        },
{
    let ls = match lines {
        None => {
            return true;
        },
        Some(ls) => ls,
    };
    let ghost lv = string_views(ls@);
    if scroll.y > usize::MAX - vh {
        return false;
    }
    let mut k: usize = 0;
    while k < ls.len() && k < vh
        invariant
            k <= ls@.len(),
            lv == string_views(ls@),
            lines == Some(ls),
            scroll.y + vh <= usize::MAX,
            forall|j: int|
                0 <= j < k ==> #[trigger] buffer_row_fits(lv[j], cursors@, j + scroll.y, scroll.x as int, tab_width as int, vw as int),
        decreases ls@.len() - k,
    {
        proof {
            assert(lv[k as int] == ls@[k as int]@);
        }
        if !buffer_row_fits_check(&ls[k], cursors, k + scroll.y, scroll.x, tab_width, vw) {
            proof {
                assert(!buffer_row_fits(lv[k as int], cursors@, k + scroll.y, scroll.x as int, tab_width as int, vw as int));
            }
            return false;
        }
        k = k + 1;
    }
    true
}

/// The rows a buffer view shows in a viewport `vw` by `vh`: one per fetched
/// line, then blank rows; all blank while nothing is fetched.
pub open spec fn buffer_rows_spec(
    lines: Option<Seq<Seq<char>>>,
    cs: Seq<GridCursor>,
    scroll: Pos,
    tab: int,
    vw: int,
    vh: int,
) -> Seq<Seq<CellView>> {
    Seq::new(
        vh as nat,
        |y: int|
            match lines {
                Some(ls) => if y < ls.len() {
                    buffer_row_spec(ls[y], cs, y + scroll.y, scroll.x as int, tab, vw)
                } else {
                    Seq::new(vw as nat, |x: int| space_cell(plain_face()))
                },
                None => Seq::new(vw as nat, |x: int| blank_cell()),
            },
    )
}

/// Whether each fetched line can be drawn within `usize`.
pub open spec fn buffer_rows_fit(lines: Seq<Seq<char>>, cs: Seq<GridCursor>, scroll: Pos, tab: int, vw: int, vh: int) -> bool {
    &&& scroll.y + vh <= usize::MAX
    &&& forall|y: int| 0 <= y < lines.len() && y < vh ==> #[trigger] buffer_row_fits(lines[y], cs, y + scroll.y, scroll.x as int, tab, vw)
}

/// A row of `width` spaces.
fn space_row(width: usize) -> (r: Vec<Cell>)
    ensures
        cell_views(r@) == Seq::new(width as nat, |x: int| space_cell(plain_face())),
        cell_views(r@) == Seq::new(width as nat, |x: int| blank_cell()),
{
    let mut r: Vec<Cell> = Vec::new();
    push_spaces_n(&mut r, width, Face::plain());
    proof {
        assert(cell_views(r@) =~= Seq::new(width as nat, |x: int| space_cell(plain_face())));
        assert(cell_views(r@) =~= Seq::new(width as nat, |x: int| blank_cell()));
    }
    r
}

impl BufferRenderer {
    /// Draws the fetched lines of the view: each line scrolled by `scroll`,
    /// tabs to their tab stops, cursors reversed, blank rows below the
    /// lines; all blank while nothing is fetched.
    pub fn render(
        &self,
        viewport: &mut Viewport,
        lines: Option<&Vec<String>>,
        cursors: &Vec<GridCursor>,
        scroll: Pos,
        tab_width: usize,
    )
        requires
            old(viewport).wf(),
            match lines {
                Some(ls) => buffer_rows_fit(string_views(ls@), cursors@, scroll, tab_width as int, old(viewport).rect().width as int, old(viewport).rect().height as int),
                None => true,
            },
        ensures
            final(viewport).wf(),
            final(viewport).rect() == old(viewport).rect(),
            *final(final(viewport).data) == *final(old(viewport).data),
            final(viewport).screen() == drawn(
                old(viewport).screen(),
                old(viewport).rect(),
                Pos { x: 0, y: 0 },
                buffer_rows_spec(
                    match lines {
                        Some(ls) => Some(string_views(ls@)),
                        None => None,
                    },
                    cursors@,
                    scroll,
                    tab_width as int,
                    old(viewport).rect().width as int,
                    old(viewport).rect().height as int,
                ),
            ),
            within_width(old(viewport).rect(), old(viewport).screen().width) ==> shows_rows(
                old(viewport).rect(),
                final(viewport).screen(),
                Pos { x: 0, y: 0 },
                buffer_rows_spec(
                    match lines {
                        Some(ls) => Some(string_views(ls@)),
                        None => None,
                    },
                    cursors@,
                    scroll,
                    tab_width as int,
                    old(viewport).rect().width as int,
                    old(viewport).rect().height as int,
                ),
            ),
    {
        let vw = viewport.width();
        let vh = viewport.height();
        let ghost lv = match lines {
            Some(ls) => Some(string_views(ls@)),
            None => None,
        };
        let ghost spec_rows = buffer_rows_spec(lv, cursors@, scroll, tab_width as int, vw as int, vh as int);
        let mut rows: Vec<Vec<Cell>> = Vec::new();
        let mut y: usize = 0;
        while y < vh
            invariant
                y <= vh,
                lv == (match lines {
                    Some(ls) => Some(string_views(ls@)),
                    None => None,
                }),
                match lines {
                    Some(ls) => buffer_rows_fit(string_views(ls@), cursors@, scroll, tab_width as int, vw as int, vh as int),
                    None => true,
                },
                spec_rows == buffer_rows_spec(lv, cursors@, scroll, tab_width as int, vw as int, vh as int),
                rows_view(rows@) == spec_rows.take(y as int),
                rows@.len() == y,
                forall|k: int| 0 <= k < rows@.len() ==> #[trigger] rows@[k]@.len() == vw,
            decreases vh - y,
        {
            let row = match lines {
                Some(ls) => if y < ls.len() {
                    proof {
                        assert(string_views(ls@)[y as int] == ls@[y as int]@);
                        assert(buffer_row_fits(string_views(ls@)[y as int], cursors@, y + scroll.y, scroll.x as int, tab_width as int, vw as int));
                    }
                    buffer_row(&ls[y], cursors, y + scroll.y, scroll.x, tab_width, vw)
                } else {
                    space_row(vw)
                },
                None => space_row(vw),
            };
            proof {
                assert(cell_views(row@).len() == row@.len());
                assert(spec_rows[y as int] == cell_views(row@));
                if lines.is_some() && y < lines.unwrap()@.len() {
                    let d = draw_fold(grapheme_clusters(lines.unwrap()@[y as int]@), cursors@, y + scroll.y, scroll.x as int, tab_width as int, vw as int);
                    lemma_draw_fold_len(grapheme_clusters(lines.unwrap()@[y as int]@), cursors@, y + scroll.y, scroll.x as int, tab_width as int, vw as int);
                }
            }
            let ghost rows0 = rows@;
            rows.push(row);
            proof {
                assert(rows_view(rows@) =~= rows_view(rows0).push(spec_rows[y as int]));
                assert(rows_view(rows@) =~= spec_rows.take(y + 1));
            }
            y = y + 1;
        }
        proof {
            assert(spec_rows.take(vh as int) == spec_rows);
        }
        viewport.draw_rows(Pos::new(0, 0), &rows);
    }
}

/// A line never draws more cells than its row has.
pub proof fn lemma_draw_fold_len(gs: Seq<Seq<char>>, cs: Seq<GridCursor>, y: int, scroll_x: int, tab: int, vw: int)
    requires
        vw >= 0,
    ensures
        draw_fold(gs, cs, y, scroll_x, tab, vw).cells.len() <= vw,
    decreases gs.len(),
{
    if gs.len() > 0 {
        lemma_draw_fold_len(gs.drop_last(), cs, y, scroll_x, tab, vw);
    }
}

/// The columns a cursor may stand at on line `y`: those of the line's
/// mappings, or just column 0.
pub open spec fn stops(t: Seq<u8>, y: int, tab: int, decs: Seq<Span<Decoration>>) -> Seq<int> {
    let v = line_vom(t, y, tab, decs);
    if v.len() == 0 {
        seq![0]
    } else {
        v.map_values(|m: (int, int)| m.0)
    }
}

/// The last stop at or left of `x` (`strict`: left of `x`), or 0.
pub open spec fn stop_before(s: Seq<int>, x: int, strict: bool) -> int
    decreases s.len(),
{
    if s.len() == 0 {
        0
    } else if (strict && s.last() < x) || (!strict && s.last() <= x) {
        s.last()
    } else {
        stop_before(s.drop_last(), x, strict)
    }
}

/// The first stop right of `x`, if any.
pub open spec fn stop_after(s: Seq<int>, x: int) -> Option<int>
    decreases s.len(),
{
    if s.len() == 0 {
        None
    } else if s[0] > x {
        Some(s[0])
    } else {
        stop_after(s.drop_first(), x)
    }
}

/// Where a grid cursor goes when it moves one step: up and down change the
/// line (not past the first or last) and take the last stop at or left of
/// the preferred column; left takes the last stop left of the cursor, right
/// the first stop right of it, both then preferring the new column.
pub open spec fn grid_moved(t: Seq<u8>, tab: int, decs: Seq<Span<Decoration>>, c: GridCursor, dir: Direction) -> GridCursor {
    let y = c.pos.y as int;
    match dir {
        Direction::Up => {
            let ny = if y > 0 { y - 1 } else { 0 };
            GridCursor {
                pos: Pos { x: stop_before(stops(t, ny, tab, decs), c.pref_x as int, false) as usize, y: ny as usize },
                pref_x: c.pref_x,
            }
        },
        Direction::Down => {
            let ny = if y < num_lines(t) - 1 { y + 1 } else { y };
            GridCursor {
                pos: Pos { x: stop_before(stops(t, ny, tab, decs), c.pref_x as int, false) as usize, y: ny as usize },
                pref_x: c.pref_x,
            }
        },
        Direction::Left => {
            let x = stop_before(stops(t, y, tab, decs), c.pos.x as int, true);
            GridCursor { pos: Pos { x: x as usize, y: c.pos.y }, pref_x: x as usize }
        },
        Direction::Right => match stop_after(stops(t, y, tab, decs), c.pos.x as int) {
            Some(x) => GridCursor { pos: Pos { x: x as usize, y: c.pos.y }, pref_x: x as usize },
            None => c,
        },
    }
}

/// The stops of line `y`.
fn line_stops(table: &PieceTable, y: usize, tab_width: usize, decs: &[Span<Decoration>]) -> (r: Vec<usize>)
    requires
        table.wf(),
        layout_ok(table.text(), tab_width as int, decs@),
        y < num_lines(table.text()),
    ensures
        r@.map_values(|x: usize| x as int) == stops(table.text(), y as int, tab_width as int, decs@),
{
    let line = line_text(table, y);
    let start = table.get_line_start_byte(y);
    proof {
        assert(vom_fits(line_chars(table.text(), y as int), line_start(table.text(), y as int), tab_width as int, decs@));
    }
    let (vom, _) = layout_vom(line.as_str(), start, tab_width, decs);
    let mut r: Vec<usize> = Vec::new();
    if vom.len() == 0 {
        r.push(0);
        proof {
            assert(r@.map_values(|x: usize| x as int) =~= seq![0int]);
        }
        return r;
    }
    let ghost m = mapping_pairs(vom@);
    let mut k: usize = 0;
    while k < vom.len()
        invariant
            k <= vom@.len(),
            m == mapping_pairs(vom@),
            r@.map_values(|x: usize| x as int) == m.take(k as int).map_values(|p: (int, int)| p.0),
        decreases vom@.len() - k,
    {
        let ghost r0 = r@;
        r.push(vom[k].visual_x);
        proof {
            assert(m[k as int].0 == vom@[k as int].visual_x as int);
            assert(m.take(k + 1) =~= m.take(k as int).push(m[k as int]));
            assert(r@.map_values(|x: usize| x as int) =~= r0.map_values(|x: usize| x as int).push(m[k as int].0));
            assert(r@.map_values(|x: usize| x as int) =~= m.take(k + 1).map_values(|p: (int, int)| p.0));
        }
        k = k + 1;
    }
    proof {
        assert(m.take(vom@.len() as int) == m);
    }
    r
}

/// The last stop at or left of `x` (`strict`: left of `x`), or 0.
fn find_stop_before(s: &Vec<usize>, x: usize, strict: bool) -> (r: usize)
    ensures
        r as int == stop_before(s@.map_values(|v: usize| v as int), x as int, strict),
{
    let ghost sv = s@.map_values(|v: usize| v as int);
    let mut k = s.len();
    proof {
        assert(sv.take(k as int) == sv);
    }
    while k > 0
        invariant
            k <= s@.len(),
            sv == s@.map_values(|v: usize| v as int),
            stop_before(sv, x as int, strict) == stop_before(sv.take(k as int), x as int, strict),
        decreases k,
    {
        proof {
            assert(sv.take(k as int).drop_last() == sv.take(k - 1));
            assert(sv.take(k as int).last() == s@[k - 1] as int);
        }
        if (strict && s[k - 1] < x) || (!strict && s[k - 1] <= x) {
            return s[k - 1];
        }
        k = k - 1;
    }
    proof {
        assert(sv.take(0) =~= Seq::<int>::empty());
    }
    0
}

/// The first stop right of `x`, if any.
fn find_stop_after(s: &Vec<usize>, x: usize) -> (r: Option<usize>)
    ensures
        match stop_after(s@.map_values(|v: usize| v as int), x as int) {
            Some(v) => r == Some(v as usize) && 0 <= v <= usize::MAX,
            None => r is None,
        },
{
    let ghost sv = s@.map_values(|v: usize| v as int);
    let mut k: usize = 0;
    proof {
        assert(sv.skip(0) == sv);
    }
    while k < s.len()
        invariant
            k <= s@.len(),
            sv == s@.map_values(|v: usize| v as int),
            stop_after(sv, x as int) == stop_after(sv.skip(k as int), x as int),
        decreases s@.len() - k,
    {
        proof {
            assert(sv.skip(k as int).drop_first() == sv.skip(k + 1));
            assert(sv.skip(k as int)[0] == s@[k as int] as int);
        }
        if s[k] > x {
            return Some(s[k]);
        }
        k = k + 1;
    }
    proof {
        assert(sv.skip(k as int) =~= Seq::<int>::empty());
    }
    None
}

/// Moves one grid cursor one step.
pub fn move_grid_cursor(table: &PieceTable, tab_width: usize, decs: &[Span<Decoration>], c: GridCursor, dir: Direction) -> (r: GridCursor)
    requires
        table.wf(),
        layout_ok(table.text(), tab_width as int, decs@),
        c.pos.y < num_lines(table.text()),
    ensures
        r == grid_moved(table.text(), tab_width as int, decs@, c, dir),
{
    let lines = table.lines();
    match dir {
        Direction::Up => {
            let ny = c.pos.y.saturating_sub(1);
            let s = line_stops(table, ny, tab_width, decs);
            GridCursor { pos: Pos::new(find_stop_before(&s, c.pref_x, false), ny), pref_x: c.pref_x }
        },
        Direction::Down => {
            let ny = if c.pos.y < lines - 1 {
                c.pos.y + 1
            } else {
                c.pos.y
            };
            let s = line_stops(table, ny, tab_width, decs);
            GridCursor { pos: Pos::new(find_stop_before(&s, c.pref_x, false), ny), pref_x: c.pref_x }
        },
        Direction::Left => {
            let s = line_stops(table, c.pos.y, tab_width, decs);
            let x = find_stop_before(&s, c.pos.x, true);
            GridCursor { pos: Pos::new(x, c.pos.y), pref_x: x }
        },
        Direction::Right => {
            let s = line_stops(table, c.pos.y, tab_width, decs);
            match find_stop_after(&s, c.pos.x) {
                Some(x) => GridCursor { pos: Pos::new(x, c.pos.y), pref_x: x },
                None => c,
            }
        },
    }
}

/// Moves each grid cursor of a view one step.
pub fn move_grid_cursors(table: &PieceTable, tab_width: usize, decs: &[Span<Decoration>], cursors: &mut Vec<GridCursor>, dir: Direction)
    requires
        table.wf(),
        layout_ok(table.text(), tab_width as int, decs@),
        forall|i: int| 0 <= i < old(cursors)@.len() ==> #[trigger] old(cursors)@[i].pos.y < num_lines(table.text()),
    ensures
        final(cursors)@ == old(cursors)@.map_values(|c: GridCursor| grid_moved(table.text(), tab_width as int, decs@, c, dir)),
{
    let ghost c0 = cursors@;
    let mut k: usize = 0;
    while k < cursors.len()
        invariant
            k <= cursors@.len(),
            cursors@.len() == c0.len(),
            table.wf(),
            layout_ok(table.text(), tab_width as int, decs@),
            forall|i: int| 0 <= i < c0.len() ==> #[trigger] c0[i].pos.y < num_lines(table.text()),
            forall|i: int| 0 <= i < k ==> cursors@[i] == grid_moved(table.text(), tab_width as int, decs@, #[trigger] c0[i], dir),
            forall|i: int| k <= i < c0.len() ==> #[trigger] cursors@[i] == c0[i],
            c0 == old(cursors)@,
        decreases c0.len() - k,
    {
        let c = move_grid_cursor(table, tab_width, decs, cursors[k], dir);
        cursors.set(k, c);
        k = k + 1;
    }
    proof {
        assert(cursors@ =~= c0.map_values(|c: GridCursor| grid_moved(table.text(), tab_width as int, decs@, c, dir)));
    }
}

/// Collapses a view's grid cursors into one at the stop at or left of `pos`
/// on its line (the last line for rows past the end).
pub fn move_grid_cursors_to(table: &PieceTable, tab_width: usize, decs: &[Span<Decoration>], cursors: &mut Vec<GridCursor>, pos: Pos)
    requires
        table.wf(),
        layout_ok(table.text(), tab_width as int, decs@),
        old(cursors)@.len() > 0,
    ensures
        ({
            let y = if (pos.y as int) < num_lines(table.text()) - 1 { pos.y as int } else { num_lines(table.text()) - 1 };
            let x = stop_before(stops(table.text(), y, tab_width as int, decs@), pos.x as int, false);
            final(cursors)@ == seq![GridCursor { pos: Pos { x: x as usize, y: y as usize }, pref_x: x as usize }]
        }),
{
    proof {
        crate::lines::lemma_line_starts_basic(table.text());
    }
    let lines = table.lines();
    let y = if pos.y < lines - 1 {
        pos.y
    } else {
        lines - 1
    };
    let s = line_stops(table, y, tab_width, decs);
    let x = find_stop_before(&s, pos.x, false);
    cursors.truncate(1);
    cursors.set(0, GridCursor { pos: Pos::new(x, y), pref_x: x });
    proof {
        assert(cursors@ =~= seq![GridCursor { pos: Pos { x: x, y: y }, pref_x: x }]);
    }
}

} // verus!
