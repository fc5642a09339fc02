use vstd::prelude::*;

use crate::action::has_offset;
use crate::cell::{blank_cell, cell_views, Cell, CellView};
use crate::layout::{
    cells_fits, cells_fits_check, cells_spec, layout_cells, layout_vom, mapping_pairs, vom_fits, vom_fits_check,
    vom_spec, VisualOffsetMapping,
};
use crate::state::{DocumentId, LocalViewData, ViewId};
use crate::types::{plain_face, Cursor, Decoration, Face, Pos, Span};
use crate::unicode::string_views;
use crate::viewport::{drawn, rows_view, shows_rows, within_width, Viewport};

verus! {

/// Renders the lines a view shows into its viewport.
pub struct ViewRenderer {
    pub doc: DocumentId,
    pub view: ViewId,
}

impl ViewRenderer {
    pub fn new(doc: DocumentId, view: ViewId) -> (r: Self)
        ensures
            r.doc == doc,
            r.view == view,
    {
        ViewRenderer { doc, view }
    }
}

/// `face` drawn reversed, as a cursor is.
pub open spec fn reversed(face: Face) -> Face {
    Face { reverse: Some(true), ..face }
}

/// A space of one column.
pub open spec fn space_cell(face: Face) -> CellView {
    CellView { ch: seq![' '], width: 1, face }
}

/// Whether a cursor stands at the column `vx`: some mapping of that column
/// is the offset of a cursor.
pub open spec fn cursor_at(vom: Seq<(int, int)>, cs: Seq<Cursor>, vx: int) -> bool {
    exists|k: int| 0 <= k < vom.len() && vom[k].0 == vx && #[trigger] has_offset(cs, vom[k].1 as usize)
}

/// The column of the line that the screen column `x` shows: lines scroll by
/// `scroll_x` columns, but never past their last cell.
pub open spec fn shown_column(n_cells: int, scroll_x: int, x: int) -> int {
    (if n_cells >= scroll_x { scroll_x } else { n_cells }) + x
}

/// The cell at screen column `x` of a line laid out in `cells`, scrolled by
/// `scroll_x` in a view `width` columns wide: the line's cell, reversed
/// under a cursor; a space where a wide grapheme is cut by either edge; a
/// space past the line's end, reversed under a cursor.
pub open spec fn view_cell(
    cells: Seq<CellView>,
    vom: Seq<(int, int)>,
    cs: Seq<Cursor>,
    scroll_x: int,
    width: int,
    x: int,
) -> CellView {
    let i = shown_column(cells.len() as int, scroll_x, x);
    if i < cells.len() {
        let c = cells[i];
        let face = if cursor_at(vom, cs, i) {
            reversed(c.face)
        } else {
            c.face
        };
        if (x == 0 && c.width == 0) || x + c.width > width {
            space_cell(face)
        } else {
            CellView { ch: c.ch, width: c.width, face }
        }
    } else {
        space_cell(
            if cursor_at(vom, cs, i) {
                reversed(plain_face())
            } else {
                plain_face()
            },
        )
    }
}

/// The row of a line laid out in `cells`.
pub open spec fn view_row_spec(cells: Seq<CellView>, vom: Seq<(int, int)>, cs: Seq<Cursor>, scroll_x: int, width: int) -> Seq<
    CellView,
> {
    Seq::new(width as nat, |x: int| view_cell(cells, vom, cs, scroll_x, width, x))
}

/// The byte at which line `k` of the lines a view shows starts.
pub open spec fn row_offset(lines: Seq<Seq<char>>, start: int, tab: int, decs: Seq<Span<Decoration>>, k: int) -> int
    decreases k,
{
    if k <= 0 || k > lines.len() {
        start
    } else {
        vom_spec(lines[k - 1], row_offset(lines, start, tab, decs, k - 1), tab, decs).offset
    }
}

/// Each shown line can be laid out without leaving `usize`.
pub open spec fn rows_fit(lines: Seq<Seq<char>>, start: int, tab: int, decs: Seq<Span<Decoration>>, height: int) -> bool {
    &&& tab > 0
    &&& forall|k: int|
        0 <= k < lines.len() && k < height ==> {
            &&& #[trigger] vom_fits(lines[k], row_offset(lines, start, tab, decs, k), tab, decs)
            &&& cells_fits(lines[k], row_offset(lines, start, tab, decs, k), tab, decs)
        }
}

/// The rows a view shows: one per line, then blank rows. With no lines
/// fetched yet, all blank.
pub open spec fn view_rows_spec(
    lines: Option<Seq<Seq<char>>>,
    start: int,
    cs: Seq<Cursor>,
    scroll_x: int,
    tab: int,
    decs: Seq<Span<Decoration>>,
    width: int,
    height: int,
) -> Seq<Seq<CellView>> {
    Seq::new(
        height as nat,
        |y: int|
            match lines {
                Some(ls) => if y < ls.len() {
                    let off = row_offset(ls, start, tab, decs, y);
                    view_row_spec(
                        cells_spec(ls[y], off, tab, decs),
                        vom_spec(ls[y], off, tab, decs).vom,
                        cs,
                        scroll_x,
                        width,
                    )
                } else {
                    Seq::new(width as nat, |x: int| space_cell(plain_face()))
                },
                None => Seq::new(width as nat, |x: int| blank_cell()),
            },
    )
}

/// The columns at which cursors stand on a line.
fn cursor_columns(vom: &Vec<VisualOffsetMapping>, cursors: &Vec<Cursor>) -> (xs: Vec<usize>)
    ensures
        forall|vx: int| #[trigger] xs@.contains(vx as usize) && 0 <= vx <= usize::MAX <==> cursor_at(mapping_pairs(vom@), cursors@, vx) && 0 <= vx <= usize::MAX,
        forall|i: int| 0 <= i < xs@.len() ==> cursor_at(mapping_pairs(vom@), cursors@, #[trigger] xs@[i] as int),
{
    let ghost m = mapping_pairs(vom@);
    let mut xs: Vec<usize> = Vec::new();
    let mut k: usize = 0;
    while k < vom.len()
        invariant
            k <= vom@.len(),
            m == mapping_pairs(vom@),
            forall|i: int| 0 <= i < xs@.len() ==> cursor_at(m, cursors@, #[trigger] xs@[i] as int),
            forall|j: int| 0 <= j < k && #[trigger] has_offset(cursors@, m[j].1 as usize) ==> xs@.contains(m[j].0 as usize),
        decreases vom@.len() - k,
    {
        let vo = vom[k];
        let mut hit = false;
        let mut c: usize = 0;
        while c < cursors.len()
            invariant
                c <= cursors@.len(),
                hit ==> has_offset(cursors@, vo.offset),
                !hit ==> forall|i: int| 0 <= i < c ==> cursors@[i].offset != vo.offset,
            decreases cursors@.len() - c,
        {
            if cursors[c].offset == vo.offset {
                hit = true;
            }
            c = c + 1;
        }
        proof {
            assert(m[k as int] == (vo.visual_x as int, vo.offset as int));
        }
        let ghost xs0 = xs@;
        if hit {
            xs.push(vo.visual_x);
            proof {
                assert(xs@.last() == vo.visual_x);
                assert(has_offset(cursors@, m[k as int].1 as usize));
            }
        }
        proof {
            assert forall|j: int| 0 <= j < k + 1 && #[trigger] has_offset(cursors@, m[j].1 as usize) implies xs@.contains(m[j].0 as usize) by {
                if j == k {
                    if !hit {
                        let i = choose|i: int| 0 <= i < cursors@.len() && #[trigger] cursors@[i].offset == m[j].1 as usize;
                    }
                    assert(xs@[xs@.len() - 1] == m[j].0 as usize);
                } else {
                    assert(xs0.contains(m[j].0 as usize));
                    let i = choose|i: int| 0 <= i < xs0.len() && xs0[i] == m[j].0 as usize;
                    assert(xs@[i] == xs0[i]);
                }
            }
        }
        k = k + 1;
    }
    proof {
        assert forall|vx: int| #[trigger] xs@.contains(vx as usize) && 0 <= vx <= usize::MAX <== cursor_at(m, cursors@, vx) && 0 <= vx <= usize::MAX by {
            if cursor_at(m, cursors@, vx) {
                let j = choose|j: int| 0 <= j < m.len() && m[j].0 == vx && #[trigger] has_offset(cursors@, m[j].1 as usize);
            }
        }
        assert forall|vx: int| #[trigger] xs@.contains(vx as usize) && 0 <= vx <= usize::MAX implies cursor_at(m, cursors@, vx) by {
            let i = choose|i: int| 0 <= i < xs@.len() && xs@[i] == vx as usize;
        }
    }
    xs
}

/// Whether `xs` holds `v`.
fn holds(xs: &Vec<usize>, v: usize) -> (r: bool)
    ensures
        r == xs@.contains(v),
{
    let mut k: usize = 0;
    while k < xs.len()
        invariant
            k <= xs@.len(),
            forall|i: int| 0 <= i < k ==> xs@[i] != v,
        decreases xs@.len() - k,
    {
        if xs[k] == v {
            return true;
        }
        k = k + 1;
    }
    false
}

/// The row of a line laid out in `cells`, scrolled by `scroll_x` in a view
/// `width` columns wide.
fn view_row(cells: &Vec<Cell>, vom: &Vec<VisualOffsetMapping>, cursors: &Vec<Cursor>, scroll_x: usize, width: usize) -> (r: Vec<Cell>)
    requires
        scroll_x + width <= usize::MAX,
    ensures
        cell_views(r@) == view_row_spec(cell_views(cells@), mapping_pairs(vom@), cursors@, scroll_x as int, width as int),
{
    let xs = cursor_columns(vom, cursors);
    let ghost cv = cell_views(cells@);
    let ghost m = mapping_pairs(vom@);
    let base = if cells.len() >= scroll_x {
        scroll_x
    } else {
        cells.len()
    };
    let mut r: Vec<Cell> = Vec::new();
    let mut x: usize = 0;
    while x < width
        invariant
            x <= width,
            base + width <= usize::MAX,
            base == (if cells@.len() >= scroll_x { scroll_x as int } else { cells@.len() as int }),
            cv == cell_views(cells@),
            m == mapping_pairs(vom@),
            forall|vx: int| #[trigger] xs@.contains(vx as usize) && 0 <= vx <= usize::MAX <==> cursor_at(m, cursors@, vx) && 0 <= vx <= usize::MAX,
            cell_views(r@) == Seq::new(x as nat, |j: int| view_cell(cv, m, cursors@, scroll_x as int, width as int, j)),
        decreases width - x,
    {
        let i = base + x;
        let under = holds(&xs, i);
        proof {
            assert(xs@.contains(i as usize) == cursor_at(m, cursors@, i as int));
        }
        let c = if i < cells.len() {
            let cell = &cells[i];
            let mut face = cell.face;
            if under {
                face.reverse = Some(true);
            }
            if (x == 0 && cell.width == 0) || cell.width > width - x {
                Cell::space(face)
            } else {
                Cell::new(cell.ch.clone(), cell.width, face)
            }
        } else {
            let mut face = Face::plain();
            if under {
                face.reverse = Some(true);
            }
            Cell::space(face)
        };
        let ghost before = cell_views(r@);
        let ghost cvw = c@;
        r.push(c);
        proof {
            assert(cvw == view_cell(cv, m, cursors@, scroll_x as int, width as int, x as int));
            assert(cell_views(r@) =~= before.push(cvw));
            assert(cell_views(r@) =~= Seq::new((x + 1) as nat, |j: int| view_cell(cv, m, cursors@, scroll_x as int, width as int, j)));
        }
        x = x + 1;
    }
    r
}

/// A row of `width` cells, each `c`.
fn filled_row(width: usize, blank: bool) -> (r: Vec<Cell>)
    ensures
        cell_views(r@) == Seq::new(width as nat, |x: int| if blank { blank_cell() } else { space_cell(plain_face()) }),
{
    let mut r: Vec<Cell> = Vec::new();
    let mut x: usize = 0;
    while x < width
        invariant
            x <= width,
            cell_views(r@) == Seq::new(x as nat, |j: int| if blank { blank_cell() } else { space_cell(plain_face()) }),
        decreases width - x,
    {
        let ghost before = cell_views(r@);
        let c = if blank {
            Cell::default()
        } else {
            Cell::space(Face::plain())
        };
        let ghost cv = c@;
        r.push(c);
        proof {
            assert(cell_views(r@) =~= before.push(cv));
            assert(cell_views(r@) =~= Seq::new((x + 1) as nat, |j: int| if blank { blank_cell() } else { space_cell(plain_face()) }));
        }
        x = x + 1;
    }
    r
}

/// The lines of the local view data as `char` sequences.
pub open spec fn shown_lines(lvd: Option<&LocalViewData>) -> Option<Seq<Seq<char>>> {
    match lvd {
        Some(l) => Some(string_views(l.lines@)),
        None => None,
    }
}

/// The start of the lines of the local view data.
pub open spec fn shown_start(lvd: Option<&LocalViewData>) -> int {
    match lvd {
        Some(l) => l.offset as int,
        None => 0,
    }
}

/// Whether the lines of the local view data, as many as `height` rows show,
/// can be laid out without leaving `usize`: what `render` needs of them.
pub fn check_rows(lvd: Option<&LocalViewData>, tab_width: usize, decs: &[Span<Decoration>], height: usize) -> (b: bool)
    ensures
        b == match shown_lines(lvd) {
            Some(ls) => rows_fit(ls, shown_start(lvd), tab_width as int, decs@, height as int),
            None => true,
        },
{
    let l = match lvd {
        None => {
            return true;
        },
        Some(l) => l,
    };
    let ghost ls = string_views(l.lines@);
    let ghost st = l.offset as int;
    let ghost tab = tab_width as int;
    if tab_width == 0 {
        return false;
    }
    let mut off = l.offset;
    let mut k: usize = 0;
    while k < l.lines.len() && k < height
        invariant
            k <= l.lines@.len(),
            ls == string_views(l.lines@),
            st == l.offset as int,
            shown_lines(lvd) == Some(ls),
            shown_start(lvd) == st,
            tab == tab_width as int,
            tab_width > 0,
            off as int == row_offset(ls, st, tab, decs@, k as int),
            forall|j: int|
                0 <= j < k ==> {
                    &&& #[trigger] vom_fits(ls[j], row_offset(ls, st, tab, decs@, j), tab, decs@)
                    &&& cells_fits(ls[j], row_offset(ls, st, tab, decs@, j), tab, decs@)
                },
        decreases l.lines@.len() - k,
    {
        let line = &l.lines[k];
        proof {
            assert(ls[k as int] == line@);
        }
        if !vom_fits_check(line.as_str(), off, tab_width, decs) || !cells_fits_check(line.as_str(), off, tab_width, decs) {
            proof {
                let o = row_offset(ls, st, tab, decs@, k as int);
                assert(!(vom_fits(ls[k as int], o, tab, decs@) && cells_fits(ls[k as int], o, tab, decs@)));
            }
            return false;
        }
        proof {
            assert forall|j: int| 0 <= j < k + 1 implies {
                &&& #[trigger] vom_fits(ls[j], row_offset(ls, st, tab, decs@, j), tab, decs@)
                &&& cells_fits(ls[j], row_offset(ls, st, tab, decs@, j), tab, decs@)
            } by {
                if j == k {
                    assert(ls[j] == line@);
                }
            }
        }
        let (_, next) = layout_vom(line.as_str(), off, tab_width, decs);
        off = next;
        k = k + 1;
    }
    true
}

/// The rows a view shows in a viewport `width` by `height`.
pub fn view_rows(
    lvd: Option<&LocalViewData>,
    cursors: &Vec<Cursor>,
    scroll_x: usize,
    tab_width: usize,
    decs: &[Span<Decoration>],
    width: usize,
    height: usize,
) -> (rows: Vec<Vec<Cell>>)
    requires
        scroll_x + width <= usize::MAX,
        match shown_lines(lvd) {
            Some(ls) => rows_fit(ls, shown_start(lvd), tab_width as int, decs@, height as int),
            None => true,
        },
    ensures
        rows_view(rows@) == view_rows_spec(
            shown_lines(lvd),
            shown_start(lvd),
            cursors@,
            scroll_x as int,
            tab_width as int,
            decs@,
            width as int,
            height as int,
        ),
        rows@.len() == height,
        forall|y: int| 0 <= y < rows@.len() ==> #[trigger] rows@[y]@.len() == width,
{
    let ghost spec_rows = view_rows_spec(
        shown_lines(lvd),
        shown_start(lvd),
        cursors@,
        scroll_x as int,
        tab_width as int,
        decs@,
        width as int,
        height as int,
    );
    let mut rows: Vec<Vec<Cell>> = Vec::new();
    let mut y: usize = 0;
    match lvd {
        None => {
            while y < height
                invariant
                    y <= height,
                    lvd.is_none(),
                    spec_rows == view_rows_spec(shown_lines(lvd), shown_start(lvd), cursors@, scroll_x as int, tab_width as int, decs@, width as int, height as int),
                    rows_view(rows@) == spec_rows.take(y as int),
                    forall|k: int| 0 <= k < rows@.len() ==> #[trigger] rows@[k]@.len() == width,
                decreases height - y,
            {
                let row = filled_row(width, true);
                proof {
                    assert(cell_views(row@).len() == row@.len());
                    assert(spec_rows[y as int] == cell_views(row@));
                }
                let ghost rows0 = rows@;
                proof {
                    assert(rows_view(rows0).len() == rows0.len());
                    assert(rows0.len() == y);
                }
                rows.push(row);
                proof {
                    assert(rows@[y as int]@.len() == width);
                    assert(rows_view(rows@) =~= rows_view(rows0).push(spec_rows[y as int]));
                    assert(rows_view(rows@) =~= spec_rows.take(y + 1));
                }
                y = y + 1;
            }
        },
        Some(l) => {
            let ghost ls = string_views(l.lines@);
            let mut offset = l.offset;
            while y < l.lines.len() && y < height
                invariant
                    y <= height,
                    y <= l.lines@.len(),
                    lvd == Some(l),
                    ls == string_views(l.lines@),
                    scroll_x + width <= usize::MAX,
                    tab_width > 0,
                    rows_fit(ls, l.offset as int, tab_width as int, decs@, height as int),
                    offset as int == row_offset(ls, l.offset as int, tab_width as int, decs@, y as int),
                    spec_rows == view_rows_spec(shown_lines(lvd), shown_start(lvd), cursors@, scroll_x as int, tab_width as int, decs@, width as int, height as int),
                    rows_view(rows@) == spec_rows.take(y as int),
                    forall|k: int| 0 <= k < rows@.len() ==> #[trigger] rows@[k]@.len() == width,
                decreases height - y,
            {
                let line = &l.lines[y];
                proof {
                    assert(ls[y as int] == line@);
                    assert(vom_fits(ls[y as int], row_offset(ls, l.offset as int, tab_width as int, decs@, y as int), tab_width as int, decs@));
                }
                let cells = layout_cells(line.as_str(), offset, tab_width, decs);
                let (vom, next) = layout_vom(line.as_str(), offset, tab_width, decs);
                let row = view_row(&cells, &vom, cursors, scroll_x, width);
                proof {
                    assert(cell_views(row@).len() == row@.len());
                    assert(spec_rows[y as int] == cell_views(row@));
                }
                let ghost rows0 = rows@;
                proof {
                    assert(rows_view(rows0).len() == rows0.len());
                    assert(rows0.len() == y);
                }
                rows.push(row);
                proof {
                    assert(rows@[y as int]@.len() == width);
                    assert(rows_view(rows@) =~= rows_view(rows0).push(spec_rows[y as int]));
                    assert(rows_view(rows@) =~= spec_rows.take(y + 1));
                }
                offset = next;
                y = y + 1;
            }
            while y < height
                invariant
                    y <= height,
                    lvd == Some(l),
                    ls == string_views(l.lines@),
                    y >= ls.len() || y >= height,
                    spec_rows == view_rows_spec(shown_lines(lvd), shown_start(lvd), cursors@, scroll_x as int, tab_width as int, decs@, width as int, height as int),
                    rows_view(rows@) == spec_rows.take(y as int),
                    forall|k: int| 0 <= k < rows@.len() ==> #[trigger] rows@[k]@.len() == width,
                decreases height - y,
            {
                let row = filled_row(width, false);
                proof {
                    assert(cell_views(row@).len() == row@.len());
                    assert(spec_rows[y as int] == cell_views(row@));
                }
                let ghost rows0 = rows@;
                proof {
                    assert(rows_view(rows0).len() == rows0.len());
                    assert(rows0.len() == y);
                }
                rows.push(row);
                proof {
                    assert(rows@[y as int]@.len() == width);
                    assert(rows_view(rows@) =~= rows_view(rows0).push(spec_rows[y as int]));
                    assert(rows_view(rows@) =~= spec_rows.take(y + 1));
                }
                y = y + 1;
            }
        },
    }
    proof {
        assert(spec_rows.take(height as int) == spec_rows);
    }
    rows
}

impl ViewRenderer {
    /// Draws the lines the view shows into the viewport: each line laid out
    /// with tabs and decorations and scrolled by `scroll.x`, the cursors
    /// reversed, blank rows below the lines; all blank while no lines are
    /// fetched.
    pub fn render(
        &self,
        viewport: &mut Viewport,
        lvd: Option<&LocalViewData>,
        cursors: &Vec<Cursor>,
        scroll: Pos,
        tab_width: usize,
        decs: &[Span<Decoration>],
    )
        requires
            old(viewport).wf(),
            scroll.x + old(viewport).rect().width <= usize::MAX,
            match shown_lines(lvd) {
                Some(ls) => rows_fit(ls, shown_start(lvd), tab_width as int, decs@, old(viewport).rect().height as int),
                None => true,
            },
        ensures
            final(viewport).wf(),
            final(viewport).rect() == old(viewport).rect(),
            *final(final(viewport).data) == *final(old(viewport).data),
            final(viewport).screen() == drawn(
                old(viewport).screen(),
                old(viewport).rect(),
                Pos { x: 0, y: 0 },
                view_rows_spec(
                    shown_lines(lvd),
                    shown_start(lvd),
                    cursors@,
                    scroll.x as int,
                    tab_width as int,
                    decs@,
                    old(viewport).rect().width as int,
                    old(viewport).rect().height as int,
                ),
            ),
            within_width(old(viewport).rect(), old(viewport).screen().width) ==> shows_rows(
                old(viewport).rect(),
                final(viewport).screen(),
                Pos { x: 0, y: 0 },
                view_rows_spec(
                    shown_lines(lvd),
                    shown_start(lvd),
                    cursors@,
                    scroll.x as int,
                    tab_width as int,
                    decs@,
                    old(viewport).rect().width as int,
                    old(viewport).rect().height as int,
                ),
            ),
    {
        let width = viewport.width();
        let height = viewport.height();
        let rows = view_rows(lvd, cursors, scroll.x, tab_width, decs, width, height);
        viewport.draw_rows(Pos::new(0, 0), &rows);
    }
}

} // verus!
