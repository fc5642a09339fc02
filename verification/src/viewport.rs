use vstd::prelude::*;

use crate::cell::{cell_views, Cell, CellView};
use crate::screen::{grid_index, set_spec, Screen, ScreenView};
use crate::types::{Pos, Rect};

verus! {

/// A bounded proxy for the `Screen`, limited to a rectangle on it.
pub struct Viewport<'a> {
    pub data: &'a mut Screen,
    pub rect: Rect,
}

/// The screen position of the viewport position `pos`.
pub open spec fn screen_pos(rect: Rect, pos: Pos) -> Pos {
    Pos { x: (rect.pos.x + pos.x) as usize, y: (rect.pos.y + pos.y) as usize }
}

/// Whether the viewport position `pos` lies inside the rectangle.
pub open spec fn inside(rect: Rect, pos: Pos) -> bool {
    pos.x < rect.width && pos.y < rect.height
}

/// Whether every position of the rectangle has a screen position whose grid
/// index fits in `usize`.
pub open spec fn rect_fits(rect: Rect, width: nat) -> bool {
    &&& rect.pos.x + rect.width <= usize::MAX
    &&& rect.pos.y + rect.height <= usize::MAX
    &&& width * (rect.pos.y + rect.height) + rect.pos.x + rect.width <= usize::MAX
}


/// Whether the rectangle lies within the screen's width, so that distinct
/// positions in it fall on distinct cells of the grid.
pub open spec fn within_width(rect: Rect, width: nat) -> bool {
    rect.pos.x + rect.width <= width
}

/// The grid index of the viewport position `(x, y)`.
pub open spec fn cell_index(rect: Rect, width: nat, x: int, y: int) -> int {
    width * (rect.pos.y + y) + rect.pos.x + x
}

/// Distinct positions inside a rectangle within the screen's width have
/// distinct grid indices.
pub proof fn lemma_cell_index_injective(rect: Rect, width: nat, x1: int, y1: int, x2: int, y2: int)
    requires
        within_width(rect, width),
        0 <= x1 < rect.width,
        0 <= x2 < rect.width,
        0 <= y1,
        0 <= y2,
        x1 != x2 || y1 != y2,
    ensures
        cell_index(rect, width, x1, y1) != cell_index(rect, width, x2, y2),
{
    let a = rect.pos.y + y1;
    let b = rect.pos.y + y2;
    let c = rect.pos.x + x1;
    let d = rect.pos.x + x2;
    assert(0 <= c < width && 0 <= d < width);
    if a == b {
        assert(c != d);
    } else if a < b {
        assert(width * a + c < width * b + d) by (nonlinear_arith)
            requires
                a < b,
                0 <= c < width,
                0 <= d,
                0 <= a,
        ;
    } else {
        assert(width * b + d < width * a + c) by (nonlinear_arith)
            requires
                b < a,
                0 <= d < width,
                0 <= c,
                0 <= b,
        ;
    }
}

/// The screen after `c` is put at viewport position `pos` of the rectangle:
/// outside the rectangle nothing changes.
pub open spec fn vp_set(s: ScreenView, rect: Rect, pos: Pos, c: CellView) -> ScreenView {
    if inside(rect, pos) {
        set_spec(s, screen_pos(rect, pos), c)
    } else {
        s
    }
}

/// The screen after the first `k` cells of `row` are put, one after another,
/// at the viewport positions `(ox, y)`, `(ox + 1, y)`, ...
pub open spec fn draw_row_spec(s: ScreenView, rect: Rect, ox: int, y: int, row: Seq<CellView>, k: int) -> ScreenView
    decreases k,
{
    if k <= 0 {
        s
    } else {
        vp_set(
            draw_row_spec(s, rect, ox, y, row, k - 1),
            rect,
            Pos { x: (ox + k - 1) as usize, y: y as usize },
            row[k - 1],
        )
    }
}

/// The screen after the first `m` rows are drawn, row `j` from viewport
/// position `origin + (0, j)` on.
pub open spec fn draw_rows_upto(s: ScreenView, rect: Rect, origin: Pos, rows: Seq<Seq<CellView>>, m: int) -> ScreenView
    decreases m,
{
    if m <= 0 {
        s
    } else {
        draw_row_spec(
            draw_rows_upto(s, rect, origin, rows, m - 1),
            rect,
            origin.x as int,
            origin.y + m - 1,
            rows[m - 1],
            rows[m - 1].len() as int,
        )
    }
}

/// The screen after all rows are drawn from viewport position `origin` on,
/// in order: a later cell at the same grid index wins.
pub open spec fn drawn(s: ScreenView, rect: Rect, origin: Pos, rows: Seq<Seq<CellView>>) -> ScreenView {
    draw_rows_upto(s, rect, origin, rows, rows.len() as int)
}

/// Whether grid index `i` of a screen `width` wide lies outside the
/// rectangle: no position inside it has that index.
pub open spec fn outside(rect: Rect, width: nat, i: int) -> bool {
    forall|x: int, y: int| 0 <= x < rect.width && 0 <= y < rect.height ==> #[trigger] cell_index(rect, width, x, y) != i
}

proof fn lemma_row_keeps_outside(s: ScreenView, rect: Rect, ox: int, y: int, row: Seq<CellView>, k: int, i: int)
    requires
        rect.pos.x + rect.width <= usize::MAX,
        rect.pos.y + rect.height <= usize::MAX,
        0 <= ox,
        0 <= y <= usize::MAX,
        ox + k - 1 <= usize::MAX,
        outside(rect, s.width, i),
    ensures
        draw_row_spec(s, rect, ox, y, row, k).width == s.width,
        draw_row_spec(s, rect, ox, y, row, k).grid.len() == s.grid.len(),
        0 <= i < s.grid.len() ==> draw_row_spec(s, rect, ox, y, row, k).grid[i] == s.grid[i],
    decreases k,
{
    if k > 0 {
        lemma_row_keeps_outside(s, rect, ox, y, row, k - 1, i);
        let prev = draw_row_spec(s, rect, ox, y, row, k - 1);
        let p = Pos { x: (ox + k - 1) as usize, y: y as usize };
        if inside(rect, p) {
            assert(cell_index(rect, s.width, p.x as int, p.y as int) != i);
            assert(grid_index(prev.width, screen_pos(rect, p)) == cell_index(rect, s.width, p.x as int, p.y as int));
        }
    }
}

proof fn lemma_rows_keep_outside(s: ScreenView, rect: Rect, origin: Pos, rows: Seq<Seq<CellView>>, m: int, i: int)
    requires
        rect.pos.x + rect.width <= usize::MAX,
        rect.pos.y + rect.height <= usize::MAX,
        origin.y + rows.len() <= usize::MAX,
        forall|j: int| 0 <= j < rows.len() ==> origin.x + #[trigger] rows[j].len() <= usize::MAX,
        m <= rows.len(),
        outside(rect, s.width, i),
    ensures
        draw_rows_upto(s, rect, origin, rows, m).width == s.width,
        draw_rows_upto(s, rect, origin, rows, m).grid.len() == s.grid.len(),
        0 <= i < s.grid.len() ==> draw_rows_upto(s, rect, origin, rows, m).grid[i] == s.grid[i],
    decreases m,
{
    if m > 0 {
        lemma_rows_keep_outside(s, rect, origin, rows, m - 1, i);
        let prev = draw_rows_upto(s, rect, origin, rows, m - 1);
        lemma_row_keeps_outside(prev, rect, origin.x as int, origin.y + m - 1, rows[m - 1], rows[m - 1].len() as int, i);
    }
}

/// Drawing rows into a viewport leaves every cell of the screen outside its
/// rectangle as it was.
pub proof fn lemma_drawn_keeps_outside(s: ScreenView, rect: Rect, origin: Pos, rows: Seq<Seq<CellView>>, i: int)
    requires
        rect.pos.x + rect.width <= usize::MAX,
        rect.pos.y + rect.height <= usize::MAX,
        origin.y + rows.len() <= usize::MAX,
        forall|j: int| 0 <= j < rows.len() ==> origin.x + #[trigger] rows[j].len() <= usize::MAX,
        0 <= i < s.grid.len(),
        outside(rect, s.width, i),
    ensures
        drawn(s, rect, origin, rows).grid[i] == s.grid[i],
        drawn(s, rect, origin, rows).grid.len() == s.grid.len(),
{
    lemma_rows_keep_outside(s, rect, origin, rows, rows.len() as int, i);
}

/// The rows of cells, as their views.
pub open spec fn rows_view(rows: Seq<Vec<Cell>>) -> Seq<Seq<CellView>> {
    rows.map_values(|r: Vec<Cell>| cell_views(r@))
}

/// Whether the viewport's screen shows `rows[y][x]` at each viewport
/// position `origin + (x, y)` that lies inside the viewport.
pub open spec fn shows_rows(rect: Rect, s: ScreenView, origin: Pos, rows: Seq<Seq<CellView>>) -> bool {
    forall|y: int, x: int|
        0 <= y < rows.len() && 0 <= x < rows[y].len() && inside(
            rect,
            Pos { x: (origin.x + x) as usize, y: (origin.y + y) as usize },
        ) && cell_index(rect, s.width, origin.x + x, origin.y + y) < s.grid.len() ==> s.grid[cell_index(
            rect,
            s.width,
            origin.x + x,
            origin.y + y,
        )] == #[trigger] rows[y][x]
}

impl<'a> Viewport<'a> {
    /// The rectangle the viewport covers.
    pub closed spec fn rect(&self) -> Rect {
        self.rect
    }

    /// The screen the viewport draws on.
    pub closed spec fn screen(&self) -> ScreenView {
        self.data@
    }

    /// The screen is well formed, and the rectangle's positions stay within
    /// `usize` on it.
    pub closed spec fn wf(&self) -> bool {
        &&& self.data.wf()
        &&& rect_fits(self.rect, self.data@.width)
    }

    pub fn new(data: &'a mut Screen, rect: Rect) -> (v: Self)
        requires
            old(data).wf(),
            rect_fits(rect, old(data)@.width),
        ensures
            v.wf(),
            v.rect() == rect,
            v.screen() == old(data)@,
            *final(v.data) == *final(data),
    {
        Self { data, rect }
    }

    pub fn width(&self) -> (w: usize)
        ensures
            w == self.rect().width,
    {
        self.rect.width
    }

    pub fn height(&self) -> (h: usize)
        ensures
            h == self.rect().height,
    {
        self.rect.height
    }

    /// The cell at `pos` of the viewport; `None` outside the rectangle or off
    /// the screen's grid.
    pub fn get(&mut self, pos: Pos) -> (c: Option<&Cell>)
        requires
            old(self).wf(),
        ensures
            final(self).wf(),
            final(self).rect() == old(self).rect(),
            final(self).screen() == old(self).screen(),
            *final(final(self).data) == *final(old(self).data),
            match c {
                Some(c) => {
                    let idx = grid_index(old(self).screen().width, screen_pos(old(self).rect(), pos));
                    &&& inside(old(self).rect(), pos)
                    &&& idx < old(self).screen().grid.len()
                    &&& c@ == old(self).screen().grid[idx]
                },
                None => !inside(old(self).rect(), pos) || grid_index(
                    old(self).screen().width,
                    screen_pos(old(self).rect(), pos),
                ) >= old(self).screen().grid.len(),
            },
    {
        if pos.x >= self.rect.width || pos.y >= self.rect.height {
            return None;
        }
        let p = Pos::new(self.rect.pos.x + pos.x, self.rect.pos.y + pos.y);
        proof {
            assert(self.data@.width * p.y <= self.data@.width * (self.rect.pos.y + self.rect.height))
                by (nonlinear_arith)
                requires
                    p.y <= self.rect.pos.y + self.rect.height,
            ;
        }
        self.data.get(p)
    }

    /// Puts `cell` at `pos` of the viewport; nothing happens outside the
    /// rectangle.
    pub fn set(&mut self, pos: Pos, cell: Cell)
        requires
            old(self).wf(),
        ensures
            final(self).wf(),
            final(self).rect() == old(self).rect(),
            *final(final(self).data) == *final(old(self).data),
            final(self).screen() == vp_set(old(self).screen(), old(self).rect(), pos, cell@),
            ({
                let s = old(self).screen();
                let idx = grid_index(s.width, screen_pos(old(self).rect(), pos));
                if !inside(old(self).rect(), pos) || idx >= s.grid.len() || s.grid[idx] == cell@ {
                    final(self).screen() == s
                } else {
                    &&& final(self).screen().width == s.width
                    &&& final(self).screen().height == s.height
                    &&& final(self).screen().grid == s.grid.update(idx, cell@)
                    &&& final(self).screen().dirty == s.dirty.update(idx, true)
                }
            }),
    {
        if pos.x >= self.rect.width || pos.y >= self.rect.height {
            return;
        }
        let p = Pos::new(self.rect.pos.x + pos.x, self.rect.pos.y + pos.y);
        proof {
            assert(self.data@.width * p.y <= self.data@.width * (self.rect.pos.y + self.rect.height))
                by (nonlinear_arith)
                requires
                    p.y <= self.rect.pos.y + self.rect.height,
            ;
        }
        self.data.set(p, cell);
    }

    /// Draws each cell `rows[y][x]` at the viewport position `origin + (x, y)`;
    /// positions outside the viewport are left out.
    pub fn draw_rows(&mut self, origin: Pos, rows: &Vec<Vec<Cell>>)
        requires
            old(self).wf(),
            origin.y + rows@.len() <= usize::MAX,
            forall|y: int| 0 <= y < rows@.len() ==> origin.x + #[trigger] rows@[y]@.len() <= usize::MAX,
        ensures
            final(self).wf(),
            final(self).rect() == old(self).rect(),
            *final(final(self).data) == *final(old(self).data),
            final(self).screen().width == old(self).screen().width,
            final(self).screen().grid.len() == old(self).screen().grid.len(),
            final(self).screen() == drawn(old(self).screen(), old(self).rect(), origin, rows_view(rows@)),
            within_width(old(self).rect(), old(self).screen().width) ==> shows_rows(
                old(self).rect(),
                final(self).screen(),
                origin,
                rows_view(rows@),
            ),
    {
        let ghost rect = self.rect;
        let ghost w = self.screen().width;
        let ghost rv = rows_view(rows@);
        let ghost n = self.screen().grid.len();
        let ghost s0 = self.screen();
        let mut y: usize = 0;
        while y < rows.len()
            invariant
                self.wf(),
                self.rect() == rect,
                *final(self.data) == *final(old(self).data),
                self.screen().width == w,
                self.screen().grid.len() == n,
                rect == old(self).rect(),
                w == old(self).screen().width,
                rv == rows_view(rows@),
                y <= rows@.len(),
                origin.y + rows@.len() <= usize::MAX,
                forall|k: int| 0 <= k < rows@.len() ==> origin.x + #[trigger] rows@[k]@.len() <= usize::MAX,
                within_width(rect, w) ==> shows_rows(rect, self.screen(), origin, rv.take(y as int)),
                self.screen() == draw_rows_upto(s0, rect, origin, rv, y as int),
            decreases rows@.len() - y,
        {
            let row = &rows[y];
            let mut x: usize = 0;
            proof {
                assert(rv[y as int] == cell_views(row@));
            }
            while x < row.len()
                invariant
                    self.wf(),
                    self.rect() == rect,
                    *final(self.data) == *final(old(self).data),
                    self.screen().width == w,
                    self.screen().grid.len() == n,
                    rv == rows_view(rows@),
                    y < rows@.len(),
                    row@ == rows@[y as int]@,
                    x <= row@.len(),
                    origin.y + rows@.len() <= usize::MAX,
                    origin.x + row@.len() <= usize::MAX,
                    forall|k: int| 0 <= k < rows@.len() ==> origin.x + #[trigger] rows@[k]@.len() <= usize::MAX,
                    within_width(rect, w) ==> shows_rows(rect, self.screen(), origin, rv.take(y as int)),
                    self.screen() == draw_row_spec(
                        draw_rows_upto(s0, rect, origin, rv, y as int),
                        rect,
                        origin.x as int,
                        origin.y + y,
                        rv[y as int],
                        x as int,
                    ),
                    within_width(rect, w) ==> forall|x2: int| 0 <= x2 < x && inside(
                        rect,
                        Pos { x: (origin.x + x2) as usize, y: (origin.y + y) as usize },
                    ) && cell_index(rect, w, origin.x + x2, origin.y + y) < n ==> self.screen().grid[cell_index(
                        rect,
                        w,
                        origin.x + x2,
                        origin.y + y,
                    )] == #[trigger] rv[y as int][x2],
                decreases row@.len() - x,
            {
                let ghost before = self.screen();
                let p = Pos::new(origin.x + x, origin.y + y);
                let c = row[x].duplicate();
                self.set(p, c);
                proof {
                    if within_width(rect, w) {
                        let i_new = cell_index(rect, w, origin.x + x, origin.y + y);
                        if inside(rect, p) {
                            assert(grid_index(w, screen_pos(rect, p)) == i_new);
                        }
                        assert forall|y2: int, x2: int|
                            0 <= y2 < rv.take(y as int).len() && 0 <= x2 < rv.take(y as int)[y2].len() && inside(
                                rect,
                                Pos { x: (origin.x + x2) as usize, y: (origin.y + y2) as usize },
                            ) && cell_index(rect, w, origin.x + x2, origin.y + y2) < n implies self.screen().grid[cell_index(
                                rect,
                                w,
                                origin.x + x2,
                                origin.y + y2,
                            )] == #[trigger] rv.take(y as int)[y2][x2] by {
                            assert(before.grid[cell_index(rect, w, origin.x + x2, origin.y + y2)] == rv.take(y as int)[y2][x2]);
                            assert(rv.take(y as int)[y2] == cell_views(rows@[y2]@));
                            assert(origin.x + rows@[y2]@.len() <= usize::MAX);
                            if inside(rect, p) {
                                lemma_cell_index_injective(rect, w, origin.x + x2, origin.y + y2, origin.x + x, origin.y + y);
                            }
                        }
                        assert forall|x2: int| 0 <= x2 < x + 1 && inside(
                            rect,
                            Pos { x: (origin.x + x2) as usize, y: (origin.y + y) as usize },
                        ) && cell_index(rect, w, origin.x + x2, origin.y + y) < n implies self.screen().grid[cell_index(
                            rect,
                            w,
                            origin.x + x2,
                            origin.y + y,
                        )] == #[trigger] rv[y as int][x2] by {
                            if x2 < x {
                                if inside(rect, p) {
                                    lemma_cell_index_injective(rect, w, origin.x + x2, origin.y + y, origin.x + x, origin.y + y);
                                }
                            } else {
                                assert(rv[y as int][x2] == row@[x2]@);
                            }
                        }
                    }
                }
                x = x + 1;
            }
            proof {
                if within_width(rect, w) {
                    assert forall|y2: int, x2: int|
                        0 <= y2 < rv.take(y + 1).len() && 0 <= x2 < rv.take(y + 1)[y2].len() && inside(
                            rect,
                            Pos { x: (origin.x + x2) as usize, y: (origin.y + y2) as usize },
                        ) && cell_index(rect, w, origin.x + x2, origin.y + y2) < n implies self.screen().grid[cell_index(
                            rect,
                            w,
                            origin.x + x2,
                            origin.y + y2,
                        )] == #[trigger] rv.take(y + 1)[y2][x2] by {
                        if y2 < y {
                            assert(rv.take(y + 1)[y2] == rv.take(y as int)[y2]);
                        } else {
                            assert(rv.take(y + 1)[y2] == rv[y as int]);
                            assert(rv[y as int].len() == row@.len());
                        }
                    }
                }
            }
            y = y + 1;
        }
        proof {
            assert(rv.take(rows@.len() as int) == rv);
        }
    }
}

} // verus!
