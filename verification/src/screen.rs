use vstd::prelude::*;

use crate::cell::{blank_cell, cell_views, Cell, CellView};
use crate::types::{plain_face, Face, Pos, Rect, Rgb};
use crate::unicode::{str_width, width};

verus! {

/// The terminal grid: `width * height` cells, row after row, and which of them
/// changed since they were last drawn.
pub struct Screen {
    width: usize,
    height: usize,
    grid: Vec<Cell>,
    /// `Cell`s that need to be redrawn.
    dirty: Vec<bool>,
}

/// The mathematical model of a `Screen`.
pub struct ScreenView {
    pub width: nat,
    pub height: nat,
    pub grid: Seq<CellView>,
    pub dirty: Seq<bool>,
}

impl View for Screen {
    type V = ScreenView;

    closed spec fn view(&self) -> ScreenView {
        ScreenView {
            width: self.width as nat,
            height: self.height as nat,
            grid: cell_views(self.grid@),
            dirty: self.dirty@,
        }
    }
}

/// The index of a position in the grid.
pub open spec fn grid_index(width: nat, pos: Pos) -> int {
    width * pos.y + pos.x
}

/// `s` resized to `n` entries: cut, or filled up with `fill`.
pub open spec fn resized<A>(s: Seq<A>, n: nat, fill: A) -> Seq<A> {
    if n <= s.len() {
        s.take(n as int)
    } else {
        s + Seq::new((n - s.len()) as nat, |i: int| fill)
    }
}


/// The screen after `c` is put at `pos`: off the grid, or where the same
/// cell already stands, nothing changes; else the cell is replaced and
/// marked to be drawn.
pub open spec fn set_spec(s: ScreenView, pos: Pos, c: CellView) -> ScreenView {
    let idx = grid_index(s.width, pos);
    if idx >= s.grid.len() || s.grid[idx] == c {
        s
    } else {
        ScreenView { width: s.width, height: s.height, grid: s.grid.update(idx, c), dirty: s.dirty.update(idx, true) }
    }
}

/// After a cell is put at a position on the grid, the grid holds it there,
/// every other cell is as it was, and the cell is drawn at the next frame
/// unless it was already there.
pub proof fn lemma_set_then_get(s: ScreenView, pos: Pos, c: CellView)
    requires
        s.grid.len() == s.dirty.len(),
    ensures
        ({
            let idx = grid_index(s.width, pos);
            let t = set_spec(s, pos, c);
            &&& 0 <= idx < s.grid.len() ==> t.grid[idx] == c
            &&& forall|i: int| 0 <= i < s.grid.len() && i != idx ==> #[trigger] t.grid[i] == s.grid[i]
            &&& 0 <= idx < s.grid.len() && s.grid[idx] != c ==> t.dirty[idx]
            &&& t.grid.len() == s.grid.len()
            &&& t.width == s.width
            &&& t.height == s.height
        }),
{
}

impl Screen {
    /// The grid holds one cell and one dirty flag per position.
    pub open spec fn wf(&self) -> bool {
        &&& self@.grid.len() == self@.width * self@.height
        &&& self@.dirty.len() == self@.grid.len()
    }

    /// A screen of blank cells, all to be drawn.
    pub fn new(width: usize, height: usize) -> (s: Self)
        requires
            width * height <= usize::MAX,
        ensures
            s.wf(),
            s@.width == width,
            s@.height == height,
            s@.grid == Seq::new((width * height) as nat, |i: int| blank_cell()),
            s@.dirty == Seq::new((width * height) as nat, |i: int| true),
    {
        let n = width * height;
        let mut grid: Vec<Cell> = Vec::new();
        let mut dirty: Vec<bool> = Vec::new();
        let mut i: usize = 0;
        while i < n
            invariant
                i <= n,
                cell_views(grid@) == Seq::new(i as nat, |k: int| blank_cell()),
                dirty@ == Seq::new(i as nat, |k: int| true),
            decreases n - i,
        {
            let ghost before = cell_views(grid@);
            grid.push(Cell::default());
            dirty.push(true);
            i = i + 1;
            proof {
                assert(cell_views(grid@) =~= before.push(blank_cell()));
                assert(cell_views(grid@) =~= Seq::new(i as nat, |k: int| blank_cell()));
                assert(dirty@ =~= Seq::new(i as nat, |k: int| true));
            }
        }
        Screen { width, height, grid, dirty }
    }

    pub fn width(&self) -> (w: usize)
        ensures
            w == self@.width,
    {
        self.width
    }

    pub fn height(&self) -> (h: usize)
        ensures
            h == self@.height,
    {
        self.height
    }

    /// Resizes the grid to `width * height` cells, keeping the cells that
    /// fit and filling up with blank ones. Every cell is drawn anew, since a
    /// new width breaks the mapping of rows to the grid. A resize to the same
    /// size changes nothing.
    pub fn resize(&mut self, width: usize, height: usize)
        requires
            old(self).wf(),
            width * height <= usize::MAX,
        ensures
            final(self).wf(),
            if old(self)@.width == width && old(self)@.height == height {
                final(self)@ == old(self)@
            } else {
                &&& final(self)@.width == width
                &&& final(self)@.height == height
                &&& final(self)@.grid == resized(old(self)@.grid, (width * height) as nat, blank_cell())
                &&& final(self)@.dirty == Seq::new((width * height) as nat, |i: int| true)
            },
    {
        if self.width == width && self.height == height {
            return;
        }
        self.width = width;
        self.height = height;
        let n = width * height;
        let ghost g0 = cell_views(self.grid@);
        if n <= self.grid.len() {
            self.grid.truncate(n);
            proof {
                assert(cell_views(self.grid@) =~= g0.take(n as int));
            }
        } else {
            let ghost m = g0.len();
            while self.grid.len() < n
                invariant
                    self.width == width,
                    self.height == height,
                    n == width * height,
                    m <= self.grid@.len() <= n,
                    m == g0.len(),
                    cell_views(self.grid@) == g0 + Seq::new((self.grid@.len() - m) as nat, |i: int| blank_cell()),
                decreases n - self.grid@.len(),
            {
                let ghost before = cell_views(self.grid@);
                self.grid.push(Cell::default());
                proof {
                    assert(cell_views(self.grid@) =~= before.push(blank_cell()));
                    assert(g0 + Seq::new((self.grid@.len() - m) as nat, |i: int| blank_cell()) =~= (g0
                        + Seq::new((self.grid@.len() - 1 - m) as nat, |i: int| blank_cell())).push(
                        blank_cell(),
                    ));
                }
            }
        }
        let mut dirty: Vec<bool> = Vec::new();
        let mut i: usize = 0;
        while i < n
            invariant
                i <= n,
                dirty@ == Seq::new(i as nat, |k: int| true),
            decreases n - i,
        {
            dirty.push(true);
            i = i + 1;
            proof {
                assert(dirty@ =~= Seq::new(i as nat, |k: int| true));
            }
        }
        self.dirty = dirty;
        proof {
            assert(self.grid@.len() == n);
            assert(self@.width == width && self@.height == height);
            assert(self@.width * self@.height == width * height) by (nonlinear_arith)
                requires
                    self@.width == width,
                    self@.height == height,
            ;
            if n > g0.len() {
                assert(self@.grid =~= resized(g0, n as nat, blank_cell()));
            } else {
                assert(self@.grid =~= resized(g0, n as nat, blank_cell()));
            }
        }
    }

    /// The cell at `pos`, if the grid has one there.
    pub fn get(&mut self, pos: Pos) -> (c: Option<&Cell>)
        requires
            old(self).wf(),
            old(self)@.width * pos.y + pos.x <= usize::MAX,
        ensures
            *final(self) == *old(self),
            match c {
                Some(c) => grid_index(old(self)@.width, pos) < old(self)@.grid.len() && c@ == old(
                    self,
                )@.grid[grid_index(old(self)@.width, pos)],
                None => grid_index(old(self)@.width, pos) >= old(self)@.grid.len(),
            },
    {
        let idx = (self.width * pos.y) + pos.x;
        if idx >= self.grid.len() {
            return None;
        }
        Some(&self.grid[idx])
    }

    /// Puts `cell` at `pos`, marking it to be drawn if it changes what is
    /// there. A position off the grid changes nothing.
    pub fn set(&mut self, pos: Pos, cell: Cell)
        requires
            old(self).wf(),
            old(self)@.width * pos.y + pos.x <= usize::MAX,
        ensures
            final(self).wf(),
            final(self)@ == set_spec(old(self)@, pos, cell@),
    {
        let idx = (self.width * pos.y) + pos.x;
        if idx >= self.grid.len() {
            return;
        }
        if self.grid[idx].same(&cell) {
            return;
        }
        let ghost g0 = cell_views(self.grid@);
        self.grid.set(idx, cell);
        self.dirty.set(idx, true);
        proof {
            assert(cell_views(self.grid@) =~= g0.update(idx as int, cell@));
        }
    }
}

/// One operation on the terminal.
#[derive(Clone, PartialEq, Eq, Debug)]
pub enum DrawOp {
    /// Resets all attributes and colours.
    Reset,
    /// Sets the foreground colour; `None` for the terminal's default.
    Foreground(Option<Rgb>),
    /// Sets the background colour; `None` for the terminal's default.
    Background(Option<Rgb>),
    Bold,
    Italic,
    Underlined,
    Reverse,
    /// Moves the terminal cursor to a column and row.
    MoveTo(usize, usize),
    /// Prints a text at the terminal cursor.
    Print(String),
}

/// The mathematical model of a `DrawOp`.
pub enum DrawOpView {
    Reset,
    Foreground(Option<Rgb>),
    Background(Option<Rgb>),
    Bold,
    Italic,
    Underlined,
    Reverse,
    MoveTo(usize, usize),
    Print(Seq<char>),
}

impl View for DrawOp {
    type V = DrawOpView;

    open spec fn view(&self) -> DrawOpView {
        match self {
            DrawOp::Reset => DrawOpView::Reset,
            DrawOp::Foreground(c) => DrawOpView::Foreground(*c),
            DrawOp::Background(c) => DrawOpView::Background(*c),
            DrawOp::Bold => DrawOpView::Bold,
            DrawOp::Italic => DrawOpView::Italic,
            DrawOp::Underlined => DrawOpView::Underlined,
            DrawOp::Reverse => DrawOpView::Reverse,
            DrawOp::MoveTo(x, y) => DrawOpView::MoveTo(*x, *y),
            DrawOp::Print(s) => DrawOpView::Print(s@),
        }
    }
}

/// The views of a sequence of operations.
pub open spec fn op_views(ops: Seq<DrawOp>) -> Seq<DrawOpView> {
    ops.map_values(|o: DrawOp| o@)
}

/// Whether switching from `a` to `t` must reset the terminal first: an
/// attribute `a` has on is off in `t`.
pub open spec fn needs_reset(a: Face, t: Face) -> bool {
    ||| (a.bold == Some(true) && t.bold != Some(true))
    ||| (a.italic == Some(true) && t.italic != Some(true))
    ||| (a.underline == Some(true) && t.underline != Some(true))
    ||| (a.reverse == Some(true) && t.reverse != Some(true))
}

/// An attribute step: an operation when `t` turns the attribute on and `a`
/// differs, and the attribute after it.
pub open spec fn attr_step(a: Option<bool>, t: Option<bool>, op: DrawOpView) -> (Seq<DrawOpView>, Option<bool>) {
    if a != t && t == Some(true) {
        (seq![op], t)
    } else {
        (Seq::empty(), a)
    }
}

/// The colour operations from `a` to `t`: each colour that differs.
pub open spec fn colour_ops(a: Face, t: Face) -> Seq<DrawOpView> {
    (if a.fg != t.fg { seq![DrawOpView::Foreground(t.fg)] } else { Seq::empty() }) + (if a.bg != t.bg {
        seq![DrawOpView::Background(t.bg)]
    } else {
        Seq::empty()
    })
}

/// The attribute operations from `a` to `t`, and the attributes after them.
pub open spec fn attr_ops(a: Face, t: Face) -> (Seq<DrawOpView>, Face) {
    let (o3, b) = attr_step(a.bold, t.bold, DrawOpView::Bold);
    let (o4, i) = attr_step(a.italic, t.italic, DrawOpView::Italic);
    let (o5, u) = attr_step(a.underline, t.underline, DrawOpView::Underlined);
    let (o6, v) = attr_step(a.reverse, t.reverse, DrawOpView::Reverse);
    (o3 + o4 + o5 + o6, Face { fg: t.fg, bg: t.bg, bold: b, italic: i, underline: u, reverse: v })
}

/// The operations that switch the terminal from the face `a` to the face
/// `t`, and the face it is in after them: nothing if they are equal; else a
/// reset if one is needed, the colours that differ, and the attributes `t`
/// turns on.
pub open spec fn face_ops(a: Face, t: Face) -> (Seq<DrawOpView>, Face) {
    if a == t {
        (Seq::empty(), a)
    } else {
        let r = needs_reset(a, t);
        let a1 = if r { plain_face() } else { a };
        let o0: Seq<DrawOpView> = if r { seq![DrawOpView::Reset] } else { Seq::empty() };
        (o0 + colour_ops(a1, t) + attr_ops(a1, t).0, attr_ops(a1, t).1)
    }
}

/// One attribute step of `render_face`.
fn step_attr(ops: &mut Vec<DrawOp>, a: &mut Option<bool>, t: Option<bool>, op: DrawOp)
    ensures
        op_views(final(ops)@) == op_views(old(ops)@) + attr_step(*old(a), t, op@).0,
        *final(a) == attr_step(*old(a), t, op@).1,
{
    let ghost o0 = op_views(ops@);
    let ghost ov = op@;
    if *a != t && t == Some(true) {
        ops.push(op);
        *a = t;
        proof {
            assert(op_views(ops@) =~= o0 + seq![ov]);
        }
    } else {
        proof {
            assert(op_views(ops@) =~= o0 + Seq::<DrawOpView>::empty());
        }
    }
}

/// Pushes the colour operations from `a` to `t`.
fn push_colours(ops: &mut Vec<DrawOp>, a: &Face, t: &Face)
    ensures
        op_views(final(ops)@) == op_views(old(ops)@) + colour_ops(*a, *t),
{
    let ghost o0 = op_views(ops@);
    if a.fg != t.fg {
        ops.push(DrawOp::Foreground(t.fg));
    }
    let ghost p1 = op_views(ops@);
    proof {
        assert(p1 =~= o0 + (if a.fg != t.fg { seq![DrawOpView::Foreground(t.fg)] } else { Seq::<DrawOpView>::empty() }));
    }
    if a.bg != t.bg {
        ops.push(DrawOp::Background(t.bg));
    }
    proof {
        assert(op_views(ops@) =~= p1 + (if a.bg != t.bg { seq![DrawOpView::Background(t.bg)] } else { Seq::<DrawOpView>::empty() }));
        assert(op_views(ops@) =~= o0 + colour_ops(*a, *t));
    }
}

/// Pushes the attribute operations from `a` to `t`; returns the face after
/// them.
fn push_attrs(ops: &mut Vec<DrawOp>, a: &Face, t: &Face) -> (f: Face)
    ensures
        op_views(final(ops)@) == op_views(old(ops)@) + attr_ops(*a, *t).0,
        f == attr_ops(*a, *t).1,
{
    let ghost o0 = op_views(ops@);
    let mut b = a.bold;
    step_attr(ops, &mut b, t.bold, DrawOp::Bold);
    let mut i = a.italic;
    step_attr(ops, &mut i, t.italic, DrawOp::Italic);
    let mut u = a.underline;
    step_attr(ops, &mut u, t.underline, DrawOp::Underlined);
    let mut v = a.reverse;
    step_attr(ops, &mut v, t.reverse, DrawOp::Reverse);
    proof {
        assert(op_views(ops@) =~= o0 + attr_ops(*a, *t).0);
    }
    Face { fg: t.fg, bg: t.bg, bold: b, italic: i, underline: u, reverse: v }
}

/// Pushes the operations that switch the terminal from `active` to
/// `target`, and updates `active`.
pub fn render_face(ops: &mut Vec<DrawOp>, active: &mut Face, target: &Face)
    ensures
        op_views(final(ops)@) == op_views(old(ops)@) + face_ops(*old(active), *target).0,
        *final(active) == face_ops(*old(active), *target).1,
{
    let ghost o0 = op_views(ops@);
    let ghost a0 = *active;
    if *active == *target {
        proof {
            assert(op_views(ops@) =~= o0 + Seq::<DrawOpView>::empty());
        }
        return;
    }
    let reset = (active.bold == Some(true) && target.bold != Some(true))
        || (active.italic == Some(true) && target.italic != Some(true))
        || (active.underline == Some(true) && target.underline != Some(true))
        || (active.reverse == Some(true) && target.reverse != Some(true));
    if reset {
        ops.push(DrawOp::Reset);
        *active = Face::plain();
    }
    let ghost p0 = op_views(ops@);
    proof {
        assert(reset == needs_reset(a0, *target));
        assert(p0 =~= o0 + (if reset { seq![DrawOpView::Reset] } else { Seq::<DrawOpView>::empty() }));
    }
    let a1 = *active;
    push_colours(ops, &a1, target);
    let f = push_attrs(ops, &a1, target);
    *active = f;
    proof {
        assert(op_views(ops@) =~= o0 + face_ops(a0, *target).0);
    }
}

/// Progress through the grid when drawing the dirty cells: the operations
/// so far, the face the terminal is in, and where its cursor stands.
pub struct FrameState {
    pub ops: Seq<DrawOpView>,
    pub face: Face,
    pub cursor: Pos,
}

/// One cell of the grid: a clean cell or the trailing part of a wide
/// grapheme draws nothing; else the cursor moves there unless it already
/// stands there, the face switches, the grapheme is printed, and the cursor
/// stands after it.
pub open spec fn visit_cell(st: FrameState, s: ScreenView, x: int, y: int) -> FrameState {
    let idx = s.width * y + x;
    let c = s.grid[idx];
    if !s.dirty[idx] || c.width == 0 {
        st
    } else {
        let ops1 = if st.cursor != (Pos { x: x as usize, y: y as usize }) {
            st.ops.push(DrawOpView::MoveTo(x as usize, y as usize))
        } else {
            st.ops
        };
        let f = face_ops(st.face, c.face);
        FrameState {
            ops: ops1 + f.0 + seq![DrawOpView::Print(c.ch)],
            face: f.1,
            cursor: Pos { x: (x + str_width(c.ch)) as usize, y: y as usize },
        }
    }
}

/// The first `n` cells of row `y`, in order.
pub open spec fn visit_row(st: FrameState, s: ScreenView, y: int, n: int) -> FrameState
    decreases n,
{
    if n <= 0 {
        st
    } else {
        visit_cell(visit_row(st, s, y, n - 1), s, n - 1, y)
    }
}

/// The first `m` rows, in order.
pub open spec fn visit_rows(st: FrameState, s: ScreenView, m: int) -> FrameState
    decreases m,
{
    if m <= 0 {
        st
    } else {
        visit_row(visit_rows(st, s, m - 1), s, m - 1, s.width as int)
    }
}

/// The operations that draw the dirty cells of a screen, starting from a
/// reset terminal whose cursor stands nowhere.
pub open spec fn frame_spec(s: ScreenView) -> Seq<DrawOpView> {
    visit_rows(
        FrameState { ops: seq![DrawOpView::Reset], face: plain_face(), cursor: Pos { x: usize::MAX, y: usize::MAX } },
        s,
        s.height as int,
    ).ops
}

/// Every grapheme's columns fit beside the screen's width in `usize`.
pub open spec fn narrow(s: ScreenView) -> bool {
    forall|i: int| 0 <= i < s.grid.len() ==> s.width + str_width(#[trigger] s.grid[i].ch) <= usize::MAX
}

proof fn lemma_index_step(w: int, y: int, x: int)
    requires
        0 <= x < w,
        0 <= y,
    ensures
        w * y + x + 1 <= w * (y + 1),
        w * (y + 1) == w * y + w,
{
    assert(w * (y + 1) == w * y + w) by (nonlinear_arith);
}

proof fn lemma_index_bound(w: int, h: int, y: int, x: int)
    requires
        0 <= x < w,
        0 <= y < h,
    ensures
        w * y + x < w * h,
{
    assert(w * y + w <= w * h) by (nonlinear_arith)
        requires
            y + 1 <= h,
            0 <= w,
    ;
    lemma_index_step(w, y, x);
}

impl Screen {
    /// Whether `frame` can track the terminal cursor past every cell without
    /// leaving `usize`.
    pub fn check_narrow(&self) -> (b: bool)
        requires
            self.wf(),
        ensures
            b == narrow(self@),
    {
        let mut i: usize = 0;
        while i < self.grid.len()
            invariant
                i <= self.grid@.len(),
                forall|k: int| 0 <= k < i ==> self.width + str_width(#[trigger] self.grid@[k]@.ch) <= usize::MAX,
            decreases self.grid@.len() - i,
        {
            let w = width(self.grid[i].ch.as_str());
            if w > usize::MAX - self.width {
                proof {
                    assert(self@.grid[i as int] == self.grid@[i as int]@);
                    assert(w == str_width(self@.grid[i as int].ch));
                    assert(self@.width + str_width(self@.grid[i as int].ch) > usize::MAX);
                }
                return false;
            }
            i = i + 1;
        }
        proof {
            assert forall|k: int| 0 <= k < self@.grid.len() implies self@.width + str_width(#[trigger] self@.grid[k].ch)
                <= usize::MAX by {
                assert(self@.grid[k] == self.grid@[k]@);
            }
        }
        true
    }

    /// The operations that draw the cells changed since the last frame, in
    /// grid order; every cell is clean afterwards.
    pub fn frame(&mut self) -> (ops: Vec<DrawOp>)
        requires
            old(self).wf(),
            narrow(old(self)@),
        ensures
            final(self).wf(),
            final(self)@.width == old(self)@.width,
            final(self)@.height == old(self)@.height,
            final(self)@.grid == old(self)@.grid,
            final(self)@.dirty == Seq::new(old(self)@.dirty.len(), |i: int| false),
            op_views(ops@) == frame_spec(old(self)@),
    {
        let ghost s0 = self@;
        let ghost n = s0.grid.len() as int;
        let ghost w = s0.width as int;
        let ghost st0 = FrameState { ops: seq![DrawOpView::Reset], face: plain_face(), cursor: Pos { x: usize::MAX, y: usize::MAX } };
        let mut ops: Vec<DrawOp> = Vec::new();
        ops.push(DrawOp::Reset);
        let mut face = Face::plain();
        let mut cursor = Pos::new(usize::MAX, usize::MAX);
        let glen = self.grid.len();
        proof {
            assert(op_views(ops@) =~= seq![DrawOpView::Reset]);
            assert(n <= usize::MAX);
        }
        let mut y: usize = 0;
        while y < self.height
            invariant
                self.wf(),
                self@.width == s0.width,
                self@.height == s0.height,
                self@.grid == s0.grid,
                s0.grid.len() == s0.width * s0.height,
                n == s0.grid.len(),
                w == s0.width,
                narrow(s0),
                n <= usize::MAX,
                y <= s0.height,
                self@.dirty.len() == n,
                forall|i: int| 0 <= i < n ==> #[trigger] self@.dirty[i] == if i < w * y { false } else { s0.dirty[i] },
                visit_rows(st0, s0, y as int) == (FrameState { ops: op_views(ops@), face, cursor }),
            decreases s0.height - y,
        {
            let mut x: usize = 0;
            proof {
                assert(visit_row(visit_rows(st0, s0, y as int), s0, y as int, 0) == visit_rows(st0, s0, y as int));
            }
            while x < self.width
                invariant
                    self.wf(),
                    self@.width == s0.width,
                    self@.height == s0.height,
                    self@.grid == s0.grid,
                    s0.grid.len() == s0.width * s0.height,
                    n == s0.grid.len(),
                    w == s0.width,
                    narrow(s0),
                    n <= usize::MAX,
                    y < s0.height,
                    x <= s0.width,
                    self@.dirty.len() == n,
                    forall|i: int| 0 <= i < n ==> #[trigger] self@.dirty[i] == if i < w * y + x { false } else { s0.dirty[i] },
                    visit_row(visit_rows(st0, s0, y as int), s0, y as int, x as int) == (FrameState { ops: op_views(ops@), face, cursor }),
                decreases s0.width - x,
            {
                proof {
                    lemma_index_bound(w, s0.height as int, y as int, x as int);
                    lemma_index_step(w, y as int, x as int);
                }
                let idx = self.width * y + x;
                let ghost st = FrameState { ops: op_views(ops@), face, cursor };
                let ghost dirty_before = self@.dirty;
                if self.dirty[idx] {
                    self.dirty.set(idx, false);
                    let cell = &self.grid[idx];
                    if cell.width != 0 {
                        let ghost o0 = op_views(ops@);
                        if cursor.x != x || cursor.y != y {
                            ops.push(DrawOp::MoveTo(x, y));
                        }
                        let ghost o1 = op_views(ops@);
                        proof {
                            assert(o1 =~= if st.cursor != (Pos { x: x as int as usize, y: y as int as usize }) {
                                st.ops.push(DrawOpView::MoveTo(x as int as usize, y as int as usize))
                            } else {
                                st.ops
                            });
                            assert(self.dirty@[idx as int] == false);
                            assert(dirty_before[idx as int] == s0.dirty[idx as int]);
                        }
                        render_face(&mut ops, &mut face, &cell.face);
                        let ghost o2 = op_views(ops@);
                        ops.push(DrawOp::Print(cell.ch.clone()));
                        proof {
                            assert(s0.grid[idx as int] == self.grid@[idx as int]@);
                            assert(w + str_width(s0.grid[idx as int].ch) <= usize::MAX);
                            assert(op_views(ops@) =~= o2 + seq![DrawOpView::Print(cell.ch@)]);
                        }
                        let cw = width(cell.ch.as_str());
                        cursor = Pos::new(x + cw, y);
                        proof {
                            assert(FrameState { ops: op_views(ops@), face, cursor } == visit_cell(st, s0, x as int, y as int));
                        }
                    } else {
                        proof {
                            assert(s0.grid[idx as int].width == 0);
                        }
                    }
                }
                proof {
                    assert forall|i: int| 0 <= i < n implies #[trigger] self@.dirty[i] == if i < w * y + x + 1 { false } else { s0.dirty[i] } by {
                        if i != idx {
                            assert(self@.dirty[i] == dirty_before[i]);
                        }
                    }
                }
                x = x + 1;
            }
            proof {
                assert(w * y + w == w * (y + 1)) by (nonlinear_arith);
            }
            y = y + 1;
        }
        proof {
            assert(w * s0.height == n);
            assert(self@.dirty =~= Seq::new(s0.dirty.len(), |i: int| false));
        }
        ops
    }
}

} // verus!
