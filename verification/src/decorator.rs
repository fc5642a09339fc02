use vstd::prelude::*;
use vstd::string::StringExecFns;
use vstd::utf8::valid_utf8;

use crate::action::layout_ok;
use crate::cell::{cell_views, Cell, CellView};
use crate::layout::text_face_view;
use crate::action::check_layout;
use crate::mode_line::{
    bracketed, check_mode_line_fits, cursor_col, cursor_column, cursor_pos_text, file_path_text, mode_line_fits,
    mode_line_row, mode_line_spec, opt_view, ModeLineConfig, ModeLineWidget,
};
use crate::piece_table::PieceTable;
use crate::state::{gutter_columns, mode_name, LocalViewData, Layout, ViewId, ViewMode};
use crate::text_format::{blanks, decimal, decimal_text, pad_left, right_aligned, spaces};
use crate::text_lines::num_lines;
use crate::types::{plain_face, Cursor, Decoration, Face, Pos, Span};
use crate::view_render::{rows_fit, shown_lines, shown_start, view_rows, view_rows_spec, ViewRenderer};
use crate::viewport::{drawn, rows_view, shows_rows, within_width, Viewport};

verus! {

/// Renders a view with its decorations: a gutter of line numbers on the
/// left and a mode line at the bottom.
pub struct ViewDecoratorRenderer {
    pub view: ViewId,
    pub inner: ViewRenderer,
}

impl ViewDecoratorRenderer {
    pub fn new(view: ViewId, inner: ViewRenderer) -> (r: Self)
        ensures
            r.view == view,
            r.inner == inner,
    {
        ViewDecoratorRenderer { view, inner }
    }
}

/// The text of a gutter `w` columns wide for line number `num` of a
/// document of `lines` lines: the number right-aligned and a space, or
/// spaces past the last line.
pub open spec fn gutter_text(num: int, lines: int, w: int) -> Seq<char> {
    if num <= lines {
        pad_left(decimal_text(num as nat), (if w >= 1 { w - 1 } else { 0 }) as nat) + seq![' ']
    } else {
        blanks(w as nat)
    }
}

/// The gutter cells of one row: the `char`s of its text, as far as the
/// gutter goes.
pub open spec fn gutter_row_spec(num: int, lines: int, w: int) -> Seq<CellView> {
    let t = gutter_text(num, lines, w);
    Seq::new(
        (if t.len() < w { t.len() as int } else { w }) as nat,
        |x: int| CellView { ch: seq![t[x]], width: 1, face: plain_face() },
    )
}

/// The gutter cells of one row.
fn gutter_row(num: usize, lines: usize, w: usize) -> (r: Vec<Cell>)
    ensures
        cell_views(r@) == gutter_row_spec(num as int, lines as int, w as int),
        r@.len() == w,
{
    let text = if num <= lines {
        let pad = if w >= 1 {
            w - 1
        } else {
            0
        };
        let mut t = right_aligned(&decimal(num), pad);
        t.append(" ");
        proof {
            reveal_strlit(" ");
        }
        t
    } else {
        spaces(w)
    };
    let ghost tv = gutter_text(num as int, lines as int, w as int);
    proof {
        assert(text@ =~= tv);
    }
    let n = text.as_str().unicode_len();
    let end = if n < w {
        n
    } else {
        w
    };
    let mut r: Vec<Cell> = Vec::new();
    let mut x: usize = 0;
    while x < end
        invariant
            x <= end,
            end <= n,
            n == tv.len(),
            text@ == tv,
            cell_views(r@) == Seq::new(x as nat, |j: int| CellView { ch: seq![tv[j]], width: 1, face: plain_face() }),
        decreases end - x,
    {
        let c = text.as_str().get_char(x);
        let ghost before = cell_views(r@);
        let cell = Cell::new(crate::unicode::char_string(c), 1, Face::plain());
        let ghost cv = cell@;
        r.push(cell);
        proof {
            assert(c == tv[x as int]);
            assert(cv == CellView { ch: seq![tv[x as int]], width: 1, face: plain_face() });
            assert(cell_views(r@) =~= before.push(cv));
            assert(cell_views(r@) =~= Seq::new((x + 1) as nat, |j: int| CellView { ch: seq![tv[j]], width: 1, face: plain_face() }));
        }
        x = x + 1;
    }
    proof {
        assert(tv.len() >= w);
    }
    r
}

/// The text and face a widget shows.
pub open spec fn widget_text(
    wd: ModeLineWidget,
    mode: ViewMode,
    path: Option<Seq<char>>,
    modified: bool,
    t: Seq<u8>,
    tab: int,
    decs: Seq<Span<Decoration>>,
    cs: Seq<Cursor>,
) -> (Seq<char>, Face) {
    match wd {
        ModeLineWidget::Mode { face } => (bracketed(mode_name(mode)), face),
        ModeLineWidget::FilePath { face } => (file_path_text(path, modified), face),
        ModeLineWidget::CursorPos { face } => (cursor_pos_text(t, tab, decs, cs), face),
        ModeLineWidget::Text { text, face } => (text@, face),
    }
}

/// The left texts of a mode line: the widgets' texts with a plain space
/// between each two.
pub open spec fn left_texts(ws: Seq<(Seq<char>, Face)>) -> Seq<(Seq<char>, Face)>
    decreases ws.len(),
{
    if ws.len() <= 1 {
        ws
    } else {
        left_texts(ws.drop_last()) + seq![(seq![' '], plain_face()), ws.last()]
    }
}

/// The right texts of a mode line: the widgets' texts, each followed by a
/// plain space.
pub open spec fn right_texts(ws: Seq<(Seq<char>, Face)>) -> Seq<(Seq<char>, Face)>
    decreases ws.len(),
{
    if ws.len() == 0 {
        Seq::empty()
    } else {
        right_texts(ws.drop_last()) + seq![ws.last(), (seq![' '], plain_face())]
    }
}

/// Whether a widget can be shown: the cursor position needs the layout to
/// fit and a column below `usize::MAX`.
pub open spec fn widget_ok(wd: ModeLineWidget, t: Seq<u8>, tab: int, decs: Seq<Span<Decoration>>, cs: Seq<Cursor>) -> bool {
    wd is CursorPos ==> layout_ok(t, tab, decs) && cursor_column(t, tab, decs, cs) < usize::MAX
}

/// What the document and view look like to the mode line.
pub struct ModeLineInput<'a> {
    pub mode: ViewMode,
    pub path: &'a Option<String>,
    pub modified: bool,
    pub table: &'a PieceTable,
    pub cursors: &'a Vec<Cursor>,
    pub tab_width: usize,
    pub decs: &'a [Span<Decoration>],
}

/// The texts the widgets show, in order.
pub open spec fn widget_texts(ws: Seq<ModeLineWidget>, inp: ModeLineInput) -> Seq<(Seq<char>, Face)> {
    ws.map_values(
        |wd: ModeLineWidget|
            widget_text(
                wd,
                inp.mode,
                opt_view(*inp.path),
                inp.modified,
                inp.table.text(),
                inp.tab_width as int,
                inp.decs@,
                inp.cursors@,
            ),
    )
}

/// Every widget of the list can be shown.
pub open spec fn widgets_ok(ws: Seq<ModeLineWidget>, inp: ModeLineInput) -> bool {
    forall|i: int|
        0 <= i < ws.len() ==> widget_ok(#[trigger] ws[i], inp.table.text(), inp.tab_width as int, inp.decs@, inp.cursors@)
}

/// Whether every widget of the list can be shown.
fn check_widgets(ws: &Vec<ModeLineWidget>, inp: &ModeLineInput) -> (b: bool)
    requires
        inp.table.wf(),
        valid_utf8(inp.table.text()),
    ensures
        b == widgets_ok(ws@, *inp),
{
    let mut i: usize = 0;
    while i < ws.len()
        invariant
            i <= ws@.len(),
            inp.table.wf(),
            valid_utf8(inp.table.text()),
            forall|j: int|
                0 <= j < i ==> widget_ok(#[trigger] ws@[j], inp.table.text(), inp.tab_width as int, inp.decs@, inp.cursors@),
        decreases ws@.len() - i,
    {
        match &ws[i] {
            ModeLineWidget::CursorPos { .. } => {
                if !check_layout(inp.table, inp.tab_width, inp.decs) {
                    return false;
                }
                let (_, x) = cursor_col(inp.table, inp.cursors, inp.tab_width, inp.decs);
                if x == usize::MAX {
                    return false;
                }
            },
            _ => {},
        }
        i = i + 1;
    }
    true
}

/// Whether the mode line of a view `width` columns wide can be shown: what
/// `ViewDecoratorRenderer::render` needs of the widgets and their texts.
pub fn check_mode_line(config: &ModeLineConfig, inp: &ModeLineInput, width: usize) -> (b: bool)
    requires
        inp.table.wf(),
        valid_utf8(inp.table.text()),
    ensures
        b == (widgets_ok(config.left@, *inp) && widgets_ok(config.right@, *inp) && mode_line_fits(
            left_texts(widget_texts(config.left@, *inp)),
            right_texts(widget_texts(config.right@, *inp)),
            width as int,
        )),
{
    if !check_widgets(&config.left, inp) || !check_widgets(&config.right, inp) {
        return false;
    }
    let (left, right) = mode_line_texts(config, inp);
    check_mode_line_fits(&left, &right, width)
}

/// The text of one widget.
fn widget_piece(wd: &ModeLineWidget, inp: &ModeLineInput) -> (r: (String, Face))
    requires
        inp.table.wf(),
        valid_utf8(inp.table.text()),
        widget_ok(*wd, inp.table.text(), inp.tab_width as int, inp.decs@, inp.cursors@),
    ensures
        text_face_view(r) == widget_text(
            *wd,
            inp.mode,
            opt_view(*inp.path),
            inp.modified,
            inp.table.text(),
            inp.tab_width as int,
            inp.decs@,
            inp.cursors@,
        ),
{
    let mut v = wd.render(inp.mode, inp.path, inp.modified, inp.table, inp.cursors, inp.tab_width, inp.decs);
    let last = v.pop();
    match last {
        Some(p) => p,
        None => (String::new(), Face::plain()),
    }
}

/// A plain space.
fn plain_space() -> (r: (String, Face))
    ensures
        text_face_view(r) == (seq![' '], plain_face()),
{
    let s = " ".to_owned();
    proof {
        reveal_strlit(" ");
        assert(s@ =~= seq![' ']);
    }
    (s, Face::plain())
}

/// The left and right texts of the mode line of a view.
pub fn mode_line_texts(config: &ModeLineConfig, inp: &ModeLineInput) -> (r: (Vec<(String, Face)>, Vec<(String, Face)>))
    requires
        inp.table.wf(),
        valid_utf8(inp.table.text()),
        widgets_ok(config.left@, *inp),
        widgets_ok(config.right@, *inp),
    ensures
        r.0@.map_values(|t: (String, Face)| text_face_view(t)) == left_texts(widget_texts(config.left@, *inp)),
        r.1@.map_values(|t: (String, Face)| text_face_view(t)) == right_texts(widget_texts(config.right@, *inp)),
{
    let ghost lw = widget_texts(config.left@, *inp);
    let ghost rw = widget_texts(config.right@, *inp);
    let mut left: Vec<(String, Face)> = Vec::new();
    let mut k: usize = 0;
    proof {
        assert(lw.take(0) =~= Seq::<(Seq<char>, Face)>::empty());
        assert(left@.map_values(|t: (String, Face)| text_face_view(t)) =~= left_texts(lw.take(0)));
    }
    while k < config.left.len()
        invariant
            k <= config.left@.len(),
            inp.table.wf(),
            valid_utf8(inp.table.text()),
            widgets_ok(config.left@, *inp),
            lw == widget_texts(config.left@, *inp),
            left@.map_values(|t: (String, Face)| text_face_view(t)) == left_texts(lw.take(k as int)),
        decreases config.left@.len() - k,
    {
        let ghost before = left@.map_values(|t: (String, Face)| text_face_view(t));
        if k > 0 {
            let sp = plain_space();
            left.push(sp);
        }
        let p = widget_piece(&config.left[k], inp);
        left.push(p);
        proof {
            assert(lw.take(k + 1).drop_last() =~= lw.take(k as int));
            assert(lw[k as int] == text_face_view(p));
            if k > 0 {
                assert(left@.map_values(|t: (String, Face)| text_face_view(t)) =~= before + seq![(seq![' '], plain_face()), lw[k as int]]);
            } else {
                assert(lw.take(1) =~= seq![lw[0]]);
                assert(left@.map_values(|t: (String, Face)| text_face_view(t)) =~= lw.take(1));
            }
        }
        k = k + 1;
    }
    proof {
        assert(lw.take(config.left@.len() as int) == lw);
    }
    let mut right: Vec<(String, Face)> = Vec::new();
    let mut j: usize = 0;
    proof {
        assert(rw.take(0) =~= Seq::<(Seq<char>, Face)>::empty());
        assert(right@.map_values(|t: (String, Face)| text_face_view(t)) =~= right_texts(rw.take(0)));
    }
    while j < config.right.len()
        invariant
            j <= config.right@.len(),
            inp.table.wf(),
            valid_utf8(inp.table.text()),
            widgets_ok(config.right@, *inp),
            rw == widget_texts(config.right@, *inp),
            right@.map_values(|t: (String, Face)| text_face_view(t)) == right_texts(rw.take(j as int)),
        decreases config.right@.len() - j,
    {
        let ghost before = right@.map_values(|t: (String, Face)| text_face_view(t));
        let p = widget_piece(&config.right[j], inp);
        right.push(p);
        let sp = plain_space();
        right.push(sp);
        proof {
            assert(rw.take(j + 1).drop_last() =~= rw.take(j as int));
            assert(rw[j as int] == text_face_view(p));
            assert(right@.map_values(|t: (String, Face)| text_face_view(t)) =~= before + seq![rw[j as int], (seq![' '], plain_face())]);
        }
        j = j + 1;
    }
    proof {
        assert(rw.take(config.right@.len() as int) == rw);
    }
    (left, right)
}

/// The rows a decorated view draws in a viewport `w` by `h`: for each row
/// above the mode line its gutter cells and then the view's cells, and the
/// mode line below them; nothing in an empty viewport.
pub open spec fn decorated_rows_spec(
    lines: int,
    layout: Layout,
    scroll: Pos,
    w: int,
    h: int,
    view_lines: Option<Seq<Seq<char>>>,
    start: int,
    cs: Seq<Cursor>,
    tab: int,
    decs: Seq<Span<Decoration>>,
    left: Seq<(Seq<char>, Face)>,
    right: Seq<(Seq<char>, Face)>,
) -> Seq<Seq<CellView>> {
    let gw = gutter_columns(layout.gutter, lines as nat) as int;
    let bh = if h >= layout.mode_line { h - layout.mode_line } else { 0 };
    let bw = if w >= gw { w - gw } else { 0 };
    let vr = view_rows_spec(view_lines, start, cs, scroll.x as int, tab, decs, bw, bh);
    if h == 0 || w == 0 {
        Seq::empty()
    } else {
        Seq::new(
            (if layout.mode_line > 0 { bh + 1 } else { bh }) as nat,
            |y: int|
                if y < bh {
                    gutter_row_spec(y + scroll.y + 1, lines, gw) + vr[y]
                } else {
                    mode_line_spec(left, right, w)
                },
        )
    }
}

impl ViewDecoratorRenderer {
    /// Draws the view with its gutter of line numbers (counted from the
    /// scroll row) and its mode line.
    pub fn render(
        &self,
        viewport: &mut Viewport,
        layout: Layout,
        scroll: Pos,
        lvd: Option<&LocalViewData>,
        config: &ModeLineConfig,
        inp: &ModeLineInput,
    )
        requires
            old(viewport).wf(),
            inp.table.wf(),
            valid_utf8(inp.table.text()),
            widgets_ok(config.left@, *inp),
            widgets_ok(config.right@, *inp),
            mode_line_fits(
                left_texts(widget_texts(config.left@, *inp)),
                right_texts(widget_texts(config.right@, *inp)),
                old(viewport).rect().width as int,
            ),
            scroll.x + old(viewport).rect().width <= usize::MAX,
            scroll.y + old(viewport).rect().height + 1 <= usize::MAX,
            match shown_lines(lvd) {
                Some(ls) => rows_fit(ls, shown_start(lvd), inp.tab_width as int, inp.decs@, old(viewport).rect().height as int),
                None => true,
            },
        ensures
            final(viewport).wf(),
            final(viewport).rect() == old(viewport).rect(),
            *final(final(viewport).data) == *final(old(viewport).data),
            final(viewport).screen() == drawn(
                old(viewport).screen(),
                old(viewport).rect(),
                Pos { x: 0, y: 0 },
                decorated_rows_spec(
                    num_lines(inp.table.text()),
                    layout,
                    scroll,
                    old(viewport).rect().width as int,
                    old(viewport).rect().height as int,
                    shown_lines(lvd),
                    shown_start(lvd),
                    inp.cursors@,
                    inp.tab_width as int,
                    inp.decs@,
                    left_texts(widget_texts(config.left@, *inp)),
                    right_texts(widget_texts(config.right@, *inp)),
                ),
            ),
            within_width(old(viewport).rect(), old(viewport).screen().width) ==> shows_rows(
                old(viewport).rect(),
                final(viewport).screen(),
                Pos { x: 0, y: 0 },
                decorated_rows_spec(
                    num_lines(inp.table.text()),
                    layout,
                    scroll,
                    old(viewport).rect().width as int,
                    old(viewport).rect().height as int,
                    shown_lines(lvd),
                    shown_start(lvd),
                    inp.cursors@,
                    inp.tab_width as int,
                    inp.decs@,
                    left_texts(widget_texts(config.left@, *inp)),
                    right_texts(widget_texts(config.right@, *inp)),
                ),
            ),
    {
        let width = viewport.width();
        let height = viewport.height();
        if height == 0 || width == 0 {
            let rows: Vec<Vec<Cell>> = Vec::new();
            viewport.draw_rows(Pos::new(0, 0), &rows);
            proof {
                assert(rows_view(rows@) =~= Seq::<Seq<CellView>>::empty());
            }
            return;
        }
        let lines = inp.table.lines();
        let gw = layout.gutter_width(lines);
        let bh = if height >= layout.mode_line {
            height - layout.mode_line
        } else {
            0
        };
        let bw = if width >= gw {
            width - gw
        } else {
            0
        };
        let view_part = view_rows(lvd, inp.cursors, scroll.x, inp.tab_width, inp.decs, bw, bh);
        let ghost spec_rows = decorated_rows_spec(
            lines as int,
            layout,
            scroll,
            width as int,
            height as int,
            shown_lines(lvd),
            shown_start(lvd),
            inp.cursors@,
            inp.tab_width as int,
            inp.decs@,
            left_texts(widget_texts(config.left@, *inp)),
            right_texts(widget_texts(config.right@, *inp)),
        );
        let ghost vr = rows_view(view_part@);
        let mut rows: Vec<Vec<Cell>> = Vec::new();
        let mut y: usize = 0;
        while y < bh
            invariant
                y <= bh,
                bh <= height,
                view_part@.len() == bh,
                vr == rows_view(view_part@),
                forall|k: int| 0 <= k < view_part@.len() ==> #[trigger] view_part@[k]@.len() == bw,
                scroll.y + height + 1 <= usize::MAX,
                gw == gutter_columns(layout.gutter, lines as nat),
                bw == (if width >= gw { width - gw } else { 0 }),
                bh == (if height >= layout.mode_line { height - layout.mode_line } else { 0 }),
                height > 0 && width > 0,
                spec_rows == decorated_rows_spec(lines as int, layout, scroll, width as int, height as int, shown_lines(lvd), shown_start(lvd), inp.cursors@, inp.tab_width as int, inp.decs@, left_texts(widget_texts(config.left@, *inp)), right_texts(widget_texts(config.right@, *inp))),
                vr == view_rows_spec(shown_lines(lvd), shown_start(lvd), inp.cursors@, scroll.x as int, inp.tab_width as int, inp.decs@, bw as int, bh as int),
                rows_view(rows@) == spec_rows.take(y as int),
                forall|k: int| 0 <= k < rows@.len() ==> #[trigger] rows@[k]@.len() == (if width >= gw { width } else { gw }),
                rows@.len() == y,
            decreases bh - y,
        {
            let mut row = gutter_row(y + scroll.y + 1, lines, gw);
            let mut rest: Vec<Cell> = Vec::new();
            let src = &view_part[y];
            let mut x: usize = 0;
            while x < src.len()
                invariant
                    x <= src@.len(),
                    cell_views(rest@) == cell_views(src@).take(x as int),
                decreases src@.len() - x,
            {
                rest.push(src[x].duplicate());
                proof {
                    assert(cell_views(src@).take(x + 1) =~= cell_views(src@).take(x as int).push(src@[x as int]@));
                    assert(cell_views(rest@) =~= cell_views(src@).take(x + 1));
                }
                x = x + 1;
            }
            let ghost g = cell_views(row@);
            let ghost glen = row@.len();
            row.append(&mut rest);
            proof {
                assert(cell_views(rest@).len() == rest@.len());
                assert(cell_views(src@).len() == src@.len());
                assert(row@.len() == glen + src@.len());
                assert(cell_views(src@).take(src@.len() as int) == cell_views(src@));
                assert(vr[y as int] == cell_views(src@));
                assert(cell_views(row@) =~= g + cell_views(src@));
                assert(spec_rows[y as int] == cell_views(row@));
            }
            let ghost rows0 = rows@;
            rows.push(row);
            proof {
                assert(rows_view(rows@) =~= rows_view(rows0).push(spec_rows[y as int]));
                assert(rows_view(rows@) =~= spec_rows.take(y + 1));
            }
            y = y + 1;
        }
        let ghost wmax: usize = if width >= gw { width } else { gw };
        assert(forall|k: int| 0 <= k < rows@.len() ==> 0 + #[trigger] rows@[k]@.len() <= usize::MAX);
        if layout.mode_line > 0 {
            let inp_texts = mode_line_texts(config, inp);
            let row = mode_line_row(&inp_texts.0, &inp_texts.1, width);
            proof {
                assert(cell_views(row@).len() == row@.len());
                crate::mode_line::lemma_mode_line_len(
                    inp_texts.0@.map_values(|t: (String, Face)| text_face_view(t)),
                    inp_texts.1@.map_values(|t: (String, Face)| text_face_view(t)),
                    width as int,
                );
                assert(row@.len() == width);
                assert(spec_rows[bh as int] == cell_views(row@));
            }
            let ghost rows0 = rows@;
            rows.push(row);
            proof {
                assert(rows_view(rows@) =~= rows_view(rows0).push(spec_rows[bh as int]));
                assert(rows_view(rows@) =~= spec_rows.take(bh + 1));
                assert(spec_rows.take(bh + 1) == spec_rows);
                assert(forall|k: int| 0 <= k < rows@.len() ==> 0 + #[trigger] rows@[k]@.len() <= usize::MAX);
            }
        } else {
            proof {
                assert(spec_rows.take(bh as int) == spec_rows);
            }
        }
        viewport.draw_rows(Pos::new(0, 0), &rows);
    }
}

} // verus!
