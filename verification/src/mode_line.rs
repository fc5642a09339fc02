use vstd::prelude::*;

use vstd::string::StringExecFns;
use vstd::utf8::valid_utf8;

use crate::action::{first_at_or_after, layout_ok, line_vom};
use crate::cell::{cell_views, Cell, CellView};
use crate::piece_table::PieceTable;
use crate::state::{mode_name, ViewMode};
use crate::text_format::{decimal, decimal_text};
use crate::text_lines::{line_at, line_of};
use crate::types::{Cursor, Decoration, Span};
use crate::layout::{clusters_width, lemma_clusters_width_prefix, lemma_texts_width_prefix, text_face_view, texts_width};
use crate::types::{merged_face, plain_face, Face};
use crate::unicode::{grapheme_clusters, graphemes, str_width, string_views, width};
use crate::view_render::{reversed, space_cell};

verus! {

/// The trailing part of a wide grapheme.
pub open spec fn trailing_cell(face: Face) -> CellView {
    CellView { ch: Seq::empty(), width: 0, face }
}

/// A grapheme of `str_width` columns written at column `x` of a row: the
/// grapheme, then trailing cells after it, as far as the row goes. The
/// column moves on by the grapheme's width.
pub open spec fn put_glyph(row: Seq<CellView>, x: int, g: Seq<char>, face: Face) -> (Seq<CellView>, int) {
    let w = str_width(g) as int;
    let row1 = row.update(x, CellView { ch: g, width: str_width(g), face });
    (Seq::new(row.len(), |p: int| if x < p && p < x + w { trailing_cell(face) } else { row1[p] }), x + w)
}

/// Graphemes written one after another from column `x`, until the row is
/// full.
pub open spec fn put_clusters(row: Seq<CellView>, x: int, gs: Seq<Seq<char>>, face: Face) -> (Seq<CellView>, int)
    decreases gs.len(),
{
    if gs.len() == 0 || x >= row.len() {
        (row, x)
    } else {
        let (r2, x2) = put_glyph(row, x, gs[0], face);
        put_clusters(r2, x2, gs.drop_first(), face)
    }
}

/// Texts written one after another from column `x`, each with its face laid
/// over `base`.
pub open spec fn put_texts(row: Seq<CellView>, x: int, ts: Seq<(Seq<char>, Face)>, base: Face) -> (Seq<CellView>, int)
    decreases ts.len(),
{
    if ts.len() == 0 {
        (row, x)
    } else {
        let (r2, x2) = put_clusters(row, x, grapheme_clusters(ts[0].0), merged_face(base, ts[0].1));
        put_texts(r2, x2, ts.drop_first(), base)
    }
}

/// Spaces written over the columns `from..to` of a row.
pub open spec fn fill_spaces(row: Seq<CellView>, from: int, to: int, face: Face) -> Seq<CellView> {
    Seq::new(row.len(), |p: int| if from <= p && p < to { space_cell(face) } else { row[p] })
}

/// The mode line of a view `w` columns wide, reversed: the left texts from
/// the left edge, the right texts ending at the right edge (after the left
/// ones if they do not fit), spaces between and after.
pub open spec fn mode_line_spec(left: Seq<(Seq<char>, Face)>, right: Seq<(Seq<char>, Face)>, w: int) -> Seq<CellView> {
    let base = reversed(plain_face());
    let row0 = Seq::new(w as nat, |p: int| space_cell(base));
    let (r1, x1) = put_texts(row0, 0, left, base);
    let rw = texts_width(right);
    let rs = if w >= rw { w - rw } else { 0 };
    let r2 = fill_spaces(r1, x1, rs, base);
    let x2 = if x1 < rs { rs } else { x1 };
    let (r3, x3) = put_texts(r2, x2, right, base);
    fill_spaces(r3, x3, w, base)
}

/// Whether writing the mode line keeps its columns within `usize`.
pub open spec fn mode_line_fits(left: Seq<(Seq<char>, Face)>, right: Seq<(Seq<char>, Face)>, w: int) -> bool {
    let base = reversed(plain_face());
    let row0 = Seq::new(w as nat, |p: int| space_cell(base));
    let (r1, x1) = put_texts(row0, 0, left, base);
    let rw = texts_width(right);
    let rs = if w >= rw { w - rw } else { 0 };
    let r2 = fill_spaces(r1, x1, rs, base);
    let x2 = if x1 < rs { rs } else { x1 };
    &&& rw <= usize::MAX
    &&& x1 <= usize::MAX
    &&& put_texts(r2, x2, right, base).1 <= usize::MAX
}

pub proof fn lemma_put_clusters_grows(row: Seq<CellView>, x: int, gs: Seq<Seq<char>>, face: Face)
    ensures
        put_clusters(row, x, gs, face).1 >= x,
        put_clusters(row, x, gs, face).0.len() == row.len(),
    decreases gs.len(),
{
    if gs.len() > 0 && x < row.len() {
        let (r2, x2) = put_glyph(row, x, gs[0], face);
        lemma_put_clusters_grows(r2, x2, gs.drop_first(), face);
    }
}

pub proof fn lemma_put_texts_grows(row: Seq<CellView>, x: int, ts: Seq<(Seq<char>, Face)>, base: Face)
    ensures
        put_texts(row, x, ts, base).1 >= x,
        put_texts(row, x, ts, base).0.len() == row.len(),
    decreases ts.len(),
{
    if ts.len() > 0 {
        let (r2, x2) = put_clusters(row, x, grapheme_clusters(ts[0].0), merged_face(base, ts[0].1));
        lemma_put_clusters_grows(row, x, grapheme_clusters(ts[0].0), merged_face(base, ts[0].1));
        lemma_put_texts_grows(r2, x2, ts.drop_first(), base);
    }
}

/// The column after graphemes written from column `x` into a row of `w`
/// columns, as `put_clusters` moves it.
pub open spec fn clusters_x(w: int, x: int, gs: Seq<Seq<char>>) -> int
    decreases gs.len(),
{
    if gs.len() == 0 || x >= w {
        x
    } else {
        clusters_x(w, x + str_width(gs[0]), gs.drop_first())
    }
}

/// The column after texts written from column `x` into a row of `w`
/// columns, as `put_texts` moves it.
pub open spec fn texts_x(w: int, x: int, ts: Seq<(Seq<char>, Face)>) -> int
    decreases ts.len(),
{
    if ts.len() == 0 {
        x
    } else {
        texts_x(w, clusters_x(w, x, grapheme_clusters(ts[0].0)), ts.drop_first())
    }
}

proof fn lemma_clusters_x(row: Seq<CellView>, x: int, gs: Seq<Seq<char>>, face: Face)
    ensures
        put_clusters(row, x, gs, face).1 == clusters_x(row.len() as int, x, gs),
        clusters_x(row.len() as int, x, gs) >= x,
    decreases gs.len(),
{
    if gs.len() > 0 && x < row.len() {
        let (r2, x2) = put_glyph(row, x, gs[0], face);
        assert(r2.len() == row.len());
        lemma_clusters_x(r2, x2, gs.drop_first(), face);
    }
}

proof fn lemma_texts_x(row: Seq<CellView>, x: int, ts: Seq<(Seq<char>, Face)>, base: Face)
    ensures
        put_texts(row, x, ts, base).1 == texts_x(row.len() as int, x, ts),
        texts_x(row.len() as int, x, ts) >= x,
    decreases ts.len(),
{
    if ts.len() > 0 {
        let (r2, x2) = put_clusters(row, x, grapheme_clusters(ts[0].0), merged_face(base, ts[0].1));
        lemma_clusters_x(row, x, grapheme_clusters(ts[0].0), merged_face(base, ts[0].1));
        lemma_put_clusters_grows(row, x, grapheme_clusters(ts[0].0), merged_face(base, ts[0].1));
        lemma_texts_x(r2, x2, ts.drop_first(), base);
    }
}

proof fn lemma_clusters_x_grows(w: int, x: int, gs: Seq<Seq<char>>)
    ensures
        clusters_x(w, x, gs) >= x,
    decreases gs.len(),
{
    if gs.len() > 0 && x < w {
        lemma_clusters_x_grows(w, x + str_width(gs[0]), gs.drop_first());
    }
}

proof fn lemma_texts_x_grows(w: int, x: int, ts: Seq<(Seq<char>, Face)>)
    ensures
        texts_x(w, x, ts) >= x,
    decreases ts.len(),
{
    if ts.len() > 0 {
        lemma_clusters_x_grows(w, x, grapheme_clusters(ts[0].0));
        lemma_texts_x_grows(w, clusters_x(w, x, grapheme_clusters(ts[0].0)), ts.drop_first());
    }
}

/// The column after writing `t` from column `x` into a row of `w` columns,
/// or `None` where that leaves `usize`.
fn checked_clusters_x(w: usize, x: usize, t: &String) -> (r: Option<usize>)
    ensures
        match r {
            Some(v) => v == clusters_x(w as int, x as int, grapheme_clusters(t@)),
            None => clusters_x(w as int, x as int, grapheme_clusters(t@)) > usize::MAX,
        },
{
    let gs = graphemes(t.as_str());
    let ghost gv = grapheme_clusters(t@);
    let mut cur = x;
    let mut k: usize = 0;
    proof {
        assert(gv.skip(0) == gv);
    }
    while k < gs.len() && cur < w
        invariant
            k <= gs@.len(),
            string_views(gs@) == gv,
            gv == grapheme_clusters(t@),
            clusters_x(w as int, x as int, gv) == clusters_x(w as int, cur as int, gv.skip(k as int)),
        decreases gs@.len() - k,
    {
        let gw = width(gs[k].as_str());
        proof {
            assert(gs@[k as int]@ == gv[k as int]);
            assert(gv.skip(k as int)[0] == gv[k as int]);
            assert(gv.skip(k as int).drop_first() == gv.skip(k + 1));
        }
        if cur > usize::MAX - gw {
            proof {
                let n = cur + gw;
                let rest = gv.skip(k + 1);
                assert(gw == str_width(gv.skip(k as int)[0]));
                assert(clusters_x(w as int, cur as int, gv.skip(k as int)) == clusters_x(w as int, n, rest));
                assert(clusters_x(w as int, n, rest) == n);
            }
            return None;
        }
        cur = cur + gw;
        k = k + 1;
    }
    proof {
        if k == gs@.len() {
            assert(gv.skip(k as int) =~= Seq::<Seq<char>>::empty());
        }
    }
    Some(cur)
}

/// The column after writing the texts from column `x` into a row of `w`
/// columns, or `None` where that leaves `usize`.
fn checked_texts_x(w: usize, x: usize, ts: &Vec<(String, Face)>) -> (r: Option<usize>)
    ensures
        match r {
            Some(v) => v == texts_x(w as int, x as int, ts@.map_values(|t: (String, Face)| text_face_view(t))),
            None => texts_x(w as int, x as int, ts@.map_values(|t: (String, Face)| text_face_view(t))) > usize::MAX,
        },
{
    let ghost tv = ts@.map_values(|t: (String, Face)| text_face_view(t));
    let mut cur = x;
    let mut k: usize = 0;
    proof {
        assert(tv.skip(0) == tv);
    }
    while k < ts.len()
        invariant
            k <= ts@.len(),
            tv == ts@.map_values(|t: (String, Face)| text_face_view(t)),
            texts_x(w as int, x as int, tv) == texts_x(w as int, cur as int, tv.skip(k as int)),
        decreases ts@.len() - k,
    {
        proof {
            assert(tv.skip(k as int)[0] == text_face_view(ts@[k as int]));
            assert(tv.skip(k as int).drop_first() == tv.skip(k + 1));
        }
        match checked_clusters_x(w, cur, &ts[k].0) {
            None => {
                proof {
                    lemma_texts_x_grows(
                        w as int,
                        clusters_x(w as int, cur as int, grapheme_clusters(ts@[k as int].0@)),
                        tv.skip(k + 1),
                    );
                }
                return None;
            },
            Some(v) => {
                cur = v;
            },
        }
        k = k + 1;
    }
    proof {
        assert(tv.skip(k as int) =~= Seq::<(Seq<char>, Face)>::empty());
    }
    Some(cur)
}

/// Whether the mode line of texts `left` and `right` can be written into
/// `w` columns without leaving `usize`: what `mode_line_row` needs.
pub fn check_mode_line_fits(left: &Vec<(String, Face)>, right: &Vec<(String, Face)>, w: usize) -> (b: bool)
    ensures
        b == mode_line_fits(
            left@.map_values(|t: (String, Face)| text_face_view(t)),
            right@.map_values(|t: (String, Face)| text_face_view(t)),
            w as int,
        ),
{
    let ghost lv = left@.map_values(|t: (String, Face)| text_face_view(t));
    let ghost rv = right@.map_values(|t: (String, Face)| text_face_view(t));
    let ghost base = reversed(plain_face());
    let ghost row0 = Seq::new(w as nat, |p: int| space_cell(base));
    let rw = match crate::layout::checked_texts_width(0, right) {
        None => {
            return false;
        },
        Some(v) => v,
    };
    let rs = if w >= rw {
        w - rw
    } else {
        0
    };
    let x1 = match checked_texts_x(w, 0, left) {
        None => {
            proof {
                lemma_texts_x(row0, 0, lv, base);
            }
            return false;
        },
        Some(v) => v,
    };
    let x2 = if x1 < rs {
        rs
    } else {
        x1
    };
    proof {
        lemma_texts_x(row0, 0, lv, base);
        lemma_put_texts_grows(row0, 0, lv, base);
        let r1 = put_texts(row0, 0, lv, base).0;
        let r2 = fill_spaces(r1, x1 as int, rs as int, base);
        assert(r2.len() == w);
        lemma_texts_x(r2, x2 as int, rv, base);
    }
    match checked_texts_x(w, x2, right) {
        None => false,
        Some(_) => true,
    }
}

/// The mode line is as wide as the view.
pub proof fn lemma_mode_line_len(left: Seq<(Seq<char>, Face)>, right: Seq<(Seq<char>, Face)>, w: int)
    requires
        w >= 0,
    ensures
        mode_line_spec(left, right, w).len() == w,
{
    let base = reversed(plain_face());
    let row0 = Seq::new(w as nat, |p: int| space_cell(base));
    lemma_put_texts_grows(row0, 0, left, base);
    let (r1, x1) = put_texts(row0, 0, left, base);
    let rw = texts_width(right);
    let rs = if w >= rw { w - rw } else { 0 };
    let r2 = fill_spaces(r1, x1, rs, base);
    let x2 = if x1 < rs { rs } else { x1 };
    lemma_put_texts_grows(r2, x2, right, base);
}

/// Writes the graphemes of `text` from column `x` of the row; returns the
/// column after them.
fn put_text(row: &mut Vec<Cell>, x: usize, text: &String, face: Face) -> (r: usize)
    requires
        put_clusters(cell_views(old(row)@), x as int, grapheme_clusters(text@), face).1 <= usize::MAX,
    ensures
        (cell_views(final(row)@), r as int) == put_clusters(cell_views(old(row)@), x as int, grapheme_clusters(text@), face),
{
    let gs = graphemes(text.as_str());
    let ghost gv = grapheme_clusters(text@);
    let ghost goal = put_clusters(cell_views(row@), x as int, gv, face);
    let mut x = x;
    let mut k: usize = 0;
    proof {
        assert(gv.skip(0) == gv);
    }
    while k < gs.len()
        invariant
            k <= gs@.len(),
            string_views(gs@) == gv,
            goal == put_clusters(cell_views(row@), x as int, gv.skip(k as int), face),
            goal.1 <= usize::MAX,
        ensures
            goal == (cell_views(row@), x as int),
        decreases gs@.len() - k,
    {
        proof {
            assert(gv.skip(k as int)[0] == gv[k as int]);
            assert(gv.skip(k as int).drop_first() == gv.skip(k + 1));
            assert(gs@[k as int]@ == gv[k as int]);
        }
        if x >= row.len() {
            break;
        }
        let g = &gs[k];
        let w = width(g.as_str());
        let ghost before = cell_views(row@);
        let ghost step = put_glyph(before, x as int, g@, face);
        proof {
            lemma_put_clusters_grows(step.0, step.1, gv.skip(k + 1), face);
        }
        let n = row.len();
        row.set(x, Cell::new(g.clone(), w, face));
        let end = if w > n - x {
            n
        } else {
            x + w
        };
        let mut p = x + 1;
        while p < end
            invariant
                x < n,
                n == row@.len(),
                x + 1 <= p,
                p <= end || p == x + 1,
                end <= n,
                end as int == (if w > n - x { n as int } else { x + w }),
                cell_views(row@) == Seq::new(
                    n as nat,
                    |q: int|
                        if x < q && q < p {
                            trailing_cell(face)
                        } else {
                            before.update(x as int, CellView { ch: g@, width: w, face })[q]
                        },
                ),
            decreases end - p,
        {
            let ghost r0 = cell_views(row@);
            row.set(p, Cell::trailing(face));
            proof {
                assert(cell_views(row@) =~= r0.update(p as int, trailing_cell(face)));
                assert(cell_views(row@) =~= Seq::new(
                    n as nat,
                    |q: int|
                        if x < q && q < p + 1 {
                            trailing_cell(face)
                        } else {
                            before.update(x as int, CellView { ch: g@, width: w, face })[q]
                        },
                ));
            }
            p = p + 1;
        }
        proof {
            assert(cell_views(row@) =~= step.0);
        }
        x = x + w;
        k = k + 1;
    }
    proof {
        if k == gs@.len() {
            assert(gv.skip(k as int) =~= Seq::<Seq<char>>::empty());
        }
    }
    x
}

/// Writes the texts from column `x`, each with its face laid over `base`;
/// returns the column after them.
fn put_text_list(row: &mut Vec<Cell>, x: usize, ts: &Vec<(String, Face)>, base: Face) -> (r: usize)
    requires
        put_texts(cell_views(old(row)@), x as int, ts@.map_values(|t: (String, Face)| text_face_view(t)), base).1 <= usize::MAX,
    ensures
        (cell_views(final(row)@), r as int) == put_texts(
            cell_views(old(row)@),
            x as int,
            ts@.map_values(|t: (String, Face)| text_face_view(t)),
            base,
        ),
{
    let ghost tv = ts@.map_values(|t: (String, Face)| text_face_view(t));
    let ghost goal = put_texts(cell_views(row@), x as int, tv, base);
    let mut x = x;
    let mut k: usize = 0;
    proof {
        assert(tv.skip(0) == tv);
    }
    while k < ts.len()
        invariant
            k <= ts@.len(),
            tv == ts@.map_values(|t: (String, Face)| text_face_view(t)),
            goal == put_texts(cell_views(row@), x as int, tv.skip(k as int), base),
            goal.1 <= usize::MAX,
        decreases ts@.len() - k,
    {
        proof {
            assert(tv.skip(k as int)[0] == text_face_view(ts@[k as int]));
            assert(tv.skip(k as int).drop_first() == tv.skip(k + 1));
            let f = merged_face(base, ts@[k as int].1);
            let st = put_clusters(cell_views(row@), x as int, grapheme_clusters(ts@[k as int].0@), f);
            lemma_put_texts_grows(st.0, st.1, tv.skip(k + 1), base);
        }
        let mut face = base;
        face.merge(ts[k].1);
        x = put_text(row, x, &ts[k].0, face);
        k = k + 1;
    }
    proof {
        assert(tv.skip(k as int) =~= Seq::<(Seq<char>, Face)>::empty());
    }
    x
}

/// Writes spaces over the columns `from..to` of the row.
fn put_spaces(row: &mut Vec<Cell>, from: usize, to: usize, face: Face)
    requires
        to <= old(row)@.len(),
    ensures
        cell_views(final(row)@) == fill_spaces(cell_views(old(row)@), from as int, to as int, face),
{
    let ghost r0 = cell_views(row@);
    let mut p = from;
    proof {
        assert(cell_views(row@) =~= fill_spaces(r0, from as int, from as int, face));
    }
    while p < to
        invariant
            from <= p,
            p <= to || p == from,
            to <= row@.len(),
            row@.len() == r0.len(),
            cell_views(row@) == fill_spaces(r0, from as int, p as int, face),
        decreases to - p,
    {
        let ghost r1 = cell_views(row@);
        row.set(p, Cell::space(face));
        proof {
            assert(cell_views(row@) =~= r1.update(p as int, space_cell(face)));
            assert(cell_views(row@) =~= fill_spaces(r0, from as int, p + 1, face));
        }
        p = p + 1;
    }
    proof {
        assert(cell_views(row@) =~= fill_spaces(r0, from as int, to as int, face));
    }
}

/// The columns of the texts, summed.
fn texts_columns(ts: &Vec<(String, Face)>) -> (r: usize)
    requires
        texts_width(ts@.map_values(|t: (String, Face)| text_face_view(t))) <= usize::MAX,
    ensures
        r == texts_width(ts@.map_values(|t: (String, Face)| text_face_view(t))),
{
    let ghost tv = ts@.map_values(|t: (String, Face)| text_face_view(t));
    let mut r: usize = 0;
    let mut k: usize = 0;
    proof {
        assert(tv.take(0) =~= Seq::<(Seq<char>, Face)>::empty());
    }
    while k < ts.len()
        invariant
            k <= ts@.len(),
            tv == ts@.map_values(|t: (String, Face)| text_face_view(t)),
            texts_width(tv) <= usize::MAX,
            r == texts_width(tv.take(k as int)),
        decreases ts@.len() - k,
    {
        proof {
            lemma_texts_width_prefix(tv, k + 1);
            assert(tv.take(k + 1).drop_last() == tv.take(k as int));
            assert(tv.take(k + 1).last() == text_face_view(ts@[k as int]));
        }
        let gs = graphemes(ts[k].0.as_str());
        let ghost gv = grapheme_clusters(ts@[k as int].0@);
        let mut j: usize = 0;
        let ghost r0 = r as int;
        proof {
            assert(gv.take(0) =~= Seq::<Seq<char>>::empty());
        }
        while j < gs.len()
            invariant
                j <= gs@.len(),
                string_views(gs@) == gv,
                r0 + clusters_width(gv) <= usize::MAX,
                r == r0 + clusters_width(gv.take(j as int)),
            decreases gs@.len() - j,
        {
            proof {
                lemma_clusters_width_prefix(gv, j + 1);
                assert(gv.take(j + 1).drop_last() == gv.take(j as int));
                assert(gv.take(j + 1).last() == gs@[j as int]@);
            }
            r = r + width(gs[j].as_str());
            j = j + 1;
        }
        proof {
            assert(gv.take(gs@.len() as int) == gv);
        }
        k = k + 1;
    }
    proof {
        assert(tv.take(ts@.len() as int) == tv);
    }
    r
}

/// The mode line of a view `w` columns wide, from the texts of its left and
/// right widgets.
pub fn mode_line_row(left: &Vec<(String, Face)>, right: &Vec<(String, Face)>, w: usize) -> (row: Vec<Cell>)
    requires
        mode_line_fits(
            left@.map_values(|t: (String, Face)| text_face_view(t)),
            right@.map_values(|t: (String, Face)| text_face_view(t)),
            w as int,
        ),
    ensures
        cell_views(row@) == mode_line_spec(
            left@.map_values(|t: (String, Face)| text_face_view(t)),
            right@.map_values(|t: (String, Face)| text_face_view(t)),
            w as int,
        ),
{
    let mut base = Face::plain();
    base.reverse = Some(true);
    let mut row: Vec<Cell> = Vec::new();
    let mut p: usize = 0;
    while p < w
        invariant
            p <= w,
            base == reversed(plain_face()),
            cell_views(row@) == Seq::new(p as nat, |q: int| space_cell(base)),
        decreases w - p,
    {
        let ghost r0 = cell_views(row@);
        row.push(Cell::space(base));
        proof {
            assert(cell_views(row@) =~= r0.push(space_cell(base)));
            assert(cell_views(row@) =~= Seq::new((p + 1) as nat, |q: int| space_cell(base)));
        }
        p = p + 1;
    }
    let ghost row0 = cell_views(row@);
    proof {
        lemma_put_texts_grows(row0, 0, left@.map_values(|t: (String, Face)| text_face_view(t)), base);
    }
    let x1 = put_text_list(&mut row, 0, left, base);
    let rw = texts_columns(right);
    let rs = if w >= rw {
        w - rw
    } else {
        0
    };
    put_spaces(&mut row, x1, rs, base);
    let x2 = if x1 < rs {
        rs
    } else {
        x1
    };
    let x3 = put_text_list(&mut row, x2, right, base);
    proof {
        lemma_put_texts_grows(
            fill_spaces(put_texts(row0, 0, left@.map_values(|t: (String, Face)| text_face_view(t)), base).0, x1 as int, rs as int, base),
            x2 as int,
            right@.map_values(|t: (String, Face)| text_face_view(t)),
            base,
        );
    }
    put_spaces(&mut row, x3, w, base);
    row
}

/// A part of the mode line.
pub enum ModeLineWidget {
    /// The view's mode, as `[NORMAL]`.
    Mode { face: Face },
    /// The document's path, `*` marking unsaved changes, as `[notes.txt*]`;
    /// `[SCRATCHPAD]` for a document without a file.
    FilePath { face: Face },
    /// The first cursor's line and column, counted from 1, and the number of
    /// cursors, as `[3:7 1]`.
    CursorPos { face: Face },
    /// A fixed text.
    Text { text: String, face: Face },
}

/// `[`, the text and `]`.
pub open spec fn bracketed(t: Seq<char>) -> Seq<char> {
    seq!['['] + t + seq![']']
}

/// The column of the first cursor: that of the first mapping at or after it
/// on its line, or 0.
pub open spec fn cursor_column(t: Seq<u8>, tab: int, decs: Seq<Span<Decoration>>, cs: Seq<Cursor>) -> int {
    let offset = if cs.len() > 0 { cs[0].offset as int } else { 0 };
    match first_at_or_after(line_vom(t, line_of(t, offset), tab, decs), offset) {
        Some(m) => m.0,
        None => 0,
    }
}

/// The text of the cursor position widget.
pub open spec fn cursor_pos_text(t: Seq<u8>, tab: int, decs: Seq<Span<Decoration>>, cs: Seq<Cursor>) -> Seq<char> {
    let offset = if cs.len() > 0 { cs[0].offset as int } else { 0 };
    bracketed(
        decimal_text((line_of(t, offset) + 1) as nat) + seq![':'] + decimal_text(
            (cursor_column(t, tab, decs, cs) + 1) as nat,
        ) + seq![' '] + decimal_text(cs.len()),
    )
}

/// The text of the file path widget.
pub open spec fn file_path_text(path: Option<Seq<char>>, modified: bool) -> Seq<char> {
    let star = if modified { seq!['*'] } else { Seq::empty() };
    match path {
        Some(p) => bracketed(p + star),
        None => bracketed(seq!['S', 'C', 'R', 'A', 'T', 'C', 'H', 'P', 'A', 'D'] + star),
    }
}

/// The file path widget of a modified document shows what it shows
/// unmodified with a `*` before the closing bracket, with a path or without;
/// unmodified it shows the path, or `SCRATCHPAD`, in brackets.
pub proof fn lemma_file_path_mark(path: Option<Seq<char>>)
    ensures
        file_path_text(path, true) == file_path_text(path, false).drop_last() + seq!['*', ']'],
        file_path_text(path, false).last() == ']',
        file_path_text(path, false)[0] == '[',
        path matches Some(p) ==> file_path_text(path, false) == seq!['['] + p + seq![']'],
        path is None ==> file_path_text(path, false) == seq!['[', 'S', 'C', 'R', 'A', 'T', 'C', 'H', 'P', 'A', 'D', ']'],
{
    let name = match path {
        Some(p) => p,
        None => seq!['S', 'C', 'R', 'A', 'T', 'C', 'H', 'P', 'A', 'D'],
    };
    assert(file_path_text(path, false) =~= seq!['['] + name + seq![']']);
    assert(file_path_text(path, true) =~= seq!['['] + name + seq!['*'] + seq![']']);
    assert((seq!['['] + name + seq![']']).drop_last() =~= seq!['['] + name);
    assert(file_path_text(path, true) =~= (seq!['['] + name) + seq!['*', ']']);
}

/// The view of an optional string.
pub open spec fn opt_view(p: Option<String>) -> Option<Seq<char>> {
    match p {
        Some(s) => Some(s@),
        None => None,
    }
}

/// `s` in brackets.
fn in_brackets(s: &String) -> (r: String)
    ensures
        r@ == bracketed(s@),
{
    let mut r = "[".to_owned();
    r.append(s.as_str());
    r.append("]");
    proof {
        reveal_strlit("[");
        reveal_strlit("]");
        assert(r@ =~= bracketed(s@));
    }
    r
}

/// The line and the column of the first cursor (offset 0 without cursors):
/// the column of the first mapping of its line at or after its offset.
pub(crate) fn cursor_col(table: &PieceTable, cursors: &Vec<Cursor>, tab_width: usize, decs: &[Span<Decoration>]) -> (r: (usize, usize))
    requires
        table.wf(),
        valid_utf8(table.text()),
        layout_ok(table.text(), tab_width as int, decs@),
    ensures
        r.0 == line_of(table.text(), if cursors@.len() > 0 { cursors@[0].offset as int } else { 0 }),
        r.0 < crate::text_lines::num_lines(table.text()),
        r.0 < usize::MAX,
        r.1 == cursor_column(table.text(), tab_width as int, decs@, cursors@),
{
    let offset = if cursors.len() > 0 {
        cursors[0].offset
    } else {
        0
    };
    let y = line_at(table, offset);
    let _ = table.lines();
    let line = crate::text_lines::line_text(table, y);
    let start = table.get_line_start_byte(y);
    proof {
        assert(crate::layout::vom_fits(
            crate::text_lines::line_chars(table.text(), y as int),
            crate::piece_table::line_start(table.text(), y as int),
            tab_width as int,
            decs@,
        ));
    }
    let (vom, _) = crate::layout::layout_vom(line.as_str(), start, tab_width, decs);
    let mut x: usize = 0;
    let mut k: usize = 0;
    let ghost m = crate::layout::mapping_pairs(vom@);
    proof {
        assert(m.skip(0) == m);
    }
    while k < vom.len()
        invariant
            k <= vom@.len(),
            m == crate::layout::mapping_pairs(vom@),
            x == 0,
            first_at_or_after(m, offset as int) == first_at_or_after(m.skip(k as int), offset as int),
        ensures
            first_at_or_after(m, offset as int) == (if x == 0 && k == vom@.len() { None } else { first_at_or_after(m.skip(k as int), offset as int) }),
            k < vom@.len() ==> first_at_or_after(m, offset as int) == Some(m[k as int]),
        decreases vom@.len() - k,
    {
        proof {
            assert(m.skip(k as int)[0] == m[k as int]);
            assert(m.skip(k as int).drop_first() == m.skip(k + 1));
        }
        if vom[k].offset >= offset {
            break;
        }
        k = k + 1;
    }
    if k < vom.len() {
        x = vom[k].visual_x;
    } else {
        proof {
            assert(m.skip(k as int) =~= Seq::<(int, int)>::empty());
        }
    }
    (y, x)
}

impl ModeLineWidget {
    /// The texts the widget shows, each with its face.
    pub fn render(
        &self,
        mode: ViewMode,
        path: &Option<String>,
        modified: bool,
        table: &PieceTable,
        cursors: &Vec<Cursor>,
        tab_width: usize,
        decs: &[Span<Decoration>],
    ) -> (r: Vec<(String, Face)>)
        requires
            table.wf(),
            self is CursorPos ==> layout_ok(table.text(), tab_width as int, decs@),
            self is CursorPos ==> cursor_column(table.text(), tab_width as int, decs@, cursors@) < usize::MAX,
        ensures
            r@.len() == 1,
            r@[0].1 == match self {
                ModeLineWidget::Mode { face } => *face,
                ModeLineWidget::FilePath { face } => *face,
                ModeLineWidget::CursorPos { face } => *face,
                ModeLineWidget::Text { face, .. } => *face,
            },
            r@[0].0@ == match self {
                ModeLineWidget::Mode { .. } => bracketed(mode_name(mode)),
                ModeLineWidget::FilePath { .. } => file_path_text(opt_view(*path), modified),
                ModeLineWidget::CursorPos { .. } => cursor_pos_text(table.text(), tab_width as int, decs@, cursors@),
                ModeLineWidget::Text { text, .. } => text@,
            },
    {
        let (text, face) = match self {
            ModeLineWidget::Mode { face } => (in_brackets(&mode.name()), *face),
            ModeLineWidget::FilePath { face } => {
                let mut inner = match path {
                    Some(p) => p.clone(),
                    None => {
                        let s = "SCRATCHPAD".to_owned();
                        proof {
                            reveal_strlit("SCRATCHPAD");
                        }
                        s
                    },
                };
                if modified {
                    inner.append("*");
                    proof {
                        reveal_strlit("*");
                    }
                }
                let t = in_brackets(&inner);
                proof {
                    let star = if modified { seq!['*'] } else { Seq::<char>::empty() };
                    if path.is_some() {
                        assert(inner@ =~= path.unwrap()@ + star);
                    } else {
                        assert(inner@ =~= seq!['S', 'C', 'R', 'A', 'T', 'C', 'H', 'P', 'A', 'D'] + star);
                    }
                }
                (t, *face)
            },
            ModeLineWidget::CursorPos { face } => {
                let (y, x) = cursor_col(table, cursors, tab_width, decs);
                let mut s = "[".to_owned();
                s.append(decimal(y + 1).as_str());
                s.append(":");
                s.append(decimal(x + 1).as_str());
                s.append(" ");
                s.append(decimal(cursors.len()).as_str());
                s.append("]");
                proof {
                    reveal_strlit("[");
                    reveal_strlit(":");
                    reveal_strlit(" ");
                    reveal_strlit("]");
                    assert(s@ =~= cursor_pos_text(table.text(), tab_width as int, decs@, cursors@));
                }
                (s, *face)
            },
            ModeLineWidget::Text { text, face } => (text.clone(), *face),
        };
        let mut r: Vec<(String, Face)> = Vec::new();
        r.push((text, face));
        r
    }
}

/// The widgets of a mode line, from the left edge and from the right edge.
pub struct ModeLineConfig {
    pub left: Vec<ModeLineWidget>,
    pub right: Vec<ModeLineWidget>,
}

impl Default for ModeLineConfig {
    /// The mode and the file path on the left, the cursor position on the
    /// right.
    fn default() -> (c: Self)
        ensures
            c.left@.len() == 2,
            c.left@[0] == (ModeLineWidget::Mode { face: plain_face() }),
            c.left@[1] == (ModeLineWidget::FilePath { face: plain_face() }),
            c.right@.len() == 1,
            c.right@[0] == (ModeLineWidget::CursorPos { face: plain_face() }),
    {
        let mut left = Vec::new();
        left.push(ModeLineWidget::Mode { face: Face::plain() });
        left.push(ModeLineWidget::FilePath { face: Face::plain() });
        let mut right = Vec::new();
        right.push(ModeLineWidget::CursorPos { face: Face::plain() });
        ModeLineConfig { left, right }
    }
}

} // verus!
