use vstd::prelude::*;
use vstd::utf8::encode_utf8;

use crate::cell::{cell_views, Cell, CellView};
use crate::types::{merged_face, plain_face, Decoration, Face, Span};
use crate::unicode::{
    ends_with_newline, grapheme_clusters, graphemes, str_width, string_views, width,
};

verus! {

/// The visual column at which a byte offset of a line is drawn.
#[derive(Clone, Copy, PartialEq, Eq, Structural, Debug)]
pub struct VisualOffsetMapping {
    pub visual_x: usize,
    pub offset: usize,
}

/// What the decorations do to one grapheme: the face laid over it, whether it
/// is replaced, the replacement that starts at it and the virtual texts drawn
/// before it.
pub struct Applied {
    pub face: Face,
    pub replace: bool,
    pub replacement: Option<(String, Face)>,
    pub virtual_texts: Vec<(String, Face)>,
}

/// The mathematical model of `Applied`, with texts as `char` sequences.
pub struct AppliedView {
    pub face: Face,
    pub replace: bool,
    pub replacement: Option<(Seq<char>, Face)>,
    pub virtual_texts: Seq<(Seq<char>, Face)>,
}

/// The view of a text paired with a face.
pub open spec fn text_face_view(t: (String, Face)) -> (Seq<char>, Face) {
    (t.0@, t.1)
}

impl View for Applied {
    type V = AppliedView;

    open spec fn view(&self) -> AppliedView {
        AppliedView {
            face: self.face,
            replace: self.replace,
            replacement: match self.replacement {
                Some(r) => Some(text_face_view(r)),
                None => None,
            },
            virtual_texts: self.virtual_texts@.map_values(|t: (String, Face)| text_face_view(t)),
        }
    }
}

/// Whether a span reaches the grapheme of `len` bytes at `offset`: it starts
/// no later than the grapheme's end and ends no earlier than its start.
pub open spec fn touches(s: Span<Decoration>, offset: int, len: int) -> bool {
    s.start <= offset + len && s.end >= offset
}

/// `acc` after the span `s` is taken into account.
pub open spec fn apply_span(acc: AppliedView, s: Span<Decoration>, offset: int, len: int) -> AppliedView {
    if !touches(s, offset, len) {
        acc
    } else {
        match s.data {
            Decoration::Style { face } => AppliedView {
                face: merged_face(acc.face, face),
                replace: acc.replace,
                replacement: acc.replacement,
                virtual_texts: acc.virtual_texts,
            },
            Decoration::Replace { text, face } => AppliedView {
                face: acc.face,
                replace: true,
                replacement: if s.start == offset {
                    Some((text@, face))
                } else {
                    acc.replacement
                },
                virtual_texts: acc.virtual_texts,
            },
            Decoration::VirtualText { text, face } => AppliedView {
                face: acc.face,
                replace: acc.replace,
                replacement: acc.replacement,
                virtual_texts: if s.start == offset {
                    acc.virtual_texts.push((text@, face))
                } else {
                    acc.virtual_texts
                },
            },
        }
    }
}

/// What the spans `decs`, taken in order, do to the grapheme of `len` bytes
/// at `offset`.
pub open spec fn applied(decs: Seq<Span<Decoration>>, offset: int, len: int) -> AppliedView
    decreases decs.len(),
{
    if decs.len() == 0 {
        AppliedView {
            face: plain_face(),
            replace: false,
            replacement: None,
            virtual_texts: Seq::empty(),
        }
    } else {
        apply_span(applied(decs.drop_last(), offset, len), decs.last(), offset, len)
    }
}

/// The texts of the virtual-text spans of `decs` that start at `offset`, in
/// order.
pub open spec fn texts_at(decs: Seq<Span<Decoration>>, offset: int) -> Seq<(Seq<char>, Face)>
    decreases decs.len(),
{
    if decs.len() == 0 {
        Seq::empty()
    } else {
        let rest = texts_at(decs.drop_last(), offset);
        let s = decs.last();
        match s.data {
            Decoration::VirtualText { text, face } => if s.start == offset {
                rest.push((text@, face))
            } else {
                rest
            },
            _ => rest,
        }
    }
}

/// The columns a sequence of graphemes takes.
pub open spec fn clusters_width(gs: Seq<Seq<char>>) -> int
    decreases gs.len(),
{
    if gs.len() == 0 {
        0
    } else {
        clusters_width(gs.drop_last()) + str_width(gs.last())
    }
}

/// The columns a text takes, grapheme by grapheme.
pub open spec fn text_width(t: Seq<char>) -> int {
    clusters_width(grapheme_clusters(t))
}

/// The columns a sequence of texts takes.
pub open spec fn texts_width(ts: Seq<(Seq<char>, Face)>) -> int
    decreases ts.len(),
{
    if ts.len() == 0 {
        0
    } else {
        texts_width(ts.drop_last()) + text_width(ts.last().0)
    }
}

/// The columns a grapheme of a line takes at column `visual_x`: a tab
/// reaches the next multiple of `tab`, a newline takes none.
pub open spec fn char_width(g: Seq<char>, visual_x: int, tab: int) -> int {
    if g == seq!['\t'] {
        tab - visual_x % tab
    } else if g == seq!['\n'] {
        0
    } else {
        str_width(g) as int
    }
}

/// The number of bytes of a grapheme.
pub open spec fn byte_len(g: Seq<char>) -> int {
    encode_utf8(g).len() as int
}

/// Whether a text ends with a newline.
pub open spec fn ends_nl(s: Seq<char>) -> bool {
    s.len() > 0 && s.last() == '\n'
}

/// Progress through a line when mapping offsets to columns.
pub struct VomState {
    pub visual_x: int,
    pub offset: int,
    pub vom: Seq<(int, int)>,
}

/// The mappings as pairs of column and offset.
pub open spec fn mapping_pairs(v: Seq<VisualOffsetMapping>) -> Seq<(int, int)> {
    v.map_values(|m: VisualOffsetMapping| (m.visual_x as int, m.offset as int))
}

/// One grapheme of the line: virtual texts starting at it move the column
/// on; it gets a mapping unless a replacement that starts elsewhere hides it;
/// then its replacement, or the grapheme itself, moves the column on.
pub open spec fn vom_step(st: VomState, g: Seq<char>, decs: Seq<Span<Decoration>>, tab: int) -> VomState {
    let len = byte_len(g);
    let a = applied(decs, st.offset, len);
    let vx = st.visual_x + texts_width(a.virtual_texts);
    let vom = if !a.replace || a.replacement.is_some() {
        st.vom.push((vx, st.offset))
    } else {
        st.vom
    };
    if a.replace {
        VomState {
            visual_x: match a.replacement {
                Some(r) => vx + text_width(r.0),
                None => vx,
            },
            offset: st.offset + len,
            vom,
        }
    } else {
        VomState { visual_x: vx + char_width(g, vx, tab), offset: st.offset + len, vom }
    }
}

/// `vom_step` over a sequence of graphemes.
pub open spec fn vom_fold(
    gs: Seq<Seq<char>>,
    start: VomState,
    decs: Seq<Span<Decoration>>,
    tab: int,
) -> VomState
    decreases gs.len(),
{
    if gs.len() == 0 {
        start
    } else {
        vom_step(vom_fold(gs.drop_last(), start, decs, tab), gs.last(), decs, tab)
    }
}

/// The offset to column mapping of a line that starts at byte `offset`: the
/// steps over its graphemes, and, for a last line without a newline, the
/// virtual texts at its end and a mapping for the end itself.
pub open spec fn vom_spec(line: Seq<char>, offset: int, tab: int, decs: Seq<Span<Decoration>>) -> VomState {
    let st = vom_fold(
        grapheme_clusters(line),
        VomState { visual_x: 0, offset, vom: Seq::empty() },
        decs,
        tab,
    );
    if ends_nl(line) {
        st
    } else {
        let vx = st.visual_x + texts_width(texts_at(decs, st.offset));
        VomState { visual_x: vx, offset: st.offset, vom: st.vom.push((vx, st.offset)) }
    }
}

pub proof fn lemma_clusters_width_prefix(gs: Seq<Seq<char>>, i: int)
    requires
        0 <= i <= gs.len(),
    ensures
        0 <= clusters_width(gs.take(i)) <= clusters_width(gs),
    decreases gs.len(),
{
    if i < gs.len() {
        lemma_clusters_width_prefix(gs.drop_last(), i);
        assert(gs.drop_last().take(i) == gs.take(i));
    } else {
        assert(gs.take(i) == gs);
        if gs.len() > 0 {
            lemma_clusters_width_prefix(gs.drop_last(), i - 1);
            assert(gs.drop_last().take(i - 1) == gs.drop_last());
        }
    }
}

pub proof fn lemma_texts_width_prefix(ts: Seq<(Seq<char>, Face)>, i: int)
    requires
        0 <= i <= ts.len(),
    ensures
        0 <= texts_width(ts.take(i)) <= texts_width(ts),
    decreases ts.len(),
{
    if ts.len() > 0 {
        lemma_clusters_width_prefix(grapheme_clusters(ts.last().0), grapheme_clusters(ts.last().0).len() as int);
        assert(grapheme_clusters(ts.last().0).take(grapheme_clusters(ts.last().0).len() as int)
            == grapheme_clusters(ts.last().0));
        if i < ts.len() {
            lemma_texts_width_prefix(ts.drop_last(), i);
            assert(ts.drop_last().take(i) == ts.take(i));
        } else {
            assert(ts.take(i) == ts);
            lemma_texts_width_prefix(ts.drop_last(), i - 1);
            assert(ts.drop_last().take(i - 1) == ts.drop_last());
        }
    }
}

pub proof fn lemma_texts_at_width_prefix(decs: Seq<Span<Decoration>>, offset: int, j: int)
    requires
        0 <= j <= decs.len(),
    ensures
        0 <= texts_width(texts_at(decs.take(j), offset)) <= texts_width(texts_at(decs, offset)),
    decreases decs.len(),
{
    if decs.len() > 0 {
        let rest = texts_at(decs.drop_last(), offset);
        lemma_texts_width_prefix(texts_at(decs, offset), rest.len() as int);
        if j < decs.len() {
            lemma_texts_at_width_prefix(decs.drop_last(), offset, j);
            assert(decs.drop_last().take(j) == decs.take(j));
        } else {
            assert(decs.take(j) == decs);
            lemma_texts_at_width_prefix(decs.drop_last(), offset, j - 1);
            assert(decs.drop_last().take(j - 1) == decs.drop_last());
        }
        assert(texts_at(decs, offset).take(rest.len() as int) == rest);
    }
}

/// Tab stops are `tab` columns apart, or the graphemes hold no tab.
pub open spec fn tabs_ok(gs: Seq<Seq<char>>, tab: int) -> bool {
    tab > 0 || forall|i: int| 0 <= i < gs.len() ==> #[trigger] gs[i] != seq!['\t']
}

/// What holds of the graphemes holds of all but the last.
pub proof fn lemma_tabs_ok_drop_last(gs: Seq<Seq<char>>, tab: int)
    requires
        tabs_ok(gs, tab),
        gs.len() > 0,
    ensures
        tabs_ok(gs.drop_last(), tab),
        tab > 0 || gs.last() != seq!['\t'],
{
    if tab <= 0 {
        assert forall|i: int| 0 <= i < gs.drop_last().len() implies #[trigger] gs.drop_last()[i] != seq!['\t'] by {
            assert(gs.drop_last()[i] == gs[i]);
        }
        assert(gs.last() == gs[gs.len() - 1]);
    }
}

/// A step never moves the column or the offset back.
pub proof fn lemma_vom_step_grows(st: VomState, g: Seq<char>, decs: Seq<Span<Decoration>>, tab: int)
    requires
        tab > 0 || g != seq!['\t'],
        st.visual_x >= 0,
    ensures
        vom_step(st, g, decs, tab).visual_x >= st.visual_x + texts_width(
            applied(decs, st.offset, byte_len(g)).virtual_texts,
        ),
        st.visual_x + texts_width(applied(decs, st.offset, byte_len(g)).virtual_texts) >= st.visual_x,
        vom_step(st, g, decs, tab).offset == st.offset + byte_len(g),
{
    let a = applied(decs, st.offset, byte_len(g));
    lemma_texts_width_prefix(a.virtual_texts, 0);
    assert(a.virtual_texts.take(0) =~= Seq::<(Seq<char>, Face)>::empty());
    match a.replacement {
        Some(r) => {
            lemma_clusters_width_prefix(grapheme_clusters(r.0), 0);
            assert(grapheme_clusters(r.0).take(0) =~= Seq::<Seq<char>>::empty());
        },
        None => {},
    }
}

pub proof fn lemma_vom_fold_grows(
    gs: Seq<Seq<char>>,
    i: int,
    start: VomState,
    decs: Seq<Span<Decoration>>,
    tab: int,
)
    requires
        0 <= i <= gs.len(),
        tabs_ok(gs, tab),
        start.visual_x >= 0,
    ensures
        start.visual_x <= vom_fold(gs.take(i), start, decs, tab).visual_x <= vom_fold(
            gs,
            start,
            decs,
            tab,
        ).visual_x,
        vom_fold(gs.take(i), start, decs, tab).offset <= vom_fold(gs, start, decs, tab).offset,
    decreases gs.len(),
{
    if gs.len() > 0 {
        lemma_tabs_ok_drop_last(gs, tab);
        if i < gs.len() {
            lemma_vom_fold_grows(gs.drop_last(), i, start, decs, tab);
            assert(gs.drop_last().take(i) == gs.take(i));
        } else {
            assert(gs.take(i) == gs);
            lemma_vom_fold_grows(gs.drop_last(), i - 1, start, decs, tab);
            assert(gs.drop_last().take(i - 1) == gs.drop_last());
        }
        let prev = vom_fold(gs.drop_last(), start, decs, tab);
        lemma_vom_step_grows(prev, gs.last(), decs, tab);
        assert(byte_len(gs.last()) >= 0);
    }
}

/// The mappings are ordered: offsets strictly increase and columns never
/// decrease.
pub open spec fn ordered_mappings(v: Seq<(int, int)>) -> bool {
    forall|i: int, j: int| 0 <= i < j < v.len() ==> v[i].1 < v[j].1 && v[i].0 <= v[j].0
}

/// A non-empty text takes at least one byte.
pub proof fn lemma_byte_len_pos(g: Seq<char>)
    requires
        g.len() > 0,
    ensures
        byte_len(g) > 0,
{
    assert(vstd::utf8::encode_scalar(g[0] as u32).len() > 0);
    assert(encode_utf8(g) == vstd::utf8::encode_scalar(g[0] as u32) + encode_utf8(g.drop_first()));
}

#[verifier::spinoff_prover]
#[verifier::rlimit(40)]
proof fn lemma_vom_fold_ordered(gs: Seq<Seq<char>>, start: VomState, decs: Seq<Span<Decoration>>, tab: int)
    requires
        tabs_ok(gs, tab),
        start.visual_x >= 0,
        start.vom.len() == 0,
        forall|i: int| 0 <= i < gs.len() ==> #[trigger] gs[i].len() > 0,
    ensures
        ordered_mappings(vom_fold(gs, start, decs, tab).vom),
        forall|k: int|
            0 <= k < vom_fold(gs, start, decs, tab).vom.len() ==> #[trigger] vom_fold(gs, start, decs, tab).vom[k].1
                < vom_fold(gs, start, decs, tab).offset && vom_fold(gs, start, decs, tab).vom[k].0 <= vom_fold(
                gs,
                start,
                decs,
                tab,
            ).visual_x,
        vom_fold(gs, start, decs, tab).visual_x >= start.visual_x,
    decreases gs.len(),
{
    if gs.len() > 0 {
        lemma_tabs_ok_drop_last(gs, tab);
        let p = gs.drop_last();
        assert forall|i: int| 0 <= i < p.len() implies #[trigger] p[i].len() > 0 by {
            assert(p[i] == gs[i]);
        }
        lemma_vom_fold_ordered(p, start, decs, tab);
        let st = vom_fold(p, start, decs, tab);
        let g = gs.last();
        assert(g == gs[gs.len() - 1]);
        lemma_byte_len_pos(g);
        lemma_vom_step_grows(st, g, decs, tab);
        let nx = vom_step(st, g, decs, tab);
        let a = applied(decs, st.offset, byte_len(g));
        let vx = st.visual_x + texts_width(a.virtual_texts);
        if !a.replace || a.replacement.is_some() {
            assert(nx.vom == st.vom.push((vx, st.offset)));
        } else {
            assert(nx.vom == st.vom);
        }
        match a.replacement {
            Some(r) => {
                lemma_clusters_width_prefix(grapheme_clusters(r.0), 0);
                assert(grapheme_clusters(r.0).take(0) =~= Seq::<Seq<char>>::empty());
            },
            None => {},
        }
    }
}

/// The offset to column mapping of a line is ordered: its offsets strictly
/// increase and its columns never decrease, for graphemes that are not
/// empty (as `unicode-segmentation` hands them out).
pub proof fn lemma_vom_ordered(line: Seq<char>, offset: int, tab: int, decs: Seq<Span<Decoration>>)
    requires
        tabs_ok(grapheme_clusters(line), tab),
        forall|i: int| 0 <= i < grapheme_clusters(line).len() ==> #[trigger] grapheme_clusters(line)[i].len() > 0,
    ensures
        ordered_mappings(vom_spec(line, offset, tab, decs).vom),
{
    let start = VomState { visual_x: 0, offset, vom: Seq::empty() };
    lemma_vom_fold_ordered(grapheme_clusters(line), start, decs, tab);
    let st = vom_fold(grapheme_clusters(line), start, decs, tab);
    if !ends_nl(line) {
        let vx = st.visual_x + texts_width(texts_at(decs, st.offset));
        lemma_texts_at_width_prefix(decs, st.offset, 0);
        assert(decs.take(0) =~= Seq::<Span<Decoration>>::empty());
        let v = st.vom.push((vx, st.offset));
        assert forall|i: int, j: int| 0 <= i < j < v.len() implies v[i].1 < v[j].1 && v[i].0 <= v[j].0 by {
            if j == v.len() - 1 {
                assert(v[i] == st.vom[i]);
            } else {
                assert(v[i] == st.vom[i] && v[j] == st.vom[j]);
            }
        }
    }
}

proof fn lemma_vom_fold_bounds(gs: Seq<Seq<char>>, start: VomState, decs: Seq<Span<Decoration>>, tab: int)
    requires
        tabs_ok(gs, tab),
        start.visual_x >= 0,
        start.vom.len() == 0,
    ensures
        vom_fold(gs, start, decs, tab).visual_x >= 0,
        vom_fold(gs, start, decs, tab).offset >= start.offset,
        forall|k: int|
            0 <= k < vom_fold(gs, start, decs, tab).vom.len() ==> #[trigger] vom_fold(gs, start, decs, tab).vom[k].0
                >= 0 && vom_fold(gs, start, decs, tab).vom[k].1 >= start.offset,
    decreases gs.len(),
{
    if gs.len() > 0 {
        lemma_tabs_ok_drop_last(gs, tab);
        lemma_vom_fold_bounds(gs.drop_last(), start, decs, tab);
        let st = vom_fold(gs.drop_last(), start, decs, tab);
        let g = gs.last();
        lemma_vom_step_grows(st, g, decs, tab);
        vstd::utf8::encode_utf8_valid_utf8(g);
        assert(byte_len(g) >= 0);
        let a = applied(decs, st.offset, byte_len(g));
        let vx = st.visual_x + texts_width(a.virtual_texts);
        let nx = vom_step(st, g, decs, tab);
        if !a.replace || a.replacement.is_some() {
            assert(nx.vom == st.vom.push((vx, st.offset)));
        } else {
            assert(nx.vom == st.vom);
        }
    }
}

/// The columns of a line's mappings are not negative and its offsets are
/// not before the line's first byte.
pub proof fn lemma_vom_bounds(line: Seq<char>, offset: int, tab: int, decs: Seq<Span<Decoration>>)
    requires
        tabs_ok(grapheme_clusters(line), tab),
    ensures
        forall|k: int|
            0 <= k < vom_spec(line, offset, tab, decs).vom.len() ==> #[trigger] vom_spec(line, offset, tab, decs).vom[k].0
                >= 0 && vom_spec(line, offset, tab, decs).vom[k].1 >= offset,
{
    let start = VomState { visual_x: 0, offset, vom: Seq::empty() };
    lemma_vom_fold_bounds(grapheme_clusters(line), start, decs, tab);
    let st = vom_fold(grapheme_clusters(line), start, decs, tab);
    if !ends_nl(line) {
        lemma_texts_at_width_prefix(decs, st.offset, 0);
        assert(decs.take(0) =~= Seq::<Span<Decoration>>::empty());
        let vx = st.visual_x + texts_width(texts_at(decs, st.offset));
        let v = st.vom.push((vx, st.offset));
        assert forall|k: int| 0 <= k < v.len() implies #[trigger] v[k].0 >= 0 && v[k].1 >= offset by {
            if k < st.vom.len() {
                assert(v[k] == st.vom[k]);
            }
        }
    }
}

/// Whether `layout_vom` on these arguments keeps its columns and offsets
/// within `usize`.
pub open spec fn vom_fits(line: Seq<char>, offset: int, tab: int, decs: Seq<Span<Decoration>>) -> bool {
    let st = vom_spec(line, offset, tab, decs);
    st.visual_x <= usize::MAX && st.offset <= usize::MAX
}


/// The cells of a grapheme of `w` columns: the grapheme, then `w - 1` empty
/// trailing cells.
pub open spec fn glyph(g: Seq<char>, w: int, face: Face) -> Seq<CellView> {
    seq![CellView { ch: g, width: w as usize, face }] + Seq::new(
        (w - 1) as nat,
        |k: int| CellView { ch: Seq::empty(), width: 0, face },
    )
}

/// `w` spaces of one column each.
pub open spec fn spaces(w: int, face: Face) -> Seq<CellView> {
    Seq::new(w as nat, |k: int| CellView { ch: seq![' '], width: 1, face })
}

/// The cells of a sequence of graphemes drawn with `face`, up to the first
/// grapheme of no width.
pub open spec fn emit_clusters(gs: Seq<Seq<char>>, face: Face) -> Seq<CellView>
    decreases gs.len(),
{
    if gs.len() == 0 || str_width(gs[0]) == 0 {
        Seq::empty()
    } else {
        glyph(gs[0], str_width(gs[0]) as int, face) + emit_clusters(gs.drop_first(), face)
    }
}

/// The columns of `emit_clusters(gs, _)`.
pub open spec fn emit_width(gs: Seq<Seq<char>>) -> int
    decreases gs.len(),
{
    if gs.len() == 0 || str_width(gs[0]) == 0 {
        0
    } else {
        str_width(gs[0]) + emit_width(gs.drop_first())
    }
}

/// The cells of a sequence of texts, each with its face.
pub open spec fn emit_texts(ts: Seq<(Seq<char>, Face)>) -> Seq<CellView>
    decreases ts.len(),
{
    if ts.len() == 0 {
        Seq::empty()
    } else {
        emit_texts(ts.drop_last()) + emit_clusters(grapheme_clusters(ts.last().0), ts.last().1)
    }
}

/// The columns of `emit_texts(ts)`.
pub open spec fn emit_texts_width(ts: Seq<(Seq<char>, Face)>) -> int
    decreases ts.len(),
{
    if ts.len() == 0 {
        0
    } else {
        emit_texts_width(ts.drop_last()) + emit_width(grapheme_clusters(ts.last().0))
    }
}

/// Progress through a line when laying it out in cells.
pub struct CellsState {
    pub visual_x: int,
    pub offset: int,
    pub cells: Seq<CellView>,
}

/// One grapheme of the line: the virtual texts that start at it, then its
/// replacement if one starts at it (nothing if a replacement that starts
/// elsewhere hides it), else the grapheme itself with the styles laid over
/// it, a tab as spaces up to the next tab stop.
pub open spec fn cells_step(st: CellsState, g: Seq<char>, decs: Seq<Span<Decoration>>, tab: int) -> CellsState {
    let len = byte_len(g);
    let a = applied(decs, st.offset, len);
    let cells = st.cells + emit_texts(a.virtual_texts);
    let vx = st.visual_x + emit_texts_width(a.virtual_texts);
    if a.replace {
        match a.replacement {
            Some(r) => CellsState {
                visual_x: vx + emit_width(grapheme_clusters(r.0)),
                offset: st.offset + len,
                cells: cells + emit_clusters(grapheme_clusters(r.0), r.1),
            },
            None => CellsState { visual_x: vx, offset: st.offset + len, cells },
        }
    } else {
        let w = char_width(g, vx, tab);
        if w > 0 {
            CellsState {
                visual_x: vx + w,
                offset: st.offset + len,
                cells: cells + if g == seq!['\t'] {
                    spaces(w, a.face)
                } else {
                    glyph(g, w, a.face)
                },
            }
        } else {
            CellsState { visual_x: vx, offset: st.offset + len, cells }
        }
    }
}

/// `cells_step` over a sequence of graphemes.
pub open spec fn cells_fold(
    gs: Seq<Seq<char>>,
    start: CellsState,
    decs: Seq<Span<Decoration>>,
    tab: int,
) -> CellsState
    decreases gs.len(),
{
    if gs.len() == 0 {
        start
    } else {
        cells_step(cells_fold(gs.drop_last(), start, decs, tab), gs.last(), decs, tab)
    }
}

/// The progress after the graphemes of a line that starts at byte `offset`.
pub open spec fn cells_end(line: Seq<char>, offset: int, tab: int, decs: Seq<Span<Decoration>>) -> CellsState {
    cells_fold(
        grapheme_clusters(line),
        CellsState { visual_x: 0, offset, cells: Seq::empty() },
        decs,
        tab,
    )
}

/// The cells of a line: those of its graphemes, and, for a last line without
/// a newline, the virtual texts at its end.
pub open spec fn cells_spec(line: Seq<char>, offset: int, tab: int, decs: Seq<Span<Decoration>>) -> Seq<
    CellView,
> {
    let st = cells_end(line, offset, tab, decs);
    if ends_nl(line) {
        st.cells
    } else {
        st.cells + emit_texts(texts_at(decs, st.offset))
    }
}

/// Whether `layout_cells` on these arguments keeps its columns and offsets
/// within `usize`.
pub open spec fn cells_fits(line: Seq<char>, offset: int, tab: int, decs: Seq<Span<Decoration>>) -> bool {
    let st = cells_end(line, offset, tab, decs);
    st.visual_x <= usize::MAX && st.offset <= usize::MAX
}

pub proof fn lemma_emit_width_nonneg(gs: Seq<Seq<char>>)
    ensures
        emit_width(gs) >= 0,
    decreases gs.len(),
{
    if gs.len() > 0 && str_width(gs[0]) != 0 {
        lemma_emit_width_nonneg(gs.drop_first());
    }
}

pub proof fn lemma_emit_texts_width_prefix(ts: Seq<(Seq<char>, Face)>, i: int)
    requires
        0 <= i <= ts.len(),
    ensures
        0 <= emit_texts_width(ts.take(i)) <= emit_texts_width(ts),
    decreases ts.len(),
{
    if ts.len() > 0 {
        lemma_emit_width_nonneg(grapheme_clusters(ts.last().0));
        if i < ts.len() {
            lemma_emit_texts_width_prefix(ts.drop_last(), i);
            assert(ts.drop_last().take(i) == ts.take(i));
        } else {
            assert(ts.take(i) == ts);
            lemma_emit_texts_width_prefix(ts.drop_last(), i - 1);
            assert(ts.drop_last().take(i - 1) == ts.drop_last());
        }
    }
}

/// A step never moves the column or the offset back.
pub proof fn lemma_cells_step_grows(st: CellsState, g: Seq<char>, decs: Seq<Span<Decoration>>, tab: int)
    requires
        tab > 0 || g != seq!['\t'],
        st.visual_x >= 0,
    ensures
        cells_step(st, g, decs, tab).visual_x >= st.visual_x + emit_texts_width(
            applied(decs, st.offset, byte_len(g)).virtual_texts,
        ),
        emit_texts_width(applied(decs, st.offset, byte_len(g)).virtual_texts) >= 0,
        cells_step(st, g, decs, tab).offset == st.offset + byte_len(g),
{
    let a = applied(decs, st.offset, byte_len(g));
    lemma_emit_texts_width_prefix(a.virtual_texts, 0);
    assert(a.virtual_texts.take(0) =~= Seq::<(Seq<char>, Face)>::empty());
    match a.replacement {
        Some(r) => {
            lemma_emit_width_nonneg(grapheme_clusters(r.0));
        },
        None => {},
    }
}

pub proof fn lemma_cells_fold_grows(
    gs: Seq<Seq<char>>,
    i: int,
    start: CellsState,
    decs: Seq<Span<Decoration>>,
    tab: int,
)
    requires
        0 <= i <= gs.len(),
        tabs_ok(gs, tab),
        start.visual_x >= 0,
    ensures
        start.visual_x <= cells_fold(gs.take(i), start, decs, tab).visual_x <= cells_fold(
            gs,
            start,
            decs,
            tab,
        ).visual_x,
        cells_fold(gs.take(i), start, decs, tab).offset <= cells_fold(gs, start, decs, tab).offset,
    decreases gs.len(),
{
    if gs.len() > 0 {
        lemma_tabs_ok_drop_last(gs, tab);
        if i < gs.len() {
            lemma_cells_fold_grows(gs.drop_last(), i, start, decs, tab);
            assert(gs.drop_last().take(i) == gs.take(i));
        } else {
            assert(gs.take(i) == gs);
            lemma_cells_fold_grows(gs.drop_last(), i - 1, start, decs, tab);
            assert(gs.drop_last().take(i - 1) == gs.drop_last());
        }
        let prev = cells_fold(gs.drop_last(), start, decs, tab);
        lemma_cells_step_grows(prev, gs.last(), decs, tab);
        assert(byte_len(gs.last()) >= 0);
    }
}

/// Pushes the cells of a grapheme of `w` columns: the grapheme and `w - 1`
/// trailing cells.
fn push_glyph(cells: &mut Vec<Cell>, g: &String, w: usize, face: Face)
    requires
        w > 0,
    ensures
        cell_views(final(cells)@) == cell_views(old(cells)@) + glyph(g@, w as int, face),
{
    let ghost before = cell_views(cells@);
    cells.push(Cell::new(g.clone(), w, face));
    let mut p: usize = 1;
    proof {
        assert(cell_views(cells@) =~= before + seq![CellView { ch: g@, width: w, face }]);
    }
    while p < w
        invariant
            1 <= p <= w,
            cell_views(cells@) == before + seq![CellView { ch: g@, width: w, face }] + Seq::new(
                (p - 1) as nat,
                |k: int| CellView { ch: Seq::empty(), width: 0, face },
            ),
        decreases w - p,
    {
        let ghost prev = cell_views(cells@);
        cells.push(Cell::trailing(face));
        proof {
            assert(cell_views(cells@) =~= prev.push(CellView { ch: Seq::empty(), width: 0, face }));
            assert(Seq::new((p - 1) as nat, |k: int| CellView { ch: Seq::empty(), width: 0, face }).push(
                CellView { ch: Seq::empty(), width: 0, face },
            ) =~= Seq::new(p as nat, |k: int| CellView { ch: Seq::empty(), width: 0, face }));
        }
        p = p + 1;
    }
    proof {
        assert(before + seq![CellView { ch: g@, width: w, face }] + Seq::new(
            (w - 1) as nat,
            |k: int| CellView { ch: Seq::empty(), width: 0, face },
        ) =~= before + glyph(g@, w as int, face));
    }
}

/// Pushes `w` spaces of one column.
fn push_spaces(cells: &mut Vec<Cell>, w: usize, face: Face)
    ensures
        cell_views(final(cells)@) == cell_views(old(cells)@) + spaces(w as int, face),
{
    let ghost before = cell_views(cells@);
    let mut p: usize = 0;
    proof {
        assert(cell_views(cells@) =~= before + spaces(0, face));
    }
    while p < w
        invariant
            p <= w,
            cell_views(cells@) == before + spaces(p as int, face),
        decreases w - p,
    {
        let ghost prev = cell_views(cells@);
        cells.push(Cell::space(face));
        proof {
            assert(cell_views(cells@) =~= prev.push(CellView { ch: seq![' '], width: 1, face }));
            assert(spaces(p as int, face).push(CellView { ch: seq![' '], width: 1, face })
                =~= spaces(p + 1, face));
        }
        p = p + 1;
    }
}

/// Pushes the cells of `text` drawn with `face`, up to its first grapheme of
/// no width. Returns the columns they take, saturated at `usize::MAX`.
fn push_text(cells: &mut Vec<Cell>, text: &String, face: Face) -> (w: usize)
    ensures
        cell_views(final(cells)@) == cell_views(old(cells)@) + emit_clusters(grapheme_clusters(text@), face),
        w as int == if emit_width(grapheme_clusters(text@)) <= usize::MAX {
            emit_width(grapheme_clusters(text@))
        } else {
            usize::MAX as int
        },
{
    let gs = graphemes(text.as_str());
    let ghost gv = grapheme_clusters(text@);
    let ghost before = cell_views(cells@);
    let ghost mut total: int = 0;
    let ghost mut emitted: Seq<CellView> = Seq::empty();
    let mut w: usize = 0;
    let mut k: usize = 0;
    proof {
        assert(gv.skip(0) == gv);
        assert(cell_views(cells@) =~= before + emitted);
    }
    while k < gs.len()
        invariant
            k <= gs@.len(),
            string_views(gs@) == gv,
            total >= 0,
            emit_clusters(gv, face) == emitted + emit_clusters(gv.skip(k as int), face),
            cell_views(cells@) == before + emitted,
            emit_width(gv) == total + emit_width(gv.skip(k as int)),
            w as int == if total <= usize::MAX { total } else { usize::MAX as int },
        ensures
            emit_clusters(gv.skip(k as int), face) =~= Seq::<CellView>::empty(),
            emit_width(gv.skip(k as int)) == 0,
        decreases gs@.len() - k,
    {
        let g = &gs[k];
        let cw = width(g.as_str());
        proof {
            assert(gs@[k as int]@ == gv[k as int]);
            assert(gv.skip(k as int)[0] == gv[k as int]);
            assert(gv.skip(k as int).drop_first() == gv.skip(k + 1));
        }
        if cw == 0 {
            proof {
                assert(emit_clusters(gv.skip(k as int), face) == Seq::<CellView>::empty());
                assert(emit_width(gv.skip(k as int)) == 0);
            }
            break;
        }
        let ghost prev = cell_views(cells@);
        push_glyph(cells, g, cw, face);
        proof {
            lemma_emit_width_nonneg(gv.skip(k + 1));
            assert(emitted + emit_clusters(gv.skip(k as int), face)
                =~= emitted + glyph(gv[k as int], cw as int, face) + emit_clusters(gv.skip(k + 1), face));
            emitted = emitted + glyph(gv[k as int], cw as int, face);
            assert(cell_views(cells@) =~= before + emitted);
            total = total + cw;
        }
        w = w.saturating_add(cw);
        k = k + 1;
    }
    w
}

/// Whether the grapheme is a tab.
pub(crate) fn is_tab(g: &String) -> (r: bool)
    ensures
        r == (g@ == seq!['\t']),
{
    let tab = "\t".to_owned();
    proof {
        reveal_strlit("\t");
        assert(tab@ =~= seq!['\t']);
    }
    *g == tab
}

/// Whether the grapheme is a newline.
pub(crate) fn is_newline(g: &String) -> (r: bool)
    ensures
        r == (g@ == seq!['\n']),
{
    let nl = "\n".to_owned();
    proof {
        reveal_strlit("\n");
        assert(nl@ =~= seq!['\n']);
    }
    *g == nl
}

/// What the spans do to the grapheme of `len` bytes at `offset`.
pub fn decorations_at(decs: &[Span<Decoration>], offset: usize, len: usize) -> (a: Applied)
    requires
        offset + len <= usize::MAX,
    ensures
        a@ == applied(decs@, offset as int, len as int),
{
    let mut a = Applied { face: Face::plain(), replace: false, replacement: None, virtual_texts: Vec::new() };
    let mut j: usize = 0;
    proof {
        assert(decs@.take(0) =~= Seq::<Span<Decoration>>::empty());
        assert(a@.virtual_texts =~= Seq::<(Seq<char>, Face)>::empty());
    }
    while j < decs.len()
        invariant
            j <= decs@.len(),
            offset + len <= usize::MAX,
            a@ == applied(decs@.take(j as int), offset as int, len as int),
        decreases decs@.len() - j,
    {
        let s = &decs[j];
        proof {
            assert(decs@.take(j + 1).drop_last() == decs@.take(j as int));
            assert(decs@.take(j + 1).last() == decs@[j as int]);
        }
        if !(s.start > offset + len || s.end < offset) {
            match &s.data {
                Decoration::Style { face } => {
                    a.face.merge(*face);
                },
                Decoration::Replace { text, face } => {
                    a.replace = true;
                    if offset == s.start {
                        a.replacement = Some((text.clone(), *face));
                    }
                },
                Decoration::VirtualText { text, face } => {
                    if offset == s.start {
                        let ghost before = a.virtual_texts@;
                        a.virtual_texts.push((text.clone(), *face));
                        proof {
                            assert(a.virtual_texts@.map_values(|t: (String, Face)| text_face_view(t))
                                =~= before.map_values(|t: (String, Face)| text_face_view(t)).push((text@, *face)));
                        }
                    }
                },
            }
        }
        j = j + 1;
    }
    proof {
        assert(decs@.take(decs@.len() as int) == decs@);
    }
    a
}

/// `x` moved on by the columns of `t`.
fn add_text_width(x: usize, t: &String) -> (r: usize)
    requires
        x + text_width(t@) <= usize::MAX,
    ensures
        r == x + text_width(t@),
{
    let gs = graphemes(t.as_str());
    let ghost gv = grapheme_clusters(t@);
    let mut r = x;
    let mut k: usize = 0;
    while k < gs.len()
        invariant
            k <= gs@.len(),
            string_views(gs@) == gv,
            x + clusters_width(gv) <= usize::MAX,
            r == x + clusters_width(gv.take(k as int)),
        decreases gs@.len() - k,
    {
        proof {
            lemma_clusters_width_prefix(gv, k + 1);
            assert(gv.take(k + 1).drop_last() == gv.take(k as int));
            assert(gv.take(k + 1).last() == gs@[k as int]@);
        }
        let w = width(gs[k].as_str());
        r = r + w;
        k = k + 1;
    }
    proof {
        assert(gv.take(gs@.len() as int) == gv);
    }
    r
}

/// `x` moved on by the columns of the texts `ts`.
fn add_texts_width(x: usize, ts: &Vec<(String, Face)>) -> (r: usize)
    requires
        x + texts_width(ts@.map_values(|t: (String, Face)| text_face_view(t))) <= usize::MAX,
    ensures
        r == x + texts_width(ts@.map_values(|t: (String, Face)| text_face_view(t))),
{
    let ghost tv = ts@.map_values(|t: (String, Face)| text_face_view(t));
    let mut r = x;
    let mut k: usize = 0;
    while k < ts.len()
        invariant
            k <= ts@.len(),
            tv == ts@.map_values(|t: (String, Face)| text_face_view(t)),
            x + texts_width(tv) <= usize::MAX,
            r == x + texts_width(tv.take(k as int)),
        decreases ts@.len() - k,
    {
        proof {
            lemma_texts_width_prefix(tv, k + 1);
            assert(tv.take(k + 1).drop_last() == tv.take(k as int));
            assert(tv.take(k + 1).last() == text_face_view(ts@[k as int]));
        }
        r = add_text_width(r, &ts[k].0);
        k = k + 1;
    }
    proof {
        assert(tv.take(ts@.len() as int) == tv);
    }
    r
}

/// Maps the byte offsets of `line`, which starts at byte `offset` of its
/// document, to the visual columns at which they are drawn, taking tabs of
/// `tab_width` columns and the decorations `decs` into account. Returns the
/// mappings and the offset after the line.
pub fn layout_vom(line: &str, offset: usize, tab_width: usize, decs: &[Span<Decoration>]) -> (r: (
    Vec<VisualOffsetMapping>,
    usize,
))
    requires
        tabs_ok(grapheme_clusters(line@), tab_width as int),
        vom_fits(line@, offset as int, tab_width as int, decs@),
    ensures
        mapping_pairs(r.0@) == vom_spec(line@, offset as int, tab_width as int, decs@).vom,
        r.1 == vom_spec(line@, offset as int, tab_width as int, decs@).offset,
{
    let gs = graphemes(line);
    let ghost gv = grapheme_clusters(line@);
    let ghost start = VomState { visual_x: 0, offset: offset as int, vom: Seq::empty() };
    let ghost tab = tab_width as int;
    let ghost fin = vom_fold(gv, start, decs@, tab);
    proof {
        lemma_vom_fold_grows(gv, gv.len() as int, start, decs@, tab);
        assert(gv.take(gv.len() as int) == gv);
        lemma_texts_at_width_prefix(decs@, fin.offset, 0);
    }
    let mut vom: Vec<VisualOffsetMapping> = Vec::new();
    let mut visual_x: usize = 0;
    let mut off: usize = offset;
    let mut i: usize = 0;
    proof {
        assert(gv.take(0) =~= Seq::<Seq<char>>::empty());
        assert(mapping_pairs(vom@) =~= Seq::<(int, int)>::empty());
    }
    while i < gs.len()
        invariant
            i <= gs@.len(),
            string_views(gs@) == gv,
            tab == tab_width as int,
            gv == grapheme_clusters(line@),
            tabs_ok(grapheme_clusters(line@), tab_width as int),
            fin == vom_fold(gv, start, decs@, tab),
            fin.visual_x <= usize::MAX,
            fin.offset <= usize::MAX,
            start == (VomState { visual_x: 0, offset: offset as int, vom: Seq::empty() }),
            vom_fold(gv.take(i as int), start, decs@, tab) == (VomState {
                visual_x: visual_x as int,
                offset: off as int,
                vom: mapping_pairs(vom@),
            }),
        decreases gs@.len() - i,
    {
        let ghost st = VomState { visual_x: visual_x as int, offset: off as int, vom: mapping_pairs(vom@) };
        let ghost g = gv[i as int];
        proof {
            lemma_vom_fold_grows(gv, i + 1, start, decs@, tab);
            assert(gv.take(i + 1).drop_last() == gv.take(i as int));
            assert(gv.take(i + 1).last() == g);
            assert(gs@[i as int]@ == g);
            lemma_vom_step_grows(st, g, decs@, tab);
        }
        let gr = &gs[i];
        let ch_len = gr.as_str().len();
        let a = decorations_at(decs, off, ch_len);
        proof {
            let av = applied(decs@, off as int, ch_len as int);
            let vx1 = visual_x + texts_width(av.virtual_texts);
            if av.replace {
                match av.replacement {
                    Some(r) => {
                        lemma_clusters_width_prefix(grapheme_clusters(r.0), 0);
                        assert(grapheme_clusters(r.0).take(0) =~= Seq::<Seq<char>>::empty());
                    },
                    None => {},
                }
            }
        }
        visual_x = add_texts_width(visual_x, &a.virtual_texts);
        if !a.replace || a.replacement.is_some() {
            let ghost before = vom@;
            vom.push(VisualOffsetMapping { visual_x, offset: off });
            proof {
                assert(mapping_pairs(vom@) =~= mapping_pairs(before).push((visual_x as int, off as int)));
            }
        }
        if a.replace {
            match &a.replacement {
                Some(r) => {
                    visual_x = add_text_width(visual_x, &r.0);
                },
                None => {},
            }
            off = off + ch_len;
        } else {
            let w = if is_tab(gr) {
                proof {
                    assert(gs@[i as int]@ == grapheme_clusters(line@)[i as int]);
                }
                tab_width - visual_x % tab_width
            } else if is_newline(gr) {
                0
            } else {
                width(gr.as_str())
            };
            visual_x = visual_x + w;
            off = off + ch_len;
        }
        i = i + 1;
    }
    proof {
        assert(gv.take(gs@.len() as int) == gv);
    }
    if !ends_with_newline(line) {
        let ghost vx0 = visual_x as int;
        let mut j: usize = 0;
        proof {
            assert(decs@.take(0) =~= Seq::<Span<Decoration>>::empty());
        }
        while j < decs.len()
            invariant
                j <= decs@.len(),
                off as int == fin.offset,
                vx0 == fin.visual_x,
                vx0 + texts_width(texts_at(decs@, fin.offset)) <= usize::MAX,
                visual_x == vx0 + texts_width(texts_at(decs@.take(j as int), fin.offset)),
            decreases decs@.len() - j,
        {
            proof {
                assert(decs@.take(j + 1).drop_last() == decs@.take(j as int));
                assert(decs@.take(j + 1).last() == decs@[j as int]);
                lemma_texts_at_width_prefix(decs@, fin.offset, j + 1);
            }
            let s = &decs[j];
            if s.start == off {
                match &s.data {
                    Decoration::VirtualText { text, .. } => {
                        proof {
                            let prev = texts_at(decs@.take(j as int), fin.offset);
                            let next = texts_at(decs@.take(j + 1), fin.offset);
                            assert(next.drop_last() == prev);
                        }
                        visual_x = add_text_width(visual_x, text);
                    },
                    _ => {},
                }
            }
            j = j + 1;
        }
        proof {
            assert(decs@.take(decs@.len() as int) == decs@);
        }
        let ghost before = vom@;
        vom.push(VisualOffsetMapping { visual_x, offset: off });
        proof {
            assert(mapping_pairs(vom@) =~= mapping_pairs(before).push((visual_x as int, off as int)));
        }
    }
    (vom, off)
}

/// `x` moved on by the columns of `t`, or `None` where that leaves `usize`.
fn checked_text_width(x: usize, t: &String) -> (r: Option<usize>)
    ensures
        match r {
            Some(v) => v == x + text_width(t@),
            None => x + text_width(t@) > usize::MAX,
        },
{
    let gs = graphemes(t.as_str());
    let ghost gv = grapheme_clusters(t@);
    let mut r = x;
    let mut k: usize = 0;
    while k < gs.len()
        invariant
            k <= gs@.len(),
            string_views(gs@) == gv,
            gv == grapheme_clusters(t@),
            r == x + clusters_width(gv.take(k as int)),
        decreases gs@.len() - k,
    {
        proof {
            lemma_clusters_width_prefix(gv, k + 1);
            assert(gv.take(k + 1).drop_last() == gv.take(k as int));
            assert(gv.take(k + 1).last() == gs@[k as int]@);
        }
        let w = width(gs[k].as_str());
        if r > usize::MAX - w {
            proof {
                assert(clusters_width(gv.take(k + 1)) == clusters_width(gv.take(k as int)) + str_width(gv[k as int]));
                assert(grapheme_clusters(t@) == gv);
            }
            return None;
        }
        r = r + w;
        k = k + 1;
    }
    proof {
        assert(gv.take(gs@.len() as int) == gv);
    }
    Some(r)
}

/// `x` moved on by the columns of the texts `ts`, or `None` where that
/// leaves `usize`.
pub(crate) fn checked_texts_width(x: usize, ts: &Vec<(String, Face)>) -> (r: Option<usize>)
    ensures
        match r {
            Some(v) => v == x + texts_width(ts@.map_values(|t: (String, Face)| text_face_view(t))),
            None => x + texts_width(ts@.map_values(|t: (String, Face)| text_face_view(t))) > usize::MAX,
        },
{
    let ghost tv = ts@.map_values(|t: (String, Face)| text_face_view(t));
    let mut r = x;
    let mut k: usize = 0;
    while k < ts.len()
        invariant
            k <= ts@.len(),
            tv == ts@.map_values(|t: (String, Face)| text_face_view(t)),
            r == x + texts_width(tv.take(k as int)),
        decreases ts@.len() - k,
    {
        proof {
            lemma_texts_width_prefix(tv, k + 1);
            assert(tv.take(k + 1).drop_last() == tv.take(k as int));
            assert(tv.take(k + 1).last() == text_face_view(ts@[k as int]));
        }
        match checked_text_width(r, &ts[k].0) {
            None => {
                return None;
            },
            Some(v) => {
                r = v;
            },
        }
        k = k + 1;
    }
    proof {
        assert(tv.take(ts@.len() as int) == tv);
    }
    Some(r)
}

/// Whether `layout_vom` can lay out the line, `line` starting at byte
/// `offset`, without leaving `usize`.
pub fn vom_fits_check(line: &str, offset: usize, tab_width: usize, decs: &[Span<Decoration>]) -> (b: bool)
    requires
        tabs_ok(grapheme_clusters(line@), tab_width as int),
    ensures
        b == vom_fits(line@, offset as int, tab_width as int, decs@),
{
    let gs = graphemes(line);
    let ghost gv = grapheme_clusters(line@);
    let ghost start = VomState { visual_x: 0, offset: offset as int, vom: Seq::empty() };
    let ghost tab = tab_width as int;
    let ghost fin = vom_fold(gv, start, decs@, tab);
    proof {
        lemma_vom_fold_grows(gv, gv.len() as int, start, decs@, tab);
        assert(gv.take(gv.len() as int) == gv);
        lemma_texts_at_width_prefix(decs@, fin.offset, 0);
        assert(decs@.take(0) =~= Seq::<Span<Decoration>>::empty());
        assert(gv.take(0) =~= Seq::<Seq<char>>::empty());
    }
    let mut visual_x: usize = 0;
    let mut off: usize = offset;
    let mut i: usize = 0;
    while i < gs.len()
        invariant
            i <= gs@.len(),
            string_views(gs@) == gv,
            tab == tab_width as int,
            tabs_ok(grapheme_clusters(line@), tab_width as int),
            fin == vom_fold(gv, start, decs@, tab),
            start == (VomState { visual_x: 0, offset: offset as int, vom: Seq::empty() }),
            vom_fold(gv.take(i as int), start, decs@, tab).visual_x == visual_x as int,
            vom_fold(gv.take(i as int), start, decs@, tab).offset == off as int,
            gv == grapheme_clusters(line@),
            fin.visual_x + texts_width(texts_at(decs@, fin.offset)) >= fin.visual_x,
        decreases gs@.len() - i,
    {
        let ghost st = vom_fold(gv.take(i as int), start, decs@, tab);
        let ghost g = gv[i as int];
        proof {
            lemma_vom_fold_grows(gv, i + 1, start, decs@, tab);
            assert(gv.take(i + 1).drop_last() == gv.take(i as int));
            assert(gv.take(i + 1).last() == g);
            assert(gs@[i as int]@ == g);
            lemma_vom_fold_grows(gv.take(i as int), i as int, start, decs@, tab);
            assert(gv.take(i as int).take(i as int) == gv.take(i as int));
            lemma_vom_step_grows(st, g, decs@, tab);
        }
        let gr = &gs[i];
        let ch_len = gr.as_str().as_bytes().len();
        proof {
            assert(ch_len == byte_len(g));
            assert(vom_fold(gv.take(i + 1), start, decs@, tab) == vom_step(st, g, decs@, tab));
        }
        if off > usize::MAX - ch_len {
            proof {
                assert(fin.offset >= off + ch_len);
            }
            return false;
        }
        let a = decorations_at(decs, off, ch_len);
        let vx = match checked_texts_width(visual_x, &a.virtual_texts) {
            None => {
                return false;
            },
            Some(v) => v,
        };
        if a.replace {
            let nx = match &a.replacement {
                Some(r) => checked_text_width(vx, &r.0),
                None => Some(vx),
            };
            match nx {
                None => {
                    return false;
                },
                Some(v) => {
                    visual_x = v;
                },
            }
        } else {
            let w = if is_tab(gr) {
                proof {
                    assert(gs@[i as int]@ == grapheme_clusters(line@)[i as int]);
                }
                tab_width - vx % tab_width
            } else if is_newline(gr) {
                0
            } else {
                width(gr.as_str())
            };
            if vx > usize::MAX - w {
                return false;
            }
            visual_x = vx + w;
        }
        off = off + ch_len;
        i = i + 1;
    }
    proof {
        assert(gv.take(gs@.len() as int) == gv);
    }
    if ends_with_newline(line) {
        return true;
    }
    let ghost whole = vom_spec(line@, offset as int, tab, decs@);
    let mut j: usize = 0;
    while j < decs.len()
        invariant
            j <= decs@.len(),
            off as int == fin.offset,
            whole.offset == fin.offset,
            whole.visual_x == fin.visual_x + texts_width(texts_at(decs@, fin.offset)),
            whole == vom_spec(line@, offset as int, tab_width as int, decs@),
            visual_x == fin.visual_x + texts_width(texts_at(decs@.take(j as int), fin.offset)),
        decreases decs@.len() - j,
    {
        proof {
            assert(decs@.take(j + 1).drop_last() == decs@.take(j as int));
            assert(decs@.take(j + 1).last() == decs@[j as int]);
            lemma_texts_at_width_prefix(decs@, fin.offset, j + 1);
        }
        let s = &decs[j];
        if s.start == off {
            match &s.data {
                Decoration::VirtualText { text, .. } => {
                    proof {
                        let prev = texts_at(decs@.take(j as int), fin.offset);
                        let next = texts_at(decs@.take(j + 1), fin.offset);
                        assert(next.drop_last() == prev);
                    }
                    match checked_text_width(visual_x, text) {
                        None => {
                            return false;
                        },
                        Some(v) => {
                            visual_x = v;
                        },
                    }
                },
                _ => {},
            }
        }
        j = j + 1;
    }
    proof {
        assert(decs@.take(decs@.len() as int) == decs@);
    }
    true
}

/// `x` moved on by `emit_width(grapheme_clusters(t))`, or `None` where that
/// leaves `usize`.
fn checked_emit_width(x: usize, t: &String) -> (r: Option<usize>)
    ensures
        match r {
            Some(v) => v == x + emit_width(grapheme_clusters(t@)),
            None => x + emit_width(grapheme_clusters(t@)) > usize::MAX,
        },
{
    let gs = graphemes(t.as_str());
    let ghost gv = grapheme_clusters(t@);
    let mut r = x;
    let mut k: usize = 0;
    proof {
        assert(gv.skip(0) == gv);
    }
    while k < gs.len()
        invariant
            k <= gs@.len(),
            string_views(gs@) == gv,
            gv == grapheme_clusters(t@),
            x + emit_width(gv) == r + emit_width(gv.skip(k as int)),
        decreases gs@.len() - k,
    {
        let w = width(gs[k].as_str());
        proof {
            assert(gs@[k as int]@ == gv[k as int]);
            assert(gv.skip(k as int)[0] == gv[k as int]);
            assert(gv.skip(k as int).drop_first() == gv.skip(k + 1));
            lemma_emit_width_nonneg(gv.skip(k + 1));
        }
        if w == 0 {
            return Some(r);
        }
        if r > usize::MAX - w {
            return None;
        }
        r = r + w;
        k = k + 1;
    }
    proof {
        assert(gv.skip(k as int) =~= Seq::<Seq<char>>::empty());
    }
    Some(r)
}

/// `x` moved on by the columns of `emit_texts(ts)`, or `None` where that
/// leaves `usize`.
fn checked_emit_texts_width(x: usize, ts: &Vec<(String, Face)>) -> (r: Option<usize>)
    ensures
        match r {
            Some(v) => v == x + emit_texts_width(ts@.map_values(|t: (String, Face)| text_face_view(t))),
            None => x + emit_texts_width(ts@.map_values(|t: (String, Face)| text_face_view(t))) > usize::MAX,
        },
{
    let ghost tv = ts@.map_values(|t: (String, Face)| text_face_view(t));
    let mut r = x;
    let mut k: usize = 0;
    while k < ts.len()
        invariant
            k <= ts@.len(),
            tv == ts@.map_values(|t: (String, Face)| text_face_view(t)),
            r == x + emit_texts_width(tv.take(k as int)),
        decreases ts@.len() - k,
    {
        proof {
            lemma_emit_texts_width_prefix(tv, k + 1);
            assert(tv.take(k + 1).drop_last() == tv.take(k as int));
            assert(tv.take(k + 1).last() == text_face_view(ts@[k as int]));
        }
        match checked_emit_width(r, &ts[k].0) {
            None => {
                return None;
            },
            Some(v) => {
                r = v;
            },
        }
        k = k + 1;
    }
    proof {
        assert(tv.take(ts@.len() as int) == tv);
    }
    Some(r)
}

/// Whether `layout_cells` can lay out the line, `line` starting at byte
/// `offset`, without leaving `usize`.
pub fn cells_fits_check(line: &str, offset: usize, tab_width: usize, decs: &[Span<Decoration>]) -> (b: bool)
    requires
        tabs_ok(grapheme_clusters(line@), tab_width as int),
    ensures
        b == cells_fits(line@, offset as int, tab_width as int, decs@),
{
    let gs = graphemes(line);
    let ghost gv = grapheme_clusters(line@);
    let ghost start = CellsState { visual_x: 0, offset: offset as int, cells: Seq::empty() };
    let ghost tab = tab_width as int;
    let ghost fin = cells_fold(gv, start, decs@, tab);
    proof {
        assert(gv.take(0) =~= Seq::<Seq<char>>::empty());
    }
    let mut visual_x: usize = 0;
    let mut off: usize = offset;
    let mut i: usize = 0;
    while i < gs.len()
        invariant
            i <= gs@.len(),
            string_views(gs@) == gv,
            gv == grapheme_clusters(line@),
            tab == tab_width as int,
            tabs_ok(grapheme_clusters(line@), tab_width as int),
            fin == cells_fold(gv, start, decs@, tab),
            start == (CellsState { visual_x: 0, offset: offset as int, cells: Seq::empty() }),
            cells_fold(gv.take(i as int), start, decs@, tab).visual_x == visual_x as int,
            cells_fold(gv.take(i as int), start, decs@, tab).offset == off as int,
        decreases gs@.len() - i,
    {
        let ghost st = cells_fold(gv.take(i as int), start, decs@, tab);
        let ghost g = gv[i as int];
        proof {
            lemma_cells_fold_grows(gv, i + 1, start, decs@, tab);
            assert(gv.take(i + 1).drop_last() == gv.take(i as int));
            assert(gv.take(i + 1).last() == g);
            assert(gs@[i as int]@ == g);
            lemma_cells_step_grows(st, g, decs@, tab);
        }
        let gr = &gs[i];
        let ch_len = gr.as_str().as_bytes().len();
        proof {
            assert(ch_len == byte_len(g));
            assert(cells_fold(gv.take(i + 1), start, decs@, tab) == cells_step(st, g, decs@, tab));
        }
        if off > usize::MAX - ch_len {
            return false;
        }
        let a = decorations_at(decs, off, ch_len);
        let vx = match checked_emit_texts_width(visual_x, &a.virtual_texts) {
            None => {
                return false;
            },
            Some(v) => v,
        };
        if a.replace {
            let nx = match &a.replacement {
                Some(r) => {
                    proof {
                        lemma_emit_width_nonneg(grapheme_clusters(r.0@));
                    }
                    checked_emit_width(vx, &r.0)
                },
                None => Some(vx),
            };
            match nx {
                None => {
                    return false;
                },
                Some(v) => {
                    visual_x = v;
                },
            }
        } else {
            let w = if is_tab(gr) {
                proof {
                    assert(gs@[i as int]@ == grapheme_clusters(line@)[i as int]);
                }
                tab_width - vx % tab_width
            } else if is_newline(gr) {
                0
            } else {
                width(gr.as_str())
            };
            if vx > usize::MAX - w {
                return false;
            }
            visual_x = vx + w;
        }
        off = off + ch_len;
        i = i + 1;
    }
    proof {
        assert(gv.take(gs@.len() as int) == gv);
    }
    true
}

/// Pushes the cells of the texts `ts`, each with its face, moving the column
/// `x` on by their columns.
fn push_texts(cells: &mut Vec<Cell>, x: usize, ts: &Vec<(String, Face)>) -> (r: usize)
    requires
        x + emit_texts_width(ts@.map_values(|t: (String, Face)| text_face_view(t))) <= usize::MAX,
    ensures
        cell_views(final(cells)@) == cell_views(old(cells)@) + emit_texts(
            ts@.map_values(|t: (String, Face)| text_face_view(t)),
        ),
        r == x + emit_texts_width(ts@.map_values(|t: (String, Face)| text_face_view(t))),
{
    let ghost tv = ts@.map_values(|t: (String, Face)| text_face_view(t));
    let ghost before = cell_views(cells@);
    let mut r = x;
    let mut k: usize = 0;
    proof {
        assert(tv.take(0) =~= Seq::<(Seq<char>, Face)>::empty());
        assert(cell_views(cells@) =~= before + emit_texts(tv.take(0)));
    }
    while k < ts.len()
        invariant
            k <= ts@.len(),
            tv == ts@.map_values(|t: (String, Face)| text_face_view(t)),
            x + emit_texts_width(tv) <= usize::MAX,
            r == x + emit_texts_width(tv.take(k as int)),
            cell_views(cells@) == before + emit_texts(tv.take(k as int)),
        decreases ts@.len() - k,
    {
        proof {
            lemma_emit_texts_width_prefix(tv, k + 1);
            assert(tv.take(k + 1).drop_last() == tv.take(k as int));
            assert(tv.take(k + 1).last() == text_face_view(ts@[k as int]));
        }
        let ghost prev = cell_views(cells@);
        let w = push_text(cells, &ts[k].0, ts[k].1);
        proof {
            assert(cell_views(cells@) =~= before + emit_texts(tv.take(k + 1)));
        }
        r = r + w;
        k = k + 1;
    }
    proof {
        assert(tv.take(ts@.len() as int) == tv);
    }
    r
}

/// Lays out `line`, which starts at byte `offset` of its document, in the
/// cells it is drawn in, taking tabs of `tab_width` columns and the
/// decorations `decs` into account.
pub fn layout_cells(line: &str, offset: usize, tab_width: usize, decs: &[Span<Decoration>]) -> (cells:
    Vec<Cell>)
    requires
        tabs_ok(grapheme_clusters(line@), tab_width as int),
        cells_fits(line@, offset as int, tab_width as int, decs@),
    ensures
        cell_views(cells@) == cells_spec(line@, offset as int, tab_width as int, decs@),
{
    let gs = graphemes(line);
    let ghost gv = grapheme_clusters(line@);
    let ghost start = CellsState { visual_x: 0, offset: offset as int, cells: Seq::empty() };
    let ghost tab = tab_width as int;
    let ghost fin = cells_fold(gv, start, decs@, tab);
    proof {
        lemma_cells_fold_grows(gv, gv.len() as int, start, decs@, tab);
        assert(gv.take(gv.len() as int) == gv);
    }
    let mut cells: Vec<Cell> = Vec::new();
    let mut visual_x: usize = 0;
    let mut off: usize = offset;
    let mut i: usize = 0;
    proof {
        assert(gv.take(0) =~= Seq::<Seq<char>>::empty());
        assert(cell_views(cells@) =~= Seq::<CellView>::empty());
    }
    while i < gs.len()
        invariant
            i <= gs@.len(),
            string_views(gs@) == gv,
            tab == tab_width as int,
            gv == grapheme_clusters(line@),
            tabs_ok(grapheme_clusters(line@), tab_width as int),
            fin == cells_fold(gv, start, decs@, tab),
            fin.visual_x <= usize::MAX,
            fin.offset <= usize::MAX,
            start == (CellsState { visual_x: 0, offset: offset as int, cells: Seq::empty() }),
            cells_fold(gv.take(i as int), start, decs@, tab) == (CellsState {
                visual_x: visual_x as int,
                offset: off as int,
                cells: cell_views(cells@),
            }),
        decreases gs@.len() - i,
    {
        let ghost st = CellsState { visual_x: visual_x as int, offset: off as int, cells: cell_views(cells@) };
        let ghost g = gv[i as int];
        proof {
            lemma_cells_fold_grows(gv, i + 1, start, decs@, tab);
            assert(gv.take(i + 1).drop_last() == gv.take(i as int));
            assert(gv.take(i + 1).last() == g);
            assert(gs@[i as int]@ == g);
            lemma_cells_step_grows(st, g, decs@, tab);
        }
        let gr = &gs[i];
        let ch_len = gr.as_str().len();
        let a = decorations_at(decs, off, ch_len);
        proof {
            let av = applied(decs@, off as int, ch_len as int);
            match av.replacement {
                Some(r) => {
                    lemma_emit_width_nonneg(grapheme_clusters(r.0));
                },
                None => {},
            }
        }
        visual_x = push_texts(&mut cells, visual_x, &a.virtual_texts);
        if a.replace {
            match &a.replacement {
                Some(r) => {
                    let w = push_text(&mut cells, &r.0, r.1);
                    visual_x = visual_x + w;
                },
                None => {},
            }
            off = off + ch_len;
        } else {
            let w = if is_tab(gr) {
                proof {
                    assert(gs@[i as int]@ == grapheme_clusters(line@)[i as int]);
                }
                tab_width - visual_x % tab_width
            } else if is_newline(gr) {
                0
            } else {
                width(gr.as_str())
            };
            if w > 0 {
                if is_tab(gr) {
                    push_spaces(&mut cells, w, a.face);
                } else {
                    push_glyph(&mut cells, gr, w, a.face);
                }
                visual_x = visual_x + w;
            }
            off = off + ch_len;
        }
        proof {
            assert(cell_views(cells@) =~= cells_step(st, g, decs@, tab).cells);
        }
        i = i + 1;
    }
    proof {
        assert(gv.take(gs@.len() as int) == gv);
    }
    if !ends_with_newline(line) {
        let ghost base = cell_views(cells@);
        let mut j: usize = 0;
        proof {
            assert(decs@.take(0) =~= Seq::<Span<Decoration>>::empty());
            assert(cell_views(cells@) =~= base + emit_texts(texts_at(decs@.take(0), fin.offset)));
        }
        while j < decs.len()
            invariant
                j <= decs@.len(),
                off as int == fin.offset,
                cell_views(cells@) == base + emit_texts(texts_at(decs@.take(j as int), fin.offset)),
            decreases decs@.len() - j,
        {
            proof {
                assert(decs@.take(j + 1).drop_last() == decs@.take(j as int));
                assert(decs@.take(j + 1).last() == decs@[j as int]);
            }
            let s = &decs[j];
            if s.start == off {
                match &s.data {
                    Decoration::VirtualText { text, face } => {
                        let _ = push_text(&mut cells, text, *face);
                        proof {
                            let prev = texts_at(decs@.take(j as int), fin.offset);
                            let next = texts_at(decs@.take(j + 1), fin.offset);
                            assert(next.drop_last() == prev);
                            assert(cell_views(cells@) =~= base + emit_texts(next));
                        }
                    },
                    _ => {},
                }
            }
            j = j + 1;
        }
        proof {
            assert(decs@.take(decs@.len() as int) == decs@);
        }
    }
    cells
}

} // verus!
