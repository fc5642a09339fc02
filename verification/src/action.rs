use vstd::prelude::*;
use vstd::string::StringExecFns;
use vstd::utf8::{decode_utf8, encode_utf8, is_char_boundary, valid_utf8};

use crate::layout::{layout_vom, mapping_pairs, vom_fits, vom_fits_check, vom_spec, VisualOffsetMapping};
use crate::lines::{increasing, lemma_line_starts_basic, line_starts};
use crate::layout::{byte_len, lemma_vom_bounds, lemma_vom_ordered, ordered_mappings};
use crate::piece_table::{clamped, line_end, line_start, PieceTable};
use crate::text_lines::{
    lemma_find_line_range, lemma_line_start_boundary, lemma_valid_between, line_at, line_chars,
    line_of, line_text, num_lines,
};
use crate::unicode::{concat, grapheme_clusters, graphemes, lemma_encode_concat, lemma_part_bytes, string_views};
use crate::types::{Cursor, Decoration, Direction, Pos, Span};

verus! {

/// Whether the text is UTF-8, tabs take columns, and each line can be laid
/// out with the decorations without leaving `usize`.
pub open spec fn layout_ok(t: Seq<u8>, tab: int, decs: Seq<Span<Decoration>>) -> bool {
    &&& valid_utf8(t)
    &&& tab > 0
    &&& forall|y: int|
        0 <= y < num_lines(t) ==> #[trigger] vom_fits(line_chars(t, y), line_start(t, y), tab, decs)
}

/// Whether line `y` of the text, which is UTF-8, can be laid out with the
/// decorations, with tab stops of `tab` columns, without leaving `usize`.
pub open spec fn line_fits(t: Seq<u8>, y: int, tab: int, decs: Seq<Span<Decoration>>) -> bool {
    &&& valid_utf8(t)
    &&& tab > 0
    &&& vom_fits(line_chars(t, y), line_start(t, y), tab, decs)
}

/// Whether `layout_ok` holds of the table: its text is UTF-8, tabs take
/// columns, and each line can be laid out without leaving `usize`.
pub fn check_layout(table: &PieceTable, tab_width: usize, decs: &[Span<Decoration>]) -> (b: bool)
    requires
        table.wf(),
    ensures
        b == layout_ok(table.text(), tab_width as int, decs@),
{
    let ghost t = table.text();
    if tab_width == 0 {
        return false;
    }
    let len = table.len();
    proof {
        assert(clamped(t, 0, len as int) =~= t);
    }
    if !table.is_valid_slice(0, len) {
        return false;
    }
    let n = table.lines();
    let mut y: usize = 0;
    while y < n
        invariant
            table.wf(),
            t == table.text(),
            valid_utf8(t),
            tab_width > 0,
            n == num_lines(t),
            y <= n,
            forall|k: int| 0 <= k < y ==> #[trigger] vom_fits(line_chars(t, k), line_start(t, k), tab_width as int, decs@),
        decreases n - y,
    {
        let line = line_text(table, y);
        let start = table.get_line_start_byte(y);
        if !vom_fits_check(line.as_str(), start, tab_width, decs) {
            return false;
        }
        y = y + 1;
    }
    true
}

/// The offset to column mapping of line `y`.
pub open spec fn line_vom(t: Seq<u8>, y: int, tab: int, decs: Seq<Span<Decoration>>) -> Seq<(int, int)> {
    vom_spec(line_chars(t, y), line_start(t, y), tab, decs).vom
}

/// The last mapping at or left of column `x`.
pub open spec fn last_at_or_left(v: Seq<(int, int)>, x: int) -> Option<(int, int)>
    decreases v.len(),
{
    if v.len() == 0 {
        None
    } else if v.last().0 <= x {
        Some(v.last())
    } else {
        last_at_or_left(v.drop_last(), x)
    }
}

/// The first mapping at or after byte `offset`.
pub open spec fn first_at_or_after(v: Seq<(int, int)>, offset: int) -> Option<(int, int)>
    decreases v.len(),
{
    if v.len() == 0 {
        None
    } else if v[0].1 >= offset {
        Some(v[0])
    } else {
        first_at_or_after(v.drop_first(), offset)
    }
}

/// The index of the first mapping of byte `offset`, or 0.
pub open spec fn index_of_offset(v: Seq<(int, int)>, offset: int) -> int
    decreases v.len(),
{
    if v.len() == 0 {
        0
    } else if v[0].1 == offset {
        0
    } else {
        let k = index_of_offset(v.drop_first(), offset);
        if v.drop_first().len() > 0 && v.drop_first()[k].1 == offset {
            k + 1
        } else {
            0
        }
    }
}

/// The line a screen row stands for: the row, or the last line.
pub open spec fn row_line(t: Seq<u8>, y: int) -> int {
    if y < num_lines(t) - 1 {
        y
    } else {
        num_lines(t) - 1
    }
}

/// The byte a position points at: on its line (the last one for rows past
/// the end), the last mapping at or left of its column, else the line start.
pub open spec fn pos_offset(t: Seq<u8>, tab: int, decs: Seq<Span<Decoration>>, pos: Pos) -> int {
    let y = row_line(t, pos.y as int);
    match last_at_or_left(line_vom(t, y, tab, decs), pos.x as int) {
        Some(m) => m.1,
        None => line_start(t, y),
    }
}

/// The position of a byte: its line, and the column of the first mapping at
/// or after it (the last mapping's column, or 0, if there is none).
pub open spec fn offset_pos(t: Seq<u8>, tab: int, decs: Seq<Span<Decoration>>, offset: int) -> Pos {
    let y = line_of(t, offset);
    let v = line_vom(t, y, tab, decs);
    let x = match first_at_or_after(v, offset) {
        Some(m) => m.0,
        None => if v.len() > 0 {
            v.last().0
        } else {
            0
        },
    };
    Pos { x: x as usize, y: y as usize }
}

/// Lays out line `y` of the table.
fn layout_line(table: &PieceTable, y: usize, tab_width: usize, decs: &[Span<Decoration>]) -> (v: Vec<
    VisualOffsetMapping,
>)
    requires
        table.wf(),
        line_fits(table.text(), y as int, tab_width as int, decs@),
        y < num_lines(table.text()),
    ensures
        mapping_pairs(v@) == line_vom(table.text(), y as int, tab_width as int, decs@),
        forall|k: int| 0 <= k < v@.len() ==> #[trigger] mapping_pairs(v@)[k] == (v@[k].visual_x as int, v@[k].offset as int),
{
    let line = line_text(table, y);
    let start = table.get_line_start_byte(y);
    let (v, _) = layout_vom(line.as_str(), start, tab_width, decs);
    v
}

/// The last mapping of `v` at or left of column `x`.
fn find_last_at_or_left(v: &Vec<VisualOffsetMapping>, x: usize) -> (r: Option<VisualOffsetMapping>)
    ensures
        match last_at_or_left(mapping_pairs(v@), x as int) {
            Some(m) => r.is_some() && r.unwrap().visual_x == m.0 && r.unwrap().offset == m.1,
            None => r.is_none(),
        },
{
    let mut k = v.len();
    proof {
        assert(mapping_pairs(v@).take(k as int) == mapping_pairs(v@));
    }
    while k > 0
        invariant
            k <= v@.len(),
            last_at_or_left(mapping_pairs(v@), x as int) == last_at_or_left(mapping_pairs(v@).take(k as int), x as int),
        decreases k,
    {
        proof {
            assert(mapping_pairs(v@).take(k as int).drop_last() == mapping_pairs(v@).take(k - 1));
        }
        if v[k - 1].visual_x <= x {
            return Some(v[k - 1]);
        }
        k = k - 1;
    }
    proof {
        assert(mapping_pairs(v@).take(0) =~= Seq::<(int, int)>::empty());
    }
    None
}

/// The first mapping of `v` at or after byte `offset`.
fn find_first_at_or_after(v: &Vec<VisualOffsetMapping>, offset: usize) -> (r: Option<VisualOffsetMapping>)
    ensures
        match first_at_or_after(mapping_pairs(v@), offset as int) {
            Some(m) => r.is_some() && r.unwrap().visual_x == m.0 && r.unwrap().offset == m.1,
            None => r.is_none(),
        },
{
    let mut k: usize = 0;
    proof {
        assert(mapping_pairs(v@).skip(0) == mapping_pairs(v@));
    }
    while k < v.len()
        invariant
            k <= v@.len(),
            first_at_or_after(mapping_pairs(v@), offset as int) == first_at_or_after(mapping_pairs(v@).skip(k as int), offset as int),
        decreases v@.len() - k,
    {
        proof {
            assert(mapping_pairs(v@).skip(k as int).drop_first() == mapping_pairs(v@).skip(k + 1));
            assert(mapping_pairs(v@).skip(k as int)[0] == mapping_pairs(v@)[k as int]);
        }
        if v[k].offset >= offset {
            return Some(v[k]);
        }
        k = k + 1;
    }
    proof {
        assert(mapping_pairs(v@).skip(k as int) =~= Seq::<(int, int)>::empty());
    }
    None
}

/// The index of the first mapping of byte `offset`, or 0 if there is none.
fn position_of_offset(v: &Vec<VisualOffsetMapping>, offset: usize) -> (r: usize)
    ensures
        r == index_of_offset(mapping_pairs(v@), offset as int),
        v@.len() > 0 ==> r < v@.len(),
        v@.len() == 0 ==> r == 0,
{
    let ghost m = mapping_pairs(v@);
    let mut k: usize = 0;
    while k < v.len()
        invariant
            k <= v@.len(),
            m == mapping_pairs(v@),
            forall|j: int| 0 <= j < k ==> #[trigger] m[j].1 != offset,
        decreases v@.len() - k,
    {
        if v[k].offset == offset {
            proof {
                lemma_index_of_offset(m, offset as int, k as int);
            }
            return k;
        }
        k = k + 1;
    }
    proof {
        lemma_index_of_offset_none(m, offset as int);
    }
    0
}

proof fn lemma_index_of_offset(m: Seq<(int, int)>, offset: int, k: int)
    requires
        0 <= k < m.len(),
        m[k].1 == offset,
        forall|j: int| 0 <= j < k ==> #[trigger] m[j].1 != offset,
    ensures
        index_of_offset(m, offset) == k,
    decreases m.len(),
{
    if k > 0 {
        let r = m.drop_first();
        assert forall|j: int| 0 <= j < k - 1 implies #[trigger] r[j].1 != offset by {
            assert(r[j] == m[j + 1]);
        }
        lemma_index_of_offset(r, offset, k - 1);
    }
}

proof fn lemma_index_of_offset_none(m: Seq<(int, int)>, offset: int)
    requires
        forall|j: int| 0 <= j < m.len() ==> #[trigger] m[j].1 != offset,
    ensures
        index_of_offset(m, offset) == 0,
    decreases m.len(),
{
    if m.len() > 0 {
        let r = m.drop_first();
        assert forall|j: int| 0 <= j < r.len() implies #[trigger] r[j].1 != offset by {
            assert(r[j] == m[j + 1]);
        }
        lemma_index_of_offset_none(r, offset);
    }
}

/// The byte offset that the screen position `pos` of a view points at.
pub fn pos_to_offset(table: &PieceTable, tab_width: usize, decs: &[Span<Decoration>], pos: Pos) -> (r: usize)
    requires
        table.wf(),
        layout_ok(table.text(), tab_width as int, decs@),
    ensures
        r == pos_offset(table.text(), tab_width as int, decs@, pos),
{
    proof {
        lemma_line_starts_basic(table.text());
    }
    let lines = table.lines();
    let y = if pos.y < lines - 1 { pos.y } else { lines - 1 };
    let start = table.get_line_start_byte(y);
    let vom = layout_line(table, y, tab_width, decs);
    match find_last_at_or_left(&vom, pos.x) {
        Some(vo) => vo.offset,
        None => start,
    }
}

/// The screen position, in the view's text, of byte `offset`.
pub fn offset_to_pos(table: &PieceTable, tab_width: usize, decs: &[Span<Decoration>], offset: usize) -> (p: Pos)
    requires
        table.wf(),
        layout_ok(table.text(), tab_width as int, decs@),
    ensures
        p == offset_pos(table.text(), tab_width as int, decs@, offset as int),
{
    let target = line_at(table, offset);
    let vom = layout_line(table, target, tab_width, decs);
    let x = match find_first_at_or_after(&vom, offset) {
        Some(vo) => vo.visual_x,
        None => if vom.len() > 0 {
            vom[vom.len() - 1].visual_x
        } else {
            0
        },
    };
    Pos::new(x, target)
}

/// Where a cursor goes when it moves one step in `dir`. Up and down keep the
/// preferred column and land on the last mapping at or left of it on the
/// line above or below (the line's first mapping if there is none); up on the
/// first line goes to the start of the text, down on the last line to its
/// end. Left and right go to the neighbouring mapping of the line, and take
/// its column as the preferred one; at the start of a line left goes to the
/// last mapping of the line above (its start if it has none), at the end of
/// a line right goes to the start of the line below. Every line is laid out
/// with the decorations of the cursor's own line, `ld[y]`.
pub open spec fn moved(t: Seq<u8>, tab: int, ld: Seq<Vec<Span<Decoration>>>, c: Cursor, dir: Direction) -> Cursor {
    let lines = num_lines(t);
    let y = line_of(t, c.offset as int);
    let decs = decs_at(ld, y);
    let v = line_vom(t, y, tab, decs);
    let idx = index_of_offset(v, c.offset as int);
    match dir {
        Direction::Up => if y == 0 {
            Cursor { offset: 0, pref_x: c.pref_x }
        } else {
            let v2 = line_vom(t, y - 1, tab, decs);
            let m = match last_at_or_left(v2, c.pref_x as int) {
                Some(m) => m,
                None => v2[0],
            };
            Cursor { offset: m.1 as usize, pref_x: c.pref_x }
        },
        Direction::Down => if y + 1 == lines {
            Cursor { offset: t.len() as usize, pref_x: c.pref_x }
        } else {
            let v2 = line_vom(t, y + 1, tab, decs);
            let m = match last_at_or_left(v2, c.pref_x as int) {
                Some(m) => m,
                None => v2[0],
            };
            Cursor { offset: m.1 as usize, pref_x: c.pref_x }
        },
        Direction::Left => if idx > 0 {
            Cursor { offset: v[idx - 1].1 as usize, pref_x: v[idx - 1].0 as usize }
        } else if y > 0 {
            let v2 = line_vom(t, y - 1, tab, decs);
            if v2.len() > 0 {
                Cursor { offset: v2.last().1 as usize, pref_x: v2.last().0 as usize }
            } else {
                Cursor { offset: line_start(t, y - 1) as usize, pref_x: 0 }
            }
        } else {
            c
        },
        Direction::Right => if idx + 1 < v.len() {
            Cursor { offset: v[idx + 1].1 as usize, pref_x: v[idx + 1].0 as usize }
        } else if y + 1 < lines {
            Cursor { offset: line_start(t, y + 1) as usize, pref_x: 0 }
        } else {
            c
        },
    }
}

/// The decorations given for line `y`.
pub open spec fn decs_at(ld: Seq<Vec<Span<Decoration>>>, y: int) -> Seq<Span<Decoration>> {
    ld[y]@
}

/// What moving a cursor needs: decorations for every line; the cursor's line,
/// and each line the move lays out, fit in `usize` with the decorations of the
/// cursor's line; and moving up or down finds a mapping on the line it lands
/// on.
pub open spec fn move_ok(t: Seq<u8>, tab: int, ld: Seq<Vec<Span<Decoration>>>, c: Cursor, dir: Direction) -> bool {
    let y = line_of(t, c.offset as int);
    let decs = decs_at(ld, y);
    &&& ld.len() == num_lines(t)
    &&& line_fits(t, y, tab, decs)
    &&& match dir {
        Direction::Up => y > 0 ==> line_fits(t, y - 1, tab, decs) && line_vom(t, y - 1, tab, decs).len() > 0,
        Direction::Down => y + 1 < num_lines(t) ==> line_fits(t, y + 1, tab, decs) && line_vom(
            t,
            y + 1,
            tab,
            decs,
        ).len() > 0,
        Direction::Left => y > 0 && index_of_offset(line_vom(t, y, tab, decs), c.offset as int) == 0
            ==> line_fits(t, y - 1, tab, decs),
        Direction::Right => true,
    }
}

/// Moving left from a cursor that stands on a mapping of its line other
/// than the first lands on the mapping just before it: a smaller offset on
/// the same line, with no mapping of the line strictly between the two, and
/// that mapping's column as the preferred one. (The graphemes a text splits
/// into are never empty.)
pub proof fn lemma_move_left_one_grapheme(t: Seq<u8>, tab: int, ld: Seq<Vec<Span<Decoration>>>, c: Cursor, j: int)
    requires
        tab > 0,
        forall|s: Seq<char>, k: int| 0 <= k < grapheme_clusters(s).len() ==> #[trigger] grapheme_clusters(s)[k].len() > 0,
        ({
            let y = line_of(t, c.offset as int);
            let v = line_vom(t, y, tab, decs_at(ld, y));
            0 < j < v.len() && v[j].1 == c.offset
        }),
    ensures
        ({
            let y = line_of(t, c.offset as int);
            let v = line_vom(t, y, tab, decs_at(ld, y));
            let m = moved(t, tab, ld, c, Direction::Left);
            &&& m.offset < c.offset
            &&& exists|k: int| 0 <= k < v.len() && v[k].1 == m.offset && m.pref_x == v[k].0 as usize
            &&& forall|k: int| 0 <= k < v.len() ==> !(m.offset < #[trigger] v[k].1 < c.offset)
        }),
{
    let y = line_of(t, c.offset as int);
    let decs = decs_at(ld, y);
    let v = line_vom(t, y, tab, decs);
    let line = line_chars(t, y);
    lemma_vom_ordered(line, line_start(t, y), tab, decs);
    lemma_vom_bounds(line, line_start(t, y), tab, decs);
    lemma_line_starts_basic(t);
    assert(line_start(t, y) >= 0);
    assert(ordered_mappings(v));
    assert forall|i: int| 0 <= i < j implies #[trigger] v[i].1 != c.offset by {
        assert(v[i].1 < v[j].1);
    }
    lemma_index_of_offset(v, c.offset as int, j);
    let m = moved(t, tab, ld, c, Direction::Left);
    assert(m == Cursor { offset: v[j - 1].1 as usize, pref_x: v[j - 1].0 as usize });
    assert(v[j - 1].1 < v[j].1);
    assert(v[j - 1].1 >= line_start(t, y));
    assert forall|k: int| 0 <= k < v.len() implies !(m.offset < #[trigger] v[k].1 < c.offset) by {
        if k < j - 1 {
            assert(v[k].1 < v[j - 1].1);
        } else if k > j {
            assert(v[j].1 < v[k].1);
        }
    }
    assert(v[j - 1].1 == m.offset);
}

/// `c` put into the cursors `s`, which are ordered by offset; a cursor that
/// is already at its offset stays and `c` is dropped.
pub open spec fn insert_cursor(s: Seq<Cursor>, c: Cursor) -> Seq<Cursor>
    decreases s.len(),
{
    if s.len() == 0 {
        seq![c]
    } else if s[0].offset == c.offset {
        s
    } else if c.offset < s[0].offset {
        seq![c] + s
    } else {
        seq![s[0]] + insert_cursor(s.drop_first(), c)
    }
}

/// The cursors ordered by offset, keeping of the cursors at one offset the
/// first one.
pub open spec fn sorted_cursors(cs: Seq<Cursor>) -> Seq<Cursor>
    decreases cs.len(),
{
    if cs.len() == 0 {
        Seq::empty()
    } else {
        insert_cursor(sorted_cursors(cs.drop_last()), cs.last())
    }
}

/// The offsets of the cursors strictly increase.
pub open spec fn strictly_ordered(cs: Seq<Cursor>) -> bool {
    forall|i: int, j: int| 0 <= i < j < cs.len() ==> cs[i].offset < cs[j].offset
}

/// Whether one of the cursors stands at `o`.
pub open spec fn has_offset(s: Seq<Cursor>, o: usize) -> bool {
    exists|i: int| 0 <= i < s.len() && #[trigger] s[i].offset == o
}

/// Inserting keeps cursors strictly ordered, and the offsets present are the
/// old ones and the new one.
pub proof fn lemma_insert_cursor(s: Seq<Cursor>, c: Cursor)
    requires
        strictly_ordered(s),
    ensures
        strictly_ordered(insert_cursor(s, c)),
        forall|o: usize| #[trigger] has_offset(insert_cursor(s, c), o) <==> (o == c.offset || has_offset(s, o)),
    decreases s.len(),
{
    let out = insert_cursor(s, c);
    if s.len() > 0 && s[0].offset != c.offset && c.offset >= s[0].offset {
        let r = s.drop_first();
        assert(strictly_ordered(r)) by {
            assert forall|i: int, j: int| 0 <= i < j < r.len() implies r[i].offset < r[j].offset by {
                assert(r[i] == s[i + 1] && r[j] == s[j + 1]);
            }
        }
        lemma_insert_cursor(r, c);
        let ins = insert_cursor(r, c);
        assert(out == seq![s[0]] + ins);
        assert forall|k: int| 0 <= k < ins.len() implies s[0].offset < #[trigger] ins[k].offset by {
            if ins[k].offset != c.offset {
                assert(has_offset(ins, ins[k].offset));
                let i = choose|i: int| 0 <= i < r.len() && #[trigger] r[i].offset == ins[k].offset;
                assert(r[i] == s[i + 1]);
            }
        }
        assert forall|i: int, j: int| 0 <= i < j < out.len() implies out[i].offset < out[j].offset by {
            if i > 0 {
                assert(out[i] == ins[i - 1] && out[j] == ins[j - 1]);
            } else {
                assert(out[j] == ins[j - 1]);
            }
        }
        assert forall|o: usize| #[trigger] has_offset(out, o) <==> (o == c.offset || has_offset(s, o)) by {
            if o == c.offset || has_offset(s, o) {
                if o != c.offset {
                    let i = choose|i: int| 0 <= i < s.len() && #[trigger] s[i].offset == o;
                    if i == 0 {
                        assert(out[0] == s[0]);
                    } else {
                        assert(r[i - 1] == s[i]);
                        assert(has_offset(r, o));
                    }
                }
                if o == c.offset || has_offset(r, o) {
                    assert(has_offset(ins, o));
                    let k = choose|k: int| 0 <= k < ins.len() && #[trigger] ins[k].offset == o;
                    assert(out[k + 1] == ins[k]);
                }
            }
            if has_offset(out, o) {
                let i = choose|i: int| 0 <= i < out.len() && #[trigger] out[i].offset == o;
                if i == 0 {
                    assert(s[0].offset == o);
                } else {
                    assert(out[i] == ins[i - 1]);
                    assert(has_offset(ins, o));
                    if o != c.offset {
                        assert(has_offset(r, o));
                        let j = choose|j: int| 0 <= j < r.len() && #[trigger] r[j].offset == o;
                        assert(r[j] == s[j + 1]);
                    }
                }
            }
        }
    } else if s.len() > 0 && s[0].offset != c.offset {
        assert(out == seq![c] + s);
        assert forall|i: int, j: int| 0 <= i < j < out.len() implies out[i].offset < out[j].offset by {
            if i > 0 {
                assert(out[i] == s[i - 1] && out[j] == s[j - 1]);
            } else {
                assert(out[j] == s[j - 1]);
                assert(s[0].offset <= s[j - 1].offset);
            }
        }
        assert forall|o: usize| #[trigger] has_offset(out, o) <==> (o == c.offset || has_offset(s, o)) by {
            if has_offset(s, o) {
                let i = choose|i: int| 0 <= i < s.len() && #[trigger] s[i].offset == o;
                assert(out[i + 1] == s[i]);
            }
            if has_offset(out, o) {
                let i = choose|i: int| 0 <= i < out.len() && #[trigger] out[i].offset == o;
                if i > 0 {
                    assert(out[i] == s[i - 1]);
                }
            }
            if o == c.offset {
                assert(out[0] == c);
            }
        }
    } else if s.len() > 0 {
        assert forall|o: usize| #[trigger] has_offset(out, o) <==> (o == c.offset || has_offset(s, o)) by {
            if o == c.offset {
                assert(s[0].offset == o);
            }
        }
    } else {
        assert forall|o: usize| #[trigger] has_offset(out, o) <==> (o == c.offset || has_offset(s, o)) by {
            if o == c.offset {
                assert(out[0].offset == o);
            }
        }
    }
}

/// Sorting leaves the cursors strictly ordered, at exactly the offsets they
/// had.
pub proof fn lemma_sorted_cursors(cs: Seq<Cursor>)
    ensures
        strictly_ordered(sorted_cursors(cs)),
        forall|o: usize| #[trigger] has_offset(sorted_cursors(cs), o) <==> has_offset(cs, o),
    decreases cs.len(),
{
    if cs.len() > 0 {
        let p = cs.drop_last();
        lemma_sorted_cursors(p);
        lemma_insert_cursor(sorted_cursors(p), cs.last());
        assert forall|o: usize| #[trigger] has_offset(sorted_cursors(cs), o) <==> has_offset(cs, o) by {
            if has_offset(cs, o) {
                let i = choose|i: int| 0 <= i < cs.len() && #[trigger] cs[i].offset == o;
                if i < cs.len() - 1 {
                    assert(p[i] == cs[i]);
                    assert(has_offset(p, o));
                }
            }
            if has_offset(p, o) {
                let i = choose|i: int| 0 <= i < p.len() && #[trigger] p[i].offset == o;
                assert(cs[i] == p[i]);
            }
            if o == cs.last().offset {
                assert(cs[cs.len() - 1].offset == o);
            }
        }
    } else {
        assert(sorted_cursors(cs) =~= Seq::<Cursor>::empty());
    }
}

/// `c` put into the ordered cursors `s`.
fn insert_cursor_into(s: &mut Vec<Cursor>, c: Cursor)
    ensures
        final(s)@ == insert_cursor(old(s)@, c),
{
    let ghost s0 = s@;
    let mut k: usize = 0;
    proof {
        assert(s0.skip(0) == s0);
        assert(s0.take(0) + insert_cursor(s0.skip(0), c) =~= insert_cursor(s0, c));
    }
    while k < s.len()
        invariant
            k <= s@.len(),
            s@ == s0,
            s0 == old(s)@,
            insert_cursor(s0, c) == s0.take(k as int) + insert_cursor(s0.skip(k as int), c),
        decreases s@.len() - k,
    {
        proof {
            assert(s0.skip(k as int)[0] == s0[k as int]);
            assert(s0.skip(k as int).drop_first() == s0.skip(k + 1));
        }
        if s[k].offset == c.offset {
            proof {
                assert(insert_cursor(s0.skip(k as int), c) == s0.skip(k as int));
                assert(s0.take(k as int) + s0.skip(k as int) =~= s0);
            }
            return;
        }
        if c.offset < s[k].offset {
            s.insert(k, c);
            proof {
                assert(insert_cursor(s0.skip(k as int), c) == seq![c] + s0.skip(k as int));
                assert(s@ =~= s0.take(k as int) + (seq![c] + s0.skip(k as int)));
            }
            return;
        }
        proof {
            assert(s0.take(k as int) + (seq![s0[k as int]] + insert_cursor(s0.skip(k + 1), c))
                =~= s0.take(k + 1) + insert_cursor(s0.skip(k + 1), c));
        }
        k = k + 1;
    }
    s.push(c);
    proof {
        assert(s0.skip(k as int) =~= Seq::<Cursor>::empty());
        assert(s@ =~= s0.take(k as int) + seq![c]);
    }
}

/// The cursors ordered by offset, keeping of the cursors at one offset the
/// first one.
pub fn sort_cursors(cs: &Vec<Cursor>) -> (r: Vec<Cursor>)
    ensures
        r@ == sorted_cursors(cs@),
        strictly_ordered(r@),
{
    let mut r: Vec<Cursor> = Vec::new();
    let mut k: usize = 0;
    proof {
        assert(cs@.take(0) =~= Seq::<Cursor>::empty());
    }
    while k < cs.len()
        invariant
            k <= cs@.len(),
            r@ == sorted_cursors(cs@.take(k as int)),
        decreases cs@.len() - k,
    {
        insert_cursor_into(&mut r, cs[k]);
        proof {
            assert(cs@.take(k + 1).drop_last() == cs@.take(k as int));
        }
        k = k + 1;
    }
    proof {
        assert(cs@.take(cs@.len() as int) == cs@);
        lemma_sorted_cursors(cs@);
    }
    r
}

/// Moves one cursor one step in `dir`.
pub fn move_cursor(table: &PieceTable, tab_width: usize, line_decs: &Vec<Vec<Span<Decoration>>>, c: Cursor, dir: Direction) -> (r: Cursor)
    requires
        table.wf(),
        move_ok(table.text(), tab_width as int, line_decs@, c, dir),
    ensures
        r == moved(table.text(), tab_width as int, line_decs@, c, dir),
{
    let ghost t = table.text();
    proof {
        lemma_line_starts_basic(t);
    }
    let lines = table.lines();
    let curr_y = line_at(table, c.offset);
    let decs = line_decs[curr_y].as_slice();
    let vom = layout_line(table, curr_y, tab_width, decs);
    let idx = position_of_offset(&vom, c.offset);
    match dir {
        Direction::Up => {
            if curr_y == 0 {
                return Cursor::new(0, c.pref_x);
            }
            let v2 = layout_line(table, curr_y - 1, tab_width, decs);
            let vo = match find_last_at_or_left(&v2, c.pref_x) {
                Some(vo) => vo,
                None => v2[0],
            };
            Cursor::new(vo.offset, c.pref_x)
        },
        Direction::Down => {
            if curr_y + 1 == lines {
                return Cursor::new(table.len(), c.pref_x);
            }
            let v2 = layout_line(table, curr_y + 1, tab_width, decs);
            let vo = match find_last_at_or_left(&v2, c.pref_x) {
                Some(vo) => vo,
                None => v2[0],
            };
            Cursor::new(vo.offset, c.pref_x)
        },
        Direction::Left => {
            if idx > 0 {
                Cursor::new(vom[idx - 1].offset, vom[idx - 1].visual_x)
            } else if curr_y > 0 {
                let v2 = layout_line(table, curr_y - 1, tab_width, decs);
                if v2.len() > 0 {
                    let last = v2[v2.len() - 1];
                    Cursor::new(last.offset, last.visual_x)
                } else {
                    Cursor::new(table.get_line_start_byte(curr_y - 1), 0)
                }
            } else {
                c
            }
        },
        Direction::Right => {
            if vom.len() > 0 && idx < vom.len() - 1 {
                Cursor::new(vom[idx + 1].offset, vom[idx + 1].visual_x)
            } else if curr_y + 1 < lines {
                Cursor::new(table.get_line_start_byte(curr_y + 1), 0)
            } else {
                c
            }
        },
    }
}

/// The cursors after each moved one step in `dir`.
pub open spec fn moved_all(t: Seq<u8>, tab: int, ld: Seq<Vec<Span<Decoration>>>, cs: Seq<Cursor>, dir: Direction) -> Seq<
    Cursor,
> {
    cs.map_values(|c: Cursor| moved(t, tab, ld, c, dir))
}

/// Moves every cursor of a view one step in `dir`; cursors that meet merge.
/// `line_decs` holds, for each line of the text, the decorations given for
/// that line.
pub fn move_cursors(
    table: &PieceTable,
    tab_width: usize,
    line_decs: &Vec<Vec<Span<Decoration>>>,
    cursors: &mut Vec<Cursor>,
    dir: Direction,
)
    requires
        table.wf(),
        forall|i: int| 0 <= i < old(cursors)@.len() ==> move_ok(table.text(), tab_width as int, line_decs@, #[trigger] old(cursors)@[i], dir),
    ensures
        final(cursors)@ == sorted_cursors(moved_all(table.text(), tab_width as int, line_decs@, old(cursors)@, dir)),
        strictly_ordered(final(cursors)@),
{
    let ghost t = table.text();
    let ghost c0 = cursors@;
    let mut moved_cs: Vec<Cursor> = Vec::new();
    let mut k: usize = 0;
    while k < cursors.len()
        invariant
            table.wf(),
            t == table.text(),
            cursors@ == c0,
            k <= c0.len(),
            forall|i: int| 0 <= i < c0.len() ==> move_ok(t, tab_width as int, line_decs@, #[trigger] c0[i], dir),
            moved_cs@ == moved_all(t, tab_width as int, line_decs@, c0.take(k as int), dir),
        decreases c0.len() - k,
    {
        let c = move_cursor(table, tab_width, line_decs, cursors[k], dir);
        moved_cs.push(c);
        k = k + 1;
        proof {
            assert(moved_cs@ =~= moved_all(t, tab_width as int, line_decs@, c0.take(k as int), dir));
        }
    }
    proof {
        assert(c0.take(c0.len() as int) == c0);
    }
    *cursors = sort_cursors(&moved_cs);
}

/// One edit of a transaction: `remove` bytes go at `offset`, then `insert`
/// goes in there.
pub struct Edit {
    pub offset: usize,
    pub remove: usize,
    pub insert: String,
}

/// The mathematical model of an `Edit`.
pub struct EditView {
    pub offset: int,
    pub remove: int,
    pub insert: Seq<char>,
}

impl View for Edit {
    type V = EditView;

    open spec fn view(&self) -> EditView {
        EditView { offset: self.offset as int, remove: self.remove as int, insert: self.insert@ }
    }
}

/// The views of a sequence of edits.
pub open spec fn edit_views(es: Seq<Edit>) -> Seq<EditView> {
    es.map_values(|e: Edit| e@)
}

impl Edit {
    pub fn new(offset: usize, remove: usize, insert: String) -> (e: Self)
        ensures
            e@ == (EditView { offset: offset as int, remove: remove as int, insert: insert@ }),
    {
        Edit { offset, remove, insert }
    }

    /// A copy of this edit.
    pub fn duplicate(&self) -> (e: Self)
        ensures
            e@ == self@,
    {
        Edit { offset: self.offset, remove: self.remove, insert: self.insert.clone() }
    }
}

/// The number of bytes an edit inserts.
pub open spec fn ins_len(e: EditView) -> int {
    encode_utf8(e.insert).len() as int
}

/// `e` put into the edits `s`, which are ordered by decreasing offset; an
/// edit that is already at its offset stays and `e` is dropped.
pub open spec fn insert_edit(s: Seq<EditView>, e: EditView) -> Seq<EditView>
    decreases s.len(),
{
    if s.len() == 0 {
        seq![e]
    } else if s[0].offset == e.offset {
        s
    } else if s[0].offset < e.offset {
        seq![e] + s
    } else {
        seq![s[0]] + insert_edit(s.drop_first(), e)
    }
}

/// The edits ordered by decreasing offset, keeping of the edits at one
/// offset the first one.
pub open spec fn sorted_edits(es: Seq<EditView>) -> Seq<EditView>
    decreases es.len(),
{
    if es.len() == 0 {
        Seq::empty()
    } else {
        insert_edit(sorted_edits(es.drop_last()), es.last())
    }
}

/// The text after one edit: its bytes removed, then its text inserted.
pub open spec fn apply_edit(t: Seq<u8>, e: EditView) -> Seq<u8> {
    let t1 = if e.remove > 0 {
        t.subrange(0, e.offset) + t.subrange(e.offset + e.remove, t.len() as int)
    } else {
        t
    };
    if e.insert.len() > 0 {
        t1.subrange(0, e.offset) + encode_utf8(e.insert) + t1.subrange(e.offset, t1.len() as int)
    } else {
        t1
    }
}

/// The text after the edits, in order.
pub open spec fn apply_edits(t: Seq<u8>, es: Seq<EditView>) -> Seq<u8>
    decreases es.len(),
{
    if es.len() == 0 {
        t
    } else {
        apply_edit(apply_edits(t, es.drop_last()), es.last())
    }
}

/// The bytes the edits insert.
pub open spec fn inserted(es: Seq<EditView>) -> int
    decreases es.len(),
{
    if es.len() == 0 {
        0
    } else {
        inserted(es.drop_last()) + if es.last().insert.len() > 0 {
            ins_len(es.last())
        } else {
            0
        }
    }
}

/// An edit fits the text `t` and an append buffer of `buf` bytes: what it
/// removes lies in the text, where it inserts lies in what is left, and the
/// lengths stay within `usize`.
pub open spec fn edit_ok(t: Seq<u8>, buf: int, e: EditView) -> bool {
    let t1 = if e.remove > 0 {
        t.subrange(0, e.offset) + t.subrange(e.offset + e.remove, t.len() as int)
    } else {
        t
    };
    &&& e.offset >= 0
    &&& (e.remove > 0 ==> e.offset + e.remove <= t.len())
    &&& (e.insert.len() > 0 ==> e.offset <= t1.len() && t1.len() + ins_len(e) <= usize::MAX
        && buf + ins_len(e) <= usize::MAX)
}

/// Each edit, in order, fits the text the edits before it leave.
pub open spec fn edits_ok(t: Seq<u8>, buf: int, es: Seq<EditView>) -> bool
    decreases es.len(),
{
    if es.len() == 0 {
        true
    } else {
        edits_ok(t, buf, es.drop_last()) && edit_ok(
            apply_edits(t, es.drop_last()),
            buf + inserted(es.drop_last()),
            es.last(),
        )
    }
}

/// The length of the text after an edit that fits it.
proof fn lemma_apply_edit_len(t: Seq<u8>, buf: int, e: EditView)
    requires
        edit_ok(t, buf, e),
    ensures
        apply_edit(t, e).len() == t.len() - (if e.remove > 0 { e.remove } else { 0 }) + (if e.insert.len() > 0 {
            ins_len(e)
        } else {
            0
        }),
{
}

/// Whether the edits, in order, fit the table's text and its append buffer
/// (see `edit_ok`).
pub fn check_edits(table: &PieceTable, es: &Vec<Edit>) -> (b: bool)
    requires
        table.wf(),
    ensures
        b == edits_ok(table.text(), table.buffer_len() as int, edit_views(es@)),
{
    let ghost t = table.text();
    let ghost buf = table.buffer_len() as int;
    let ghost ev = edit_views(es@);
    let mut n = table.len();
    let mut b = table.buffer_size();
    let mut k: usize = 0;
    proof {
        assert(ev.take(0) =~= Seq::<EditView>::empty());
    }
    while k < es.len()
        invariant
            k <= es@.len(),
            ev == edit_views(es@),
            t == table.text(),
            buf == table.buffer_len() as int,
            edits_ok(t, buf, ev.take(k as int)),
            n == apply_edits(t, ev.take(k as int)).len(),
            b == buf + inserted(ev.take(k as int)),
        decreases es@.len() - k,
    {
        let e = &es[k];
        let ghost tk = apply_edits(t, ev.take(k as int));
        let ghost bk = buf + inserted(ev.take(k as int));
        proof {
            assert(ev.take(k + 1).drop_last() == ev.take(k as int));
            assert(ev.take(k + 1).last() == ev[k as int]);
            assert(ev[k as int] == e@);
        }
        let ins = e.insert.as_str().as_bytes().len();
        let empty = e.insert.as_str().is_empty();
        proof {
            if e@.insert.len() > 0 {
                crate::layout::lemma_byte_len_pos(e@.insert);
            }
        }
        let n1 = if e.remove > 0 {
            if e.offset > n || e.remove > n - e.offset {
                proof {
                    assert(!edit_ok(tk, bk, ev[k as int]));
                    if edits_ok(t, buf, ev) {
                        lemma_edits_ok_prefix(t, buf, ev, k + 1);
                    }
                }
                return false;
            }
            n - e.remove
        } else {
            n
        };
        if !empty {
            if e.offset > n1 || ins > usize::MAX - n1 || ins > usize::MAX - b {
                proof {
                    assert(!edit_ok(tk, bk, ev[k as int]));
                    if edits_ok(t, buf, ev) {
                        lemma_edits_ok_prefix(t, buf, ev, k + 1);
                    }
                }
                return false;
            }
            n = n1 + ins;
            b = b + ins;
        } else {
            n = n1;
        }
        proof {
            lemma_apply_edit_len(tk, bk, ev[k as int]);
        }
        k = k + 1;
    }
    proof {
        assert(ev.take(es@.len() as int) == ev);
    }
    true
}

/// Whether each cursor can be shifted by the edits, in order, within
/// `usize` (see `shift_edit_ok`).
pub fn check_shifts(cursors: &Vec<Cursor>, es: &Vec<Edit>) -> (b: bool)
    ensures
        b == forall|i: int| 0 <= i < cursors@.len() ==> shift_ok(#[trigger] cursors@[i].offset as int, edit_views(es@)),
{
    let ghost ev = edit_views(es@);
    let mut i: usize = 0;
    while i < cursors.len()
        invariant
            i <= cursors@.len(),
            ev == edit_views(es@),
            forall|j: int| 0 <= j < i ==> shift_ok(#[trigger] cursors@[j].offset as int, ev),
        decreases cursors@.len() - i,
    {
        let ghost o0 = cursors@[i as int].offset as int;
        let mut o = cursors[i].offset;
        let mut k: usize = 0;
        proof {
            assert(ev.take(0) =~= Seq::<EditView>::empty());
        }
        while k < es.len()
            invariant
                k <= es@.len(),
                i < cursors@.len(),
                ev == edit_views(es@),
                o0 == cursors@[i as int].offset as int,
                shift_ok(o0, ev.take(k as int)),
                o == shift_by_edits(o0, ev.take(k as int)),
            decreases es@.len() - k,
        {
            let e = &es[k];
            proof {
                assert(ev.take(k + 1).drop_last() == ev.take(k as int));
                assert(ev.take(k + 1).last() == ev[k as int]);
                assert(ev[k as int] == e@);
            }
            let ins = e.insert.as_str().as_bytes().len();
            let ok = if e.offset < o {
                e.remove <= usize::MAX - e.offset && (o < e.offset + e.remove || ins <= usize::MAX - o)
            } else if e.offset == o {
                ins <= usize::MAX - o
            } else {
                true
            };
            if !ok {
                proof {
                    assert(!shift_edit_ok(o as int, ev[k as int]));
                    if shift_ok(o0, ev) {
                        lemma_shift_ok_prefix(o0, ev, k + 1);
                    }
                }
                return false;
            }
            if e.offset < o {
                if o < e.offset + e.remove {
                    o = e.offset;
                } else {
                    o = o - e.remove + ins;
                }
            } else if e.offset == o {
                o = o + ins;
            }
            k = k + 1;
        }
        proof {
            assert(ev.take(es@.len() as int) == ev);
        }
        i = i + 1;
    }
    true
}

/// Whether one of the edits changes the text.
pub open spec fn changes_text(es: Seq<EditView>) -> bool {
    exists|i: int| 0 <= i < es.len() && (es[i].remove > 0 || es[i].insert.len() > 0)
}

/// Where a cursor at `o` goes after the edit `e`: an edit before it moves
/// it by what it inserts and removes, or to the edit if the removal
/// swallowed it; an edit at it puts it after the inserted text.
pub open spec fn shift_by_edit(o: int, e: EditView) -> int {
    if e.offset < o {
        if o < e.offset + e.remove {
            e.offset
        } else {
            o + ins_len(e) - e.remove
        }
    } else if e.offset == o {
        o + ins_len(e)
    } else {
        o
    }
}

/// Where a cursor at `o` goes after the edits, in order.
pub open spec fn shift_by_edits(o: int, es: Seq<EditView>) -> int
    decreases es.len(),
{
    if es.len() == 0 {
        o
    } else {
        shift_by_edit(shift_by_edits(o, es.drop_last()), es.last())
    }
}

/// Shifting a cursor at `o` by one edit stays within `usize`.
pub open spec fn shift_edit_ok(o: int, e: EditView) -> bool {
    &&& (e.offset < o ==> e.offset + e.remove <= usize::MAX)
    &&& (e.offset < o && o >= e.offset + e.remove ==> o + ins_len(e) <= usize::MAX)
    &&& (e.offset == o ==> o + ins_len(e) <= usize::MAX)
}

/// Shifting a cursor at `o` by the edits stays within `usize`.
pub open spec fn shift_ok(o: int, es: Seq<EditView>) -> bool
    decreases es.len(),
{
    if es.len() == 0 {
        true
    } else {
        shift_ok(o, es.drop_last()) && shift_edit_ok(shift_by_edits(o, es.drop_last()), es.last())
    }
}

/// The cursors after the edits.
pub open spec fn shifted_cursors(cs: Seq<Cursor>, es: Seq<EditView>) -> Seq<Cursor> {
    cs.map_values(|c: Cursor| Cursor { offset: shift_by_edits(c.offset as int, es) as usize, pref_x: c.pref_x })
}

/// `e` put into the ordered edits `s`.
fn insert_edit_into(s: &mut Vec<Edit>, e: Edit)
    ensures
        edit_views(final(s)@) == insert_edit(edit_views(old(s)@), e@),
{
    let ghost s0 = edit_views(s@);
    let mut k: usize = 0;
    proof {
        assert(s0.skip(0) == s0);
        assert(s0.take(0) + insert_edit(s0.skip(0), e@) =~= insert_edit(s0, e@));
    }
    while k < s.len()
        invariant
            k <= s@.len(),
            edit_views(s@) == s0,
            s0 == edit_views(old(s)@),
            insert_edit(s0, e@) == s0.take(k as int) + insert_edit(s0.skip(k as int), e@),
        decreases s@.len() - k,
    {
        proof {
            assert(s0.skip(k as int)[0] == s0[k as int]);
            assert(s0.skip(k as int).drop_first() == s0.skip(k + 1));
            assert(s0[k as int] == s@[k as int]@);
        }
        if s[k].offset == e.offset {
            proof {
                assert(insert_edit(s0.skip(k as int), e@) == s0.skip(k as int));
                assert(s0.take(k as int) + s0.skip(k as int) =~= s0);
            }
            return;
        }
        if s[k].offset < e.offset {
            let ghost ev = e@;
            s.insert(k, e);
            proof {
                assert(insert_edit(s0.skip(k as int), ev) == seq![ev] + s0.skip(k as int));
                assert(edit_views(s@) =~= s0.take(k as int) + (seq![ev] + s0.skip(k as int)));
            }
            return;
        }
        proof {
            assert(s0.take(k as int) + (seq![s0[k as int]] + insert_edit(s0.skip(k + 1), e@))
                =~= s0.take(k + 1) + insert_edit(s0.skip(k + 1), e@));
        }
        k = k + 1;
    }
    let ghost ev = e@;
    s.push(e);
    proof {
        assert(s0.skip(k as int) =~= Seq::<EditView>::empty());
        assert(edit_views(s@) =~= s0.take(k as int) + seq![ev]);
    }
}

/// The edits ordered by decreasing offset, keeping of the edits at one
/// offset the first one.
pub fn sort_edits(es: &Vec<Edit>) -> (r: Vec<Edit>)
    ensures
        edit_views(r@) == sorted_edits(edit_views(es@)),
{
    let ghost ev = edit_views(es@);
    let mut r: Vec<Edit> = Vec::new();
    let mut k: usize = 0;
    proof {
        assert(ev.take(0) =~= Seq::<EditView>::empty());
        assert(edit_views(r@) =~= Seq::<EditView>::empty());
    }
    while k < es.len()
        invariant
            k <= es@.len(),
            ev == edit_views(es@),
            edit_views(r@) == sorted_edits(ev.take(k as int)),
        decreases es@.len() - k,
    {
        insert_edit_into(&mut r, es[k].duplicate());
        proof {
            assert(ev.take(k + 1).drop_last() == ev.take(k as int));
            assert(ev.take(k + 1).last() == es@[k as int]@);
        }
        k = k + 1;
    }
    proof {
        assert(ev.take(es@.len() as int) == ev);
    }
    r
}

/// Where a cursor at `o` goes after the edits `es`, in order.
fn shift_offset(o: usize, es: &Vec<Edit>) -> (r: usize)
    requires
        shift_ok(o as int, edit_views(es@)),
    ensures
        r == shift_by_edits(o as int, edit_views(es@)),
{
    let ghost ev = edit_views(es@);
    let mut r = o;
    let mut k: usize = 0;
    proof {
        assert(ev.take(0) =~= Seq::<EditView>::empty());
    }
    while k < es.len()
        invariant
            k <= es@.len(),
            ev == edit_views(es@),
            shift_ok(o as int, ev),
            r == shift_by_edits(o as int, ev.take(k as int)),
        decreases es@.len() - k,
    {
        proof {
            assert(ev.take(k + 1).drop_last() == ev.take(k as int));
            assert(ev.take(k + 1).last() == es@[k as int]@);
            lemma_shift_ok_prefix(o as int, ev, k + 1);
        }
        let e = &es[k];
        let n = e.insert.as_str().len();
        if e.offset < r {
            if r < e.offset + e.remove {
                r = e.offset;
            } else {
                r = r + n - e.remove;
            }
        } else if e.offset == r {
            r = r + n;
        }
        k = k + 1;
    }
    proof {
        assert(ev.take(es@.len() as int) == ev);
    }
    r
}

proof fn lemma_shift_ok_prefix(o: int, es: Seq<EditView>, k: int)
    requires
        0 <= k <= es.len(),
        shift_ok(o, es),
    ensures
        shift_ok(o, es.take(k)),
    decreases es.len(),
{
    if k < es.len() {
        lemma_shift_ok_prefix(o, es.drop_last(), k);
        assert(es.drop_last().take(k) == es.take(k));
    } else {
        assert(es.take(k) == es);
    }
}

proof fn lemma_edits_ok_prefix(t: Seq<u8>, buf: int, es: Seq<EditView>, k: int)
    requires
        0 <= k <= es.len(),
        edits_ok(t, buf, es),
    ensures
        edits_ok(t, buf, es.take(k)),
    decreases es.len(),
{
    if k < es.len() {
        lemma_edits_ok_prefix(t, buf, es.drop_last(), k);
        assert(es.drop_last().take(k) == es.take(k));
    } else {
        assert(es.take(k) == es);
    }
}

/// Applies the edits of a transaction to a document and moves the view's
/// cursors with them: the edits go in by decreasing offset, one per offset
/// (the first given); the document counts as modified once one changes its
/// text; each cursor moves with the edits, and cursors that meet merge.
pub fn execute_transaction(table: &mut PieceTable, modified: &mut bool, cursors: &mut Vec<Cursor>, edits: &Vec<Edit>)
    requires
        old(table).wf(),
        edits_ok(old(table).text(), old(table).buffer_len() as int, sorted_edits(edit_views(edits@))),
        forall|i: int| 0 <= i < old(cursors)@.len() ==> shift_ok(#[trigger] old(cursors)@[i].offset as int, sorted_edits(edit_views(edits@))),
    ensures
        final(table).wf(),
        final(table).text() == apply_edits(old(table).text(), sorted_edits(edit_views(edits@))),
        final(table).in_commit() == old(table).in_commit(),
        final(table).hist() == old(table).hist(),
        final(table).commit_base_text() == old(table).commit_base_text(),
        final(table).commit_faithful() == old(table).commit_faithful(),
        forall|e: int| 0 <= e < old(table).hist().entries().len() ==> #[trigger] final(table).faithful(e)
            == old(table).faithful(e) && final(table).entry_before_text(e) == old(table).entry_before_text(e)
            && final(table).entry_after_text(e) == old(table).entry_after_text(e),
        *final(modified) == (*old(modified) || changes_text(sorted_edits(edit_views(edits@)))),
        final(cursors)@ == sorted_cursors(shifted_cursors(old(cursors)@, sorted_edits(edit_views(edits@)))),
        strictly_ordered(final(cursors)@),
{
    let es = sort_edits(edits);
    let ghost ev = edit_views(es@);
    let ghost t0 = table.text();
    let ghost b0 = table.buffer_len() as int;
    let ghost m0 = *modified;
    let mut k: usize = 0;
    proof {
        assert(ev.take(0) =~= Seq::<EditView>::empty());
    }
    while k < es.len()
        invariant
            k <= es@.len(),
            ev == edit_views(es@),
            table.wf(),
            edits_ok(t0, b0, ev),
            table.text() == apply_edits(t0, ev.take(k as int)),
            table.buffer_len() == b0 + inserted(ev.take(k as int)),
            table.in_commit() == old(table).in_commit(),
            table.hist() == old(table).hist(),
            table.commit_base_text() == old(table).commit_base_text(),
            table.commit_faithful() == old(table).commit_faithful(),
            forall|e: int| 0 <= e < old(table).hist().entries().len() ==> #[trigger] table.faithful(e)
                == old(table).faithful(e) && table.entry_before_text(e) == old(table).entry_before_text(e)
                && table.entry_after_text(e) == old(table).entry_after_text(e),
            *modified == (m0 || changes_text(ev.take(k as int))),
        decreases es@.len() - k,
    {
        proof {
            assert(ev.take(k + 1).drop_last() == ev.take(k as int));
            assert(ev.take(k + 1).last() == es@[k as int]@);
            lemma_edits_ok_prefix(t0, b0, ev, k + 1);
        }
        let e = &es[k];
        let ghost t1 = table.text();
        if e.remove > 0 {
            table.remove(e.offset, e.remove);
            *modified = true;
        }
        if !e.insert.as_str().is_empty() {
            table.insert(e.offset, e.insert.as_str());
            *modified = true;
        }
        proof {
            let ek = es@[k as int]@;
            assert(table.text() =~= apply_edit(t1, ek));
            let p = ev.take(k as int);
            let q = ev.take(k + 1);
            assert(changes_text(q) == (changes_text(p) || ek.remove > 0 || ek.insert.len() > 0)) by {
                if changes_text(p) {
                    let i = choose|i: int| 0 <= i < p.len() && (p[i].remove > 0 || p[i].insert.len() > 0);
                    assert(q[i] == p[i]);
                }
                if changes_text(q) {
                    let i = choose|i: int| 0 <= i < q.len() && (q[i].remove > 0 || q[i].insert.len() > 0);
                    if i < p.len() {
                        assert(q[i] == p[i]);
                    }
                }
                if ek.remove > 0 || ek.insert.len() > 0 {
                    assert(q[k as int] == ek);
                }
            }
        }
        k = k + 1;
    }
    proof {
        assert(ev.take(es@.len() as int) == ev);
    }
    let ghost c0 = cursors@;
    let mut shifted: Vec<Cursor> = Vec::new();
    let mut j: usize = 0;
    while j < cursors.len()
        invariant
            j <= c0.len(),
            cursors@ == c0,
            c0 == old(cursors)@,
            ev == edit_views(es@),
            ev == sorted_edits(edit_views(edits@)),
            forall|i: int| 0 <= i < c0.len() ==> shift_ok(#[trigger] c0[i].offset as int, ev),
            shifted@ == shifted_cursors(c0.take(j as int), ev),
        decreases c0.len() - j,
    {
        let c = cursors[j];
        let o = shift_offset(c.offset, &es);
        shifted.push(Cursor::new(o, c.pref_x));
        j = j + 1;
        proof {
            assert(shifted@ =~= shifted_cursors(c0.take(j as int), ev));
        }
    }
    proof {
        assert(c0.take(c0.len() as int) == c0);
    }
    *cursors = sort_cursors(&shifted);
}

/// The first line from `y` on that ends at or after `o`, else the last line.
pub open spec fn line_ending_at_or_after(t: Seq<u8>, o: int, y: int) -> int
    decreases num_lines(t) - y,
{
    if y >= num_lines(t) || y < 0 {
        num_lines(t) - 1
    } else if o <= line_end(t, y) {
        y
    } else {
        line_ending_at_or_after(t, o, y + 1)
    }
}

/// The first line from `y` on that ends after `o` or is the last one.
pub open spec fn line_ending_after(t: Seq<u8>, o: int, y: int) -> int
    decreases num_lines(t) - y,
{
    if y >= num_lines(t) || y < 0 {
        num_lines(t) - 1
    } else if o < line_end(t, y) || y == num_lines(t) - 1 {
        y
    } else {
        line_ending_after(t, o, y + 1)
    }
}

/// The bytes of the last grapheme of a text, or 1 if it has none.
pub open spec fn last_cluster_len(s: Seq<char>) -> int {
    let g = grapheme_clusters(s);
    if g.len() > 0 {
        byte_len(g.last())
    } else {
        1
    }
}

/// The bytes of the first grapheme of a text, or 1 if it has none.
pub open spec fn first_cluster_len(s: Seq<char>) -> int {
    let g = grapheme_clusters(s);
    if g.len() > 0 {
        byte_len(g[0])
    } else {
        1
    }
}

/// What a backspace (`bksp`) or a delete removes at a cursor. A backspace
/// at the start of the text does nothing; at the start of a line it joins
/// the line to the one above by removing one byte; else it removes the last
/// grapheme before the cursor. A delete at or past the end does nothing; at
/// the end of a line it removes one byte; else the grapheme after the cursor.
pub open spec fn removal(t: Seq<u8>, c: Cursor, bksp: bool) -> Option<EditView> {
    let o = c.offset as int;
    if bksp {
        if o == 0 {
            None
        } else {
            let start = line_start(t, line_ending_at_or_after(t, o, 0));
            let remove = if o == start {
                1
            } else {
                last_cluster_len(decode_utf8(clamped(t, start, o)))
            };
            Some(EditView { offset: if o >= remove { o - remove } else { 0 }, remove, insert: Seq::empty() })
        }
    } else {
        if o >= t.len() {
            None
        } else {
            let end = line_end(t, line_ending_after(t, o, 0));
            let remove = if o == end {
                1
            } else {
                first_cluster_len(decode_utf8(clamped(t, o, end)))
            };
            Some(EditView { offset: o, remove, insert: Seq::empty() })
        }
    }
}

/// A concatenation is its first part followed by the rest.
proof fn lemma_concat_first(gs: Seq<Seq<char>>)
    requires
        gs.len() > 0,
    ensures
        concat(gs) == gs[0] + concat(gs.drop_first()),
    decreases gs.len(),
{
    if gs.len() == 1 {
        assert(gs.drop_last() =~= Seq::<Seq<char>>::empty());
        assert(gs.drop_first() =~= Seq::<Seq<char>>::empty());
        assert(concat(gs.drop_last()) =~= Seq::<char>::empty());
        assert(gs.last() == gs[0]);
        assert(concat(gs) =~= gs[0]);
        assert(gs[0] + concat(gs.drop_first()) =~= gs[0]);
    } else {
        lemma_concat_first(gs.drop_last());
        assert(gs.drop_last()[0] == gs[0]);
        assert(gs.drop_last().drop_first() =~= gs.drop_first().drop_last());
        assert(gs.drop_first().last() == gs.last());
        assert(concat(gs) =~= gs[0] + concat(gs.drop_first()));
    }
}

/// A delete at a cursor inside the text removes exactly the bytes of the
/// first grapheme of the text from the cursor to the end of its line, and
/// nothing else: the text after that grapheme is untouched and the result
/// stays UTF-8. (The graphemes a text splits into join back to it and are
/// never empty.)
pub proof fn lemma_delete_removes_next_grapheme(t: Seq<u8>, c: Cursor)
    requires
        valid_utf8(t),
        c.offset < t.len(),
        is_char_boundary(t, c.offset as int),
        forall|s: Seq<char>| #[trigger] concat(grapheme_clusters(s)) == s,
        forall|s: Seq<char>, k: int| 0 <= k < grapheme_clusters(s).len() ==> #[trigger] grapheme_clusters(s)[k].len() > 0,
    ensures
        ({
            let o = c.offset as int;
            let end = line_end(t, line_ending_after(t, o, 0));
            let g = grapheme_clusters(decode_utf8(t.subrange(o, end)));
            let e = removal(t, c, false);
            &&& e is Some
            &&& e.unwrap().offset == o
            &&& e.unwrap().insert.len() == 0
            &&& g.len() > 0
            &&& 0 < e.unwrap().remove
            &&& o + e.unwrap().remove <= end <= t.len()
            &&& t.subrange(o, o + e.unwrap().remove) == encode_utf8(g[0])
            &&& valid_utf8(t.subrange(0, o) + t.subrange(o + e.unwrap().remove, t.len() as int))
        }),
{
    let o = c.offset as int;
    lemma_line_starts_basic(t);
    lemma_line_ending_after(t, o, 0);
    let y = line_ending_after(t, o, 0);
    let end = line_end(t, y);
    lemma_line_start_boundary(t, y);
    assert(end <= t.len());
    lemma_valid_between(t, o, end);
    let bytes = t.subrange(o, end);
    let rest = decode_utf8(bytes);
    vstd::utf8::decode_utf8_encode_utf8(bytes);
    let g = grapheme_clusters(rest);
    assert(concat(g) == rest);
    assert(bytes.len() > 0);
    if g.len() == 0 {
        assert(concat(g) =~= Seq::<char>::empty());
        assert(encode_utf8(Seq::<char>::empty()) =~= Seq::<u8>::empty());
    }
    assert(g.len() > 0);
    lemma_concat_first(g);
    let tail = concat(g.drop_first());
    lemma_encode_concat(g[0], tail);
    let head = encode_utf8(g[0]);
    assert(bytes == head + encode_utf8(tail));
    assert(clamped(t, o, end) =~= bytes);
    let r = head.len() as int;
    assert(first_cluster_len(rest) == r);
    assert(g[0].len() > 0);
    assert(vstd::utf8::encode_scalar(g[0][0] as u32).len() > 0);
    assert(encode_utf8(g[0]) == vstd::utf8::encode_scalar(g[0][0] as u32) + encode_utf8(g[0].drop_first()));
    assert(r > 0);
    assert(t.subrange(o, o + r) =~= head) by {
        assert forall|k: int| 0 <= k < r implies t.subrange(o, o + r)[k] == head[k] by {
            assert(bytes[k] == head[k]);
        }
    }
    vstd::utf8::encode_utf8_valid_utf8(tail);
    assert(t.subrange(o + r, end) =~= encode_utf8(tail)) by {
        assert forall|k: int| 0 <= k < end - (o + r) implies t.subrange(o + r, end)[k] == encode_utf8(tail)[k] by {
            assert(bytes[r + k] == encode_utf8(tail)[k]);
        }
    }
    vstd::utf8::is_char_boundary_start_end_of_seq(t);
    lemma_valid_between(t, 0, o);
    lemma_valid_between(t, end, t.len() as int);
    vstd::utf8::valid_utf8_concat(t.subrange(o + r, end), t.subrange(end, t.len() as int));
    assert(t.subrange(o + r, end) + t.subrange(end, t.len() as int) =~= t.subrange(o + r, t.len() as int));
    vstd::utf8::valid_utf8_concat(t.subrange(0, o), t.subrange(o + r, t.len() as int));
}

/// The removals of a backspace or a delete at each cursor, in order.
pub open spec fn removals(t: Seq<u8>, cs: Seq<Cursor>, bksp: bool) -> Seq<EditView>
    decreases cs.len(),
{
    if cs.len() == 0 {
        Seq::empty()
    } else {
        removals(t, cs.drop_last(), bksp) + match removal(t, cs.last(), bksp) {
            Some(e) => seq![e],
            None => Seq::empty(),
        }
    }
}

/// Each cursor inside the text stands on a character boundary.
pub open spec fn cursors_on_boundaries(t: Seq<u8>, cs: Seq<Cursor>) -> bool {
    forall|i: int| 0 <= i < cs.len() && cs[i].offset <= t.len() ==> #[trigger] is_char_boundary(t, cs[i].offset as int)
}

proof fn lemma_line_ending_at_or_after(t: Seq<u8>, o: int, y: int)
    requires
        0 <= y,
        o > 0,
        y == 0 || o > line_end(t, y - 1),
    ensures
        0 <= line_ending_at_or_after(t, o, y) < num_lines(t),
        line_start(t, line_ending_at_or_after(t, o, y)) < o || line_ending_at_or_after(t, o, y) == 0,
    decreases num_lines(t) - y,
{
    lemma_line_starts_basic(t);
    if y < num_lines(t) && o > line_end(t, y) {
        lemma_line_ending_at_or_after(t, o, y + 1);
    } else if y >= num_lines(t) {
        if num_lines(t) >= 2 {
            assert(line_start(t, num_lines(t) - 1) <= t.len());
        }
    }
}

proof fn lemma_line_ending_after(t: Seq<u8>, o: int, y: int)
    requires
        0 <= y,
        0 <= o < t.len(),
    ensures
        0 <= line_ending_after(t, o, y) < num_lines(t),
        o < line_end(t, line_ending_after(t, o, y)),
    decreases num_lines(t) - y,
{
    lemma_line_starts_basic(t);
    if y < num_lines(t) && !(o < line_end(t, y) || y == num_lines(t) - 1) {
        lemma_line_ending_after(t, o, y + 1);
    }
}

/// The line a backspace at `o` works on.
fn bksp_line(table: &PieceTable, o: usize) -> (y: usize)
    requires
        table.wf(),
    ensures
        y == line_ending_at_or_after(table.text(), o as int, 0),
{
    let ghost t = table.text();
    proof {
        lemma_line_starts_basic(t);
    }
    let lines = table.lines();
    let mut y: usize = 0;
    while y < lines
        invariant
            table.wf(),
            t == table.text(),
            lines == num_lines(t),
            y <= lines,
            line_ending_at_or_after(t, o as int, y as int) == line_ending_at_or_after(t, o as int, 0),
        decreases lines - y,
    {
        if o <= table.get_line_end_byte(y) {
            return y;
        }
        y = y + 1;
    }
    lines - 1
}

/// The line a delete at `o` works on.
fn del_line(table: &PieceTable, o: usize) -> (y: usize)
    requires
        table.wf(),
    ensures
        y == line_ending_after(table.text(), o as int, 0),
{
    let ghost t = table.text();
    proof {
        lemma_line_starts_basic(t);
    }
    let lines = table.lines();
    let mut y: usize = 0;
    while y < lines
        invariant
            table.wf(),
            t == table.text(),
            lines == num_lines(t),
            y <= lines,
            line_ending_after(t, o as int, y as int) == line_ending_after(t, o as int, 0),
        decreases lines - y,
    {
        if o < table.get_line_end_byte(y) || y == lines - 1 {
            return y;
        }
        y = y + 1;
    }
    lines - 1
}

/// What a backspace or a delete removes at the cursor `c`.
fn removal_at(table: &PieceTable, c: Cursor, bksp: bool) -> (r: Option<Edit>)
    requires
        table.wf(),
        valid_utf8(table.text()),
        c.offset <= table.text().len() ==> is_char_boundary(table.text(), c.offset as int),
    ensures
        match removal(table.text(), c, bksp) {
            Some(e) => r.is_some() && r.unwrap()@ == e,
            None => r.is_none(),
        },
{
    let ghost t = table.text();
    let o = c.offset;
    let _ = table.len();
    proof {
        lemma_line_starts_basic(t);
        vstd::utf8::is_char_boundary_start_end_of_seq(t);
    }
    if bksp {
        if o == 0 {
            return None;
        }
        let y = bksp_line(table, o);
        let start = table.get_line_start_byte(y);
        proof {
            lemma_line_ending_at_or_after(t, o as int, 0);
        }
        let remove = if o == start {
            1
        } else {
            proof {
                lemma_line_start_boundary(t, y as int);
                let u = if o <= t.len() { o as int } else { t.len() as int };
                lemma_valid_between(t, start as int, u);
                assert(clamped(t, start as int, o as int) =~= t.subrange(start as int, u));
            }
            let text = table.slice_range(start, o);
            let gs = graphemes(text.as_str());
            proof {
                assert(string_views(gs@).len() == gs@.len());
                if gs@.len() > 0 {
                    assert(string_views(gs@).last() == gs@[gs@.len() - 1]@);
                    lemma_part_bytes(string_views(gs@), gs@.len() - 1);
                    vstd::utf8::decode_utf8_encode_utf8(clamped(t, start as int, o as int));
                    assert(clamped(t, start as int, o as int).len() <= t.len());
                }
            }
            if gs.len() > 0 {
                gs[gs.len() - 1].as_str().len()
            } else {
                1
            }
        };
        proof {
            assert(remove == (if o == start { 1 } else { last_cluster_len(decode_utf8(clamped(t, start as int, o as int))) }));
        }
        let off = o.saturating_sub(remove);
        assert(off == (if o >= remove { o - remove } else { 0 }));
        Some(Edit::new(off, remove, String::new()))
    } else {
        if o >= table.len() {
            return None;
        }
        let y = del_line(table, o);
        let end = table.get_line_end_byte(y);
        proof {
            lemma_line_ending_after(t, o as int, 0);
        }
        let remove = if o == end {
            1
        } else {
            proof {
                lemma_line_start_boundary(t, y as int);
                lemma_valid_between(t, o as int, end as int);
                assert(clamped(t, o as int, end as int) =~= t.subrange(o as int, end as int));
            }
            let text = table.slice_range(o, end);
            let gs = graphemes(text.as_str());
            proof {
                assert(string_views(gs@).len() == gs@.len());
                if gs@.len() > 0 {
                    assert(string_views(gs@)[0] == gs@[0]@);
                    lemma_part_bytes(string_views(gs@), 0);
                    vstd::utf8::decode_utf8_encode_utf8(clamped(t, o as int, end as int));
                    assert(clamped(t, o as int, end as int).len() <= t.len());
                }
            }
            if gs.len() > 0 {
                gs[0].as_str().len()
            } else {
                1
            }
        };
        proof {
            assert(remove == (if o == end { 1 } else { first_cluster_len(decode_utf8(clamped(t, o as int, end as int))) }));
        }
        Some(Edit::new(o, remove, String::new()))
    }
}

/// The removals of a backspace (`bksp`) or a delete at each cursor.
pub fn remove_edits(table: &PieceTable, cursors: &Vec<Cursor>, bksp: bool) -> (r: Vec<Edit>)
    requires
        table.wf(),
        valid_utf8(table.text()),
        cursors_on_boundaries(table.text(), cursors@),
    ensures
        edit_views(r@) == removals(table.text(), cursors@, bksp),
{
    let ghost t = table.text();
    let mut r: Vec<Edit> = Vec::new();
    let mut k: usize = 0;
    proof {
        assert(cursors@.take(0) =~= Seq::<Cursor>::empty());
        assert(edit_views(r@) =~= Seq::<EditView>::empty());
    }
    while k < cursors.len()
        invariant
            k <= cursors@.len(),
            table.wf(),
            t == table.text(),
            valid_utf8(t),
            cursors_on_boundaries(t, cursors@),
            edit_views(r@) == removals(t, cursors@.take(k as int), bksp),
        decreases cursors@.len() - k,
    {
        proof {
            assert(cursors@.take(k + 1).drop_last() == cursors@.take(k as int));
            assert(cursors@.take(k + 1).last() == cursors@[k as int]);
        }
        let ghost before = edit_views(r@);
        match removal_at(table, cursors[k], bksp) {
            Some(e) => {
                let ghost ev = e@;
                r.push(e);
                proof {
                    assert(edit_views(r@) =~= before + seq![ev]);
                }
            },
            None => {
                proof {
                    assert(before + Seq::<EditView>::empty() =~= before);
                }
            },
        }
        k = k + 1;
    }
    proof {
        assert(cursors@.take(cursors@.len() as int) == cursors@);
    }
    r
}

/// The same text inserted at each cursor.
pub open spec fn insertions(cs: Seq<Cursor>, text: Seq<char>) -> Seq<EditView> {
    cs.map_values(|c: Cursor| EditView { offset: c.offset as int, remove: 0, insert: text })
}

/// The spaces from column `x` to the next tab stop.
pub open spec fn tab_spaces(x: int, tab: int) -> Seq<char> {
    Seq::new((tab - x % tab) as nat, |i: int| ' ')
}

/// A typed tab is spaces that end exactly on the next tab stop after the
/// cursor's column: at least one space and at most `tab` of them.
pub proof fn lemma_tab_reaches_next_stop(t: Seq<u8>, tab: int, decs: Seq<Span<Decoration>>, cs: Seq<Cursor>, i: int)
    requires
        tab > 0,
        0 <= i < cs.len(),
    ensures
        ({
            let e = tab_insertions(t, tab, decs, cs)[i];
            let x = offset_pos(t, tab, decs, cs[i].offset as int).x as int;
            let n = e.insert.len() as int;
            &&& e.offset == cs[i].offset
            &&& e.remove == 0
            &&& 0 < n <= tab
            &&& (x + n) % tab == 0
            &&& forall|k: int| 0 <= k < n ==> #[trigger] e.insert[k] == ' '
        }),
{
    let x = offset_pos(t, tab, decs, cs[i].offset as int).x as int;
    let r = x % tab;
    assert(0 <= r < tab) by (nonlinear_arith)
        requires
            tab > 0,
            x >= 0,
            r == x % tab,
    ;
    assert((x + (tab - r)) % tab == 0) by (nonlinear_arith)
        requires
            tab > 0,
            x >= 0,
            r == x % tab,
    {
        vstd::arithmetic::div_mod::lemma_fundamental_div_mod(x, tab);
        vstd::arithmetic::div_mod::lemma_mod_multiples_basic(x / tab + 1, tab);
        assert(x + (tab - r) == (x / tab + 1) * tab);
    }
}

/// A tab typed at each cursor: spaces up to the next tab stop after the
/// cursor's column.
pub open spec fn tab_insertions(t: Seq<u8>, tab: int, decs: Seq<Span<Decoration>>, cs: Seq<Cursor>) -> Seq<
    EditView,
> {
    cs.map_values(
        |c: Cursor|
            EditView {
                offset: c.offset as int,
                remove: 0,
                insert: tab_spaces(offset_pos(t, tab, decs, c.offset as int).x as int, tab),
            },
    )
}

/// The edits that typing `text` makes at the cursors.
pub open spec fn typed(t: Seq<u8>, tab: int, decs: Seq<Span<Decoration>>, cs: Seq<Cursor>, text: Seq<char>) -> Seq<
    EditView,
> {
    if text == seq!['\t'] {
        tab_insertions(t, tab, decs, cs)
    } else {
        insertions(cs, text)
    }
}

/// Typing a space, a newline or a tab closes the current commit and opens a
/// new one, so that undo works word by word.
pub open spec fn breaks_commit(text: Seq<char>) -> bool {
    text == seq![' '] || text == seq!['\n'] || text == seq!['\t']
}

/// `text` inserted at each cursor.
pub fn insert_edits(cursors: &Vec<Cursor>, text: &String) -> (r: Vec<Edit>)
    ensures
        edit_views(r@) == insertions(cursors@, text@),
{
    let mut r: Vec<Edit> = Vec::new();
    let mut k: usize = 0;
    while k < cursors.len()
        invariant
            k <= cursors@.len(),
            edit_views(r@) == insertions(cursors@.take(k as int), text@),
        decreases cursors@.len() - k,
    {
        let ghost before = edit_views(r@);
        let e = Edit::new(cursors[k].offset, 0, text.clone());
        let ghost ev = e@;
        r.push(e);
        proof {
            assert(edit_views(r@) =~= before.push(ev));
            assert(cursors@.take(k + 1) =~= cursors@.take(k as int).push(cursors@[k as int]));
            assert(insertions(cursors@.take(k + 1), text@) =~= insertions(cursors@.take(k as int), text@).push(ev));
        }
        k = k + 1;
    }
    proof {
        assert(cursors@.take(cursors@.len() as int) == cursors@);
    }
    r
}

/// A string of `n` spaces.
fn spaces_string(n: usize) -> (s: String)
    ensures
        s@ == Seq::new(n as nat, |i: int| ' '),
{
    let mut s = String::new();
    let sp = " ".to_owned();
    proof {
        reveal_strlit(" ");
        assert(sp@ =~= seq![' ']);
    }
    let mut k: usize = 0;
    while k < n
        invariant
            k <= n,
            sp@ == seq![' '],
            s@ == Seq::new(k as nat, |i: int| ' '),
        decreases n - k,
    {
        s.append(sp.as_str());
        k = k + 1;
        proof {
            assert(s@ =~= Seq::new(k as nat, |i: int| ' '));
        }
    }
    s
}

/// A tab typed at each cursor, as spaces up to the next tab stop.
pub fn tab_edits(table: &PieceTable, tab_width: usize, decs: &[Span<Decoration>], cursors: &Vec<Cursor>) -> (r: Vec<Edit>)
    requires
        table.wf(),
        layout_ok(table.text(), tab_width as int, decs@),
    ensures
        edit_views(r@) == tab_insertions(table.text(), tab_width as int, decs@, cursors@),
{
    let ghost t = table.text();
    let mut r: Vec<Edit> = Vec::new();
    let mut k: usize = 0;
    while k < cursors.len()
        invariant
            k <= cursors@.len(),
            table.wf(),
            t == table.text(),
            layout_ok(t, tab_width as int, decs@),
            edit_views(r@) == tab_insertions(t, tab_width as int, decs@, cursors@.take(k as int)),
        decreases cursors@.len() - k,
    {
        let c = cursors[k];
        let pos = offset_to_pos(table, tab_width, decs, c.offset);
        let n = tab_width - pos.x % tab_width;
        let ghost before = edit_views(r@);
        let e = Edit::new(c.offset, 0, spaces_string(n));
        let ghost ev = e@;
        r.push(e);
        proof {
            assert(edit_views(r@) =~= before.push(ev));
            assert(cursors@.take(k + 1) =~= cursors@.take(k as int).push(cursors@[k as int]));
            assert(ev.insert =~= tab_spaces(pos.x as int, tab_width as int));
            assert(tab_insertions(t, tab_width as int, decs@, cursors@.take(k + 1))
                =~= tab_insertions(t, tab_width as int, decs@, cursors@.take(k as int)).push(ev));
        }
        k = k + 1;
    }
    proof {
        assert(cursors@.take(cursors@.len() as int) == cursors@);
    }
    r
}

/// Whether `s` holds the text `lit`.
fn text_is(s: &String, lit: &str) -> (r: bool)
    ensures
        r == (s@ == lit@),
{
    *s == lit.to_owned()
}

/// Types `text` at every cursor of a view: a space, newline or tab first
/// closes the open commit and opens a new one; a tab becomes spaces up to
/// the next tab stop; then the edits go in as one transaction.
pub fn insert(
    table: &mut PieceTable,
    modified: &mut bool,
    cursors: &mut Vec<Cursor>,
    tab_width: usize,
    decs: &[Span<Decoration>],
    text: String,
)
    requires
        old(table).wf(),
        layout_ok(old(table).text(), tab_width as int, decs@),
        edits_ok(
            old(table).text(),
            old(table).buffer_len() as int,
            sorted_edits(typed(old(table).text(), tab_width as int, decs@, old(cursors)@, text@)),
        ),
        forall|i: int| 0 <= i < old(cursors)@.len() ==> shift_ok(
            #[trigger] old(cursors)@[i].offset as int,
            sorted_edits(typed(old(table).text(), tab_width as int, decs@, old(cursors)@, text@)),
        ),
    ensures
        final(table).wf(),
        final(table).text() == apply_edits(
            old(table).text(),
            sorted_edits(typed(old(table).text(), tab_width as int, decs@, old(cursors)@, text@)),
        ),
        breaks_commit(text@) ==> final(table).in_commit() && final(table).commit_faithful()
            && final(table).commit_base_text() == old(table).text(),
        breaks_commit(text@) && old(table).in_commit() && old(table).active_changes().len() > 0
            && old(table).hist().entries().len() < usize::MAX ==> {
            let h = old(table).hist().entries().len() as int;
            &&& final(table).hist().entries().len() == h + 1
            &&& final(table).hist().head() == h
            &&& final(table).hist().entries()[h].previous == Some(old(table).hist().head() as usize)
            &&& final(table).entry_before_text(h) == old(table).commit_base_text()
            &&& final(table).entry_after_text(h) == old(table).text()
            &&& final(table).faithful(h) == old(table).commit_faithful()
        },
        !breaks_commit(text@) ==> final(table).in_commit() == old(table).in_commit() && final(table).hist()
            == old(table).hist(),
        *final(modified) == (*old(modified) || changes_text(
            sorted_edits(typed(old(table).text(), tab_width as int, decs@, old(cursors)@, text@)),
        )),
        final(cursors)@ == sorted_cursors(
            shifted_cursors(
                old(cursors)@,
                sorted_edits(typed(old(table).text(), tab_width as int, decs@, old(cursors)@, text@)),
            ),
        ),
{
    let space = text_is(&text, " ");
    let newline = text_is(&text, "\n");
    let tab = text_is(&text, "\t");
    proof {
        reveal_strlit(" ");
        reveal_strlit("\n");
        reveal_strlit("\t");
        assert(" "@ =~= seq![' ']);
        assert("\n"@ =~= seq!['\n']);
        assert("\t"@ =~= seq!['\t']);
    }
    let ghost t0 = *table;
    let ghost mut t1 = *table;
    if space || newline || tab {
        table.end_commit();
        proof {
            t1 = *table;
        }
        table.start_commit();
    }
    let ghost t2 = *table;
    let edits = if !tab {
        insert_edits(cursors, &text)
    } else {
        tab_edits(table, tab_width, decs, cursors)
    };
    execute_transaction(table, modified, cursors, &edits);
    proof {
        if (space || newline || tab) && t0.in_commit() && t0.active_changes().len() > 0
            && t0.hist().entries().len() < usize::MAX {
            let h = t0.hist().entries().len() as int;
            assert(t1.hist().head() == h);
            assert(t2.hist() == t1.hist());
            assert(t2.faithful(h) == t1.faithful(h));
            assert(t2.entry_before_text(h) == t1.entry_before_text(h));
            assert(table.faithful(h) == t2.faithful(h));
        }
    }
}

/// A backspace at every cursor of a view, as one transaction.
pub fn backspace(table: &mut PieceTable, modified: &mut bool, cursors: &mut Vec<Cursor>)
    requires
        old(table).wf(),
        valid_utf8(old(table).text()),
        cursors_on_boundaries(old(table).text(), old(cursors)@),
        edits_ok(old(table).text(), old(table).buffer_len() as int, sorted_edits(removals(old(table).text(), old(cursors)@, true))),
        forall|i: int| 0 <= i < old(cursors)@.len() ==> shift_ok(
            #[trigger] old(cursors)@[i].offset as int,
            sorted_edits(removals(old(table).text(), old(cursors)@, true)),
        ),
    ensures
        final(table).wf(),
        final(table).text() == apply_edits(old(table).text(), sorted_edits(removals(old(table).text(), old(cursors)@, true))),
        final(table).in_commit() == old(table).in_commit(),
        *final(modified) == (*old(modified) || changes_text(sorted_edits(removals(old(table).text(), old(cursors)@, true)))),
        final(cursors)@ == sorted_cursors(
            shifted_cursors(old(cursors)@, sorted_edits(removals(old(table).text(), old(cursors)@, true))),
        ),
{
    let edits = remove_edits(table, cursors, true);
    execute_transaction(table, modified, cursors, &edits);
}

/// A delete at every cursor of a view, as one transaction.
pub fn delete(table: &mut PieceTable, modified: &mut bool, cursors: &mut Vec<Cursor>)
    requires
        old(table).wf(),
        valid_utf8(old(table).text()),
        cursors_on_boundaries(old(table).text(), old(cursors)@),
        edits_ok(old(table).text(), old(table).buffer_len() as int, sorted_edits(removals(old(table).text(), old(cursors)@, false))),
        forall|i: int| 0 <= i < old(cursors)@.len() ==> shift_ok(
            #[trigger] old(cursors)@[i].offset as int,
            sorted_edits(removals(old(table).text(), old(cursors)@, false)),
        ),
    ensures
        final(table).wf(),
        final(table).text() == apply_edits(old(table).text(), sorted_edits(removals(old(table).text(), old(cursors)@, false))),
        final(table).in_commit() == old(table).in_commit(),
        *final(modified) == (*old(modified) || changes_text(sorted_edits(removals(old(table).text(), old(cursors)@, false)))),
        final(cursors)@ == sorted_cursors(
            shifted_cursors(old(cursors)@, sorted_edits(removals(old(table).text(), old(cursors)@, false))),
        ),
{
    let edits = remove_edits(table, cursors, false);
    execute_transaction(table, modified, cursors, &edits);
}

/// Sets the preferred column of the first cursor to the column it stands
/// at, as a transaction leaves it.
pub fn refresh_pref_x(table: &PieceTable, tab_width: usize, decs: &[Span<Decoration>], cursors: &mut Vec<Cursor>)
    requires
        table.wf(),
        layout_ok(table.text(), tab_width as int, decs@),
    ensures
        old(cursors)@.len() == 0 ==> final(cursors)@ == old(cursors)@,
        old(cursors)@.len() > 0 ==> final(cursors)@ == old(cursors)@.update(
            0,
            Cursor {
                offset: old(cursors)@[0].offset,
                pref_x: offset_pos(table.text(), tab_width as int, decs@, old(cursors)@[0].offset as int).x,
            },
        ),
{
    if cursors.len() == 0 {
        return;
    }
    let c = cursors[0];
    let pos = offset_to_pos(table, tab_width, decs, c.offset);
    cursors.set(0, Cursor::new(c.offset, pos.x));
}

/// Collapses the cursors into one at the byte that `pos` points at,
/// preferring the column of `pos`.
pub fn move_cursor_to_pos(table: &PieceTable, tab_width: usize, decs: &[Span<Decoration>], cursors: &mut Vec<Cursor>, pos: Pos)
    requires
        table.wf(),
        layout_ok(table.text(), tab_width as int, decs@),
    ensures
        final(cursors)@ == seq![Cursor { offset: pos_offset(table.text(), tab_width as int, decs@, pos) as usize, pref_x: pos.x }],
{
    let offset = pos_to_offset(table, tab_width, decs, pos);
    cursors.clear();
    cursors.push(Cursor::new(offset, pos.x));
    proof {
        assert(cursors@ =~= seq![Cursor { offset: offset, pref_x: pos.x }]);
    }
}

/// Adds a cursor at the byte that `pos` points at; cursors that meet merge.
pub fn create_cursor_at_pos(table: &PieceTable, tab_width: usize, decs: &[Span<Decoration>], cursors: &mut Vec<Cursor>, pos: Pos)
    requires
        table.wf(),
        layout_ok(table.text(), tab_width as int, decs@),
    ensures
        final(cursors)@ == sorted_cursors(old(cursors)@.push(
            Cursor { offset: pos_offset(table.text(), tab_width as int, decs@, pos) as usize, pref_x: pos.x },
        )),
        strictly_ordered(final(cursors)@),
{
    let offset = pos_to_offset(table, tab_width, decs, pos);
    cursors.push(Cursor::new(offset, pos.x));
    *cursors = sort_cursors(cursors);
}

/// Removes the cursors at `offset`.
pub fn remove_cursor(cursors: &mut Vec<Cursor>, offset: usize)
    ensures
        final(cursors)@ == old(cursors)@.filter(|c: Cursor| c.offset != offset),
{
    let ghost c0 = cursors@;
    let mut kept: Vec<Cursor> = Vec::new();
    let mut k: usize = 0;
    while k < cursors.len()
        invariant
            k <= c0.len(),
            cursors@ == c0,
            kept@ == c0.take(k as int).filter(|c: Cursor| c.offset != offset),
        decreases c0.len() - k,
    {
        proof {
            assert(c0.take(k + 1).drop_last() == c0.take(k as int));
            reveal(Seq::filter);
        }
        if cursors[k].offset != offset {
            kept.push(cursors[k]);
        }
        k = k + 1;
    }
    proof {
        assert(c0.take(c0.len() as int) == c0);
    }
    *cursors = kept;
}

/// What `move_cursors` needs: each cursor can move (see `move_ok`).
pub open spec fn moves_ok(t: Seq<u8>, tab: int, ld: Seq<Vec<Span<Decoration>>>, cs: Seq<Cursor>, dir: Direction) -> bool {
    forall|i: int| 0 <= i < cs.len() ==> move_ok(t, tab, ld, #[trigger] cs[i], dir)
}

/// Whether line `y` of the table can be laid out with `decs` (see
/// `line_fits`).
fn check_line_fits(table: &PieceTable, y: usize, tab_width: usize, decs: &[Span<Decoration>]) -> (b: bool)
    requires
        table.wf(),
        y < num_lines(table.text()),
    ensures
        b == line_fits(table.text(), y as int, tab_width as int, decs@),
{
    let ghost t = table.text();
    if tab_width == 0 {
        return false;
    }
    let len = table.len();
    proof {
        assert(clamped(t, 0, len as int) =~= t);
    }
    if !table.is_valid_slice(0, len) {
        return false;
    }
    let line = line_text(table, y);
    let start = table.get_line_start_byte(y);
    vom_fits_check(line.as_str(), start, tab_width, decs)
}

/// Whether `move_cursors` can move the cursors in the direction given.
pub fn can_move(
    table: &PieceTable,
    tab_width: usize,
    line_decs: &Vec<Vec<Span<Decoration>>>,
    cursors: &Vec<Cursor>,
    dir: Direction,
) -> (b: bool)
    requires
        table.wf(),
    ensures
        b == moves_ok(table.text(), tab_width as int, line_decs@, cursors@, dir),
{
    let ghost t = table.text();
    let n = table.lines();
    let mut i: usize = 0;
    while i < cursors.len()
        invariant
            i <= cursors@.len(),
            table.wf(),
            t == table.text(),
            n == num_lines(t),
            forall|j: int| 0 <= j < i ==> move_ok(t, tab_width as int, line_decs@, #[trigger] cursors@[j], dir),
        decreases cursors@.len() - i,
    {
        let c = cursors[i];
        if line_decs.len() != n {
            return false;
        }
        let y = line_at(table, c.offset);
        let decs = line_decs[y].as_slice();
        proof {
            assert(decs@ == decs_at(line_decs@, y as int));
        }
        if !check_line_fits(table, y, tab_width, decs) {
            return false;
        }
        let ok = match dir {
            Direction::Up => if y > 0 {
                check_line_fits(table, y - 1, tab_width, decs) && layout_line(table, y - 1, tab_width, decs).len() > 0
            } else {
                true
            },
            Direction::Down => if y + 1 < n {
                check_line_fits(table, y + 1, tab_width, decs) && layout_line(table, y + 1, tab_width, decs).len() > 0
            } else {
                true
            },
            Direction::Left => if y > 0 {
                let vom = layout_line(table, y, tab_width, decs);
                position_of_offset(&vom, c.offset) != 0 || check_line_fits(table, y - 1, tab_width, decs)
            } else {
                true
            },
            Direction::Right => true,
        };
        if !ok {
            return false;
        }
        i = i + 1;
    }
    true
}

/// What `insert` needs: a layout that fits, and edits and cursor shifts that
/// stay within `usize`.
pub open spec fn insert_ok(t: Seq<u8>, buf: int, tab: int, decs: Seq<Span<Decoration>>, cs: Seq<Cursor>, text: Seq<char>) -> bool {
    let es = sorted_edits(typed(t, tab, decs, cs, text));
    &&& layout_ok(t, tab, decs)
    &&& edits_ok(t, buf, es)
    &&& forall|i: int| 0 <= i < cs.len() ==> shift_ok(#[trigger] cs[i].offset as int, es)
}

/// Whether `insert` can type `text` at the cursors.
pub fn can_insert(table: &PieceTable, cursors: &Vec<Cursor>, tab_width: usize, decs: &[Span<Decoration>], text: &String) -> (b: bool)
    requires
        table.wf(),
    ensures
        b == insert_ok(table.text(), table.buffer_len() as int, tab_width as int, decs@, cursors@, text@),
{
    if !check_layout(table, tab_width, decs) {
        return false;
    }
    let tab = text_is(text, "\t");
    proof {
        reveal_strlit("\t");
        assert("\t"@ =~= seq!['\t']);
    }
    let edits = if !tab {
        insert_edits(cursors, text)
    } else {
        tab_edits(table, tab_width, decs, cursors)
    };
    let sorted = sort_edits(&edits);
    check_edits(table, &sorted) && check_shifts(cursors, &sorted)
}

/// What `backspace` (`bksp`) or `delete` needs: UTF-8 text, cursors on
/// character boundaries, and edits and cursor shifts that stay within
/// `usize`.
pub open spec fn removal_ok(t: Seq<u8>, buf: int, cs: Seq<Cursor>, bksp: bool) -> bool {
    let es = sorted_edits(removals(t, cs, bksp));
    &&& valid_utf8(t)
    &&& cursors_on_boundaries(t, cs)
    &&& edits_ok(t, buf, es)
    &&& forall|i: int| 0 <= i < cs.len() ==> shift_ok(#[trigger] cs[i].offset as int, es)
}

/// Whether `backspace` (`bksp`) or `delete` can remove at the cursors.
pub fn can_remove(table: &PieceTable, cursors: &Vec<Cursor>, bksp: bool) -> (b: bool)
    requires
        table.wf(),
    ensures
        b == removal_ok(table.text(), table.buffer_len() as int, cursors@, bksp),
{
    let ghost t = table.text();
    let len = table.len();
    proof {
        assert(clamped(t, 0, len as int) =~= t);
    }
    if !table.is_valid_slice(0, len) {
        return false;
    }
    let mut i: usize = 0;
    while i < cursors.len()
        invariant
            i <= cursors@.len(),
            table.wf(),
            t == table.text(),
            len == t.len(),
            valid_utf8(t),
            forall|j: int| 0 <= j < i && cursors@[j].offset <= t.len() ==> #[trigger] is_char_boundary(t, cursors@[j].offset as int),
        decreases cursors@.len() - i,
    {
        let o = cursors[i].offset;
        if o <= len && !table.is_char_boundary(o) {
            return false;
        }
        i = i + 1;
    }
    let edits = remove_edits(table, cursors, bksp);
    let sorted = sort_edits(&edits);
    check_edits(table, &sorted) && check_shifts(cursors, &sorted)
}

/// Whether `execute_transaction` can apply the edits and shift the cursors.
pub fn can_transact(table: &PieceTable, cursors: &Vec<Cursor>, edits: &Vec<Edit>) -> (b: bool)
    requires
        table.wf(),
    ensures
        b == (edits_ok(table.text(), table.buffer_len() as int, sorted_edits(edit_views(edits@))) && forall|i: int|
            0 <= i < cursors@.len() ==> shift_ok(#[trigger] cursors@[i].offset as int, sorted_edits(edit_views(edits@)))),
{
    let sorted = sort_edits(edits);
    check_edits(table, &sorted) && check_shifts(cursors, &sorted)
}

} // verus!
