use vstd::prelude::*;
use vstd::string::StringExecFns;
use vstd::utf8::{decode_utf8, valid_utf8};

use crate::lines::lemma_line_starts_basic;
use crate::piece_table::{clamped, line_end, line_start, PieceTable};
use crate::state::{gutter_columns, Layout, LocalViewData};
use crate::text_lines::{lemma_line_start_boundary, lemma_valid_between, num_lines};
use crate::types::{Pos, Rect};
use crate::unicode::{char_string, string_views};

verus! {

/// One coordinate of a scroll after moving to show `p` in a span of `size`:
/// it moves back to `p` above the span, so that `p` is the last shown past
/// it (with `usize` arithmetic that stops at its bounds, which matters only
/// for an empty span), and stays otherwise.
pub open spec fn scroll_axis(s: int, p: int, size: int) -> int {
    if p < s {
        p
    } else if p >= s + size {
        let d = if p >= size { p - size } else { 0 };
        if d + 1 <= usize::MAX { d + 1 } else { usize::MAX as int }
    } else {
        s
    }
}

/// The scroll that shows `pos` in an area `width` by `height`, and whether it
/// changed.
pub fn scroll_to_show(scroll: Pos, pos: Pos, width: usize, height: usize) -> (r: (Pos, bool))
    requires
        scroll.x + width <= usize::MAX,
        scroll.y + height <= usize::MAX,
    ensures
        r.0.x == scroll_axis(scroll.x as int, pos.x as int, width as int),
        r.0.y == scroll_axis(scroll.y as int, pos.y as int, height as int),
        r.1 == (pos.y < scroll.y || pos.y >= scroll.y + height || pos.x < scroll.x || pos.x >= scroll.x + width),
        width > 0 ==> r.0.x <= pos.x < r.0.x + width,
        height > 0 ==> r.0.y <= pos.y < r.0.y + height,
{
    let mut s = scroll;
    let mut needed = false;
    if pos.y < s.y {
        s.y = pos.y;
        needed = true;
    } else if pos.y >= s.y + height {
        s.y = pos.y.saturating_sub(height).saturating_add(1);
        needed = true;
    }
    if pos.x < s.x {
        s.x = pos.x;
        needed = true;
    } else if pos.x >= s.x + width {
        s.x = pos.x.saturating_sub(width).saturating_add(1);
        needed = true;
    }
    (s, needed)
}

/// The scroll a view needs to show `pos` in a window at `rect`: the text
/// area leaves out the gutter and the mode line; `None` when no scroll is
/// needed or the text area is empty.
pub fn view_scroll(scroll: Pos, pos: Pos, rect: Rect, layout: Layout, lines: usize) -> (r: Option<Pos>)
    requires
        scroll.x + rect.width <= usize::MAX,
        scroll.y + rect.height <= usize::MAX,
    ensures
        ({
            let gw = gutter_columns(layout.gutter, lines as nat) as int;
            let w = if rect.width >= gw { rect.width - gw } else { 0 };
            let h = if rect.height >= layout.mode_line { rect.height - layout.mode_line } else { 0 };
            if w == 0 || h == 0 {
                r is None
            } else if pos.y < scroll.y || pos.y >= scroll.y + h || pos.x < scroll.x || pos.x >= scroll.x + w {
                r matches Some(s) && s.x == scroll_axis(scroll.x as int, pos.x as int, w) && s.y == scroll_axis(
                    scroll.y as int,
                    pos.y as int,
                    h,
                ) && s.x <= pos.x < s.x + w && s.y <= pos.y < s.y + h
            } else {
                r is None
            }
        }),
{
    let gw = layout.gutter_width(lines);
    let width = rect.width.saturating_sub(gw);
    let height = rect.height.saturating_sub(layout.mode_line);
    if width == 0 || height == 0 {
        return None;
    }
    let (s, needed) = scroll_to_show(scroll, pos, width, height);
    if needed {
        Some(s)
    } else {
        None
    }
}

/// The rows of a window of `height` rows that show text, the mode line
/// taken off.
pub open spec fn text_rows(height: usize, mode_line: usize) -> int {
    if height >= mode_line {
        height - mode_line
    } else {
        0
    }
}

/// The most text rows among windows of the heights given, 0 for none.
pub open spec fn max_text_rows(heights: Seq<usize>, mode_line: usize) -> int
    decreases heights.len(),
{
    if heights.len() == 0 {
        0
    } else {
        let a = max_text_rows(heights.drop_last(), mode_line);
        let b = text_rows(heights.last(), mode_line);
        if a >= b {
            a
        } else {
            b
        }
    }
}

/// How many lines a view fetches to fill all its windows, given their
/// heights: the most text rows of any of them.
pub fn fetch_height(heights: &Vec<usize>, mode_line: usize) -> (r: usize)
    ensures
        r == max_text_rows(heights@, mode_line),
        forall|i: int| 0 <= i < heights@.len() ==> r >= text_rows(#[trigger] heights@[i], mode_line),
        heights@.len() > 0 ==> exists|i: int| 0 <= i < heights@.len() && r == text_rows(#[trigger] heights@[i], mode_line),
{
    let mut best: usize = 0;
    let mut i: usize = 0;
    while i < heights.len()
        invariant
            i <= heights@.len(),
            best == max_text_rows(heights@.subrange(0, i as int), mode_line),
            forall|k: int| 0 <= k < i ==> best >= text_rows(#[trigger] heights@[k], mode_line),
            i > 0 ==> exists|k: int| 0 <= k < i && best == text_rows(#[trigger] heights@[k], mode_line),
        decreases heights@.len() - i,
    {
        let h = heights[i].saturating_sub(mode_line);
        proof {
            assert(heights@.subrange(0, i + 1).drop_last() =~= heights@.subrange(0, i as int));
        }
        if h > best {
            best = h;
        }
        i = i + 1;
    }
    proof {
        assert(heights@.subrange(0, heights@.len() as int) =~= heights@);
    }
    best
}

/// A text cut after each newline, as `str::split_inclusive('\n')` does: the
/// pieces end with their newline, the last may lack one.
pub open spec fn split_lines(s: Seq<char>) -> Seq<Seq<char>>
    decreases s.len(),
{
    if s.len() == 0 {
        Seq::empty()
    } else {
        let prev = split_lines(s.drop_last());
        if prev.len() == 0 || prev.last().last() == '\n' {
            prev.push(seq![s.last()])
        } else {
            prev.update(prev.len() - 1, prev.last().push(s.last()))
        }
    }
}

/// The lines a view shows of a text: its pieces after each newline, and an
/// empty last line when the text is empty or ends with a newline.
pub open spec fn shown_line_texts(s: Seq<char>) -> Seq<Seq<char>> {
    if s.len() == 0 || s.last() == '\n' {
        split_lines(s).push(Seq::empty())
    } else {
        split_lines(s)
    }
}

proof fn lemma_split_lines_nonempty(s: Seq<char>)
    ensures
        forall|i: int| 0 <= i < split_lines(s).len() ==> #[trigger] split_lines(s)[i].len() > 0,
        s.len() > 0 ==> split_lines(s).len() > 0 && split_lines(s).last().last() == s.last(),
    decreases s.len(),
{
    if s.len() > 0 {
        lemma_split_lines_nonempty(s.drop_last());
        let prev = split_lines(s.drop_last());
        let cur = split_lines(s);
        assert forall|i: int| 0 <= i < cur.len() implies #[trigger] cur[i].len() > 0 by {
            if i < prev.len() && !(prev.len() == 0 || prev.last().last() == '\n') && i == prev.len() - 1 {
                assert(cur[i] == prev.last().push(s.last()));
            } else if i < prev.len() {
                assert(cur[i] == prev[i]);
            }
        }
    }
}

/// The lines a view shows of a text.
pub fn split_shown_lines(data: &String) -> (lines: Vec<String>)
    ensures
        string_views(lines@) == shown_line_texts(data@),
{
    let n = data.as_str().unicode_len();
    let mut lines: Vec<String> = Vec::new();
    let mut k: usize = 0;
    proof {
        assert(data@.take(0) =~= Seq::<char>::empty());
        assert(string_views(lines@) =~= Seq::<Seq<char>>::empty());
    }
    while k < n
        invariant
            k <= n,
            n == data@.len(),
            string_views(lines@) == split_lines(data@.take(k as int)),
        decreases n - k,
    {
        let c = data.as_str().get_char(k);
        proof {
            lemma_split_lines_nonempty(data@.take(k as int));
            assert(data@.take(k + 1).drop_last() =~= data@.take(k as int));
            assert(data@.take(k + 1).last() == c);
        }
        let ghost prev = string_views(lines@);
        let complete = if lines.len() == 0 {
            true
        } else {
            let last = &lines[lines.len() - 1];
            let m = last.as_str().unicode_len();
            proof {
                assert(prev.last() == last@);
            }
            m > 0 && last.as_str().get_char(m - 1) == '\n'
        };
        if complete {
            lines.push(char_string(c));
            proof {
                assert(string_views(lines@) =~= prev.push(seq![c]));
            }
        } else {
            let i = lines.len() - 1;
            let ghost l0 = lines@;
            let mut last = lines.remove(i);
            proof {
                assert(lines@ =~= l0.take(i as int));
                assert(last == l0[i as int]);
            }
            let piece = char_string(c);
            last.append(piece.as_str());
            lines.push(last);
            proof {
                assert(lines@ =~= l0.take(i as int).push(last));
                assert(prev == string_views(l0));
                assert(last@ == l0[i as int]@.push(c));
                assert(prev.last() == l0[i as int]@);
                assert forall|j: int| 0 <= j < prev.len() implies #[trigger] string_views(lines@)[j] == prev.update(prev.len() - 1, prev.last().push(c))[j] by {
                    if j < i {
                        assert(lines@[j] == l0[j]);
                    }
                }
                assert(string_views(lines@) =~= prev.update(prev.len() - 1, prev.last().push(c)));
            }
        }
        k = k + 1;
    }
    proof {
        assert(data@.take(n as int) == data@);
        lemma_split_lines_nonempty(data@);
    }
    let ends_nl = n > 0 && data.as_str().get_char(n - 1) == '\n';
    if n == 0 || ends_nl {
        let ghost prev = string_views(lines@);
        lines.push(String::new());
        proof {
            assert(string_views(lines@) =~= prev.push(Seq::empty()));
        }
    }
    lines
}

/// The lines a view shows from row `y` on, `height` rows of them: the text
/// from the start of line `y` to the end of line `y + height`, cut into
/// lines, with the byte it starts at.
pub fn fetch_lines(table: &PieceTable, y: usize, height: usize) -> (d: LocalViewData)
    requires
        table.wf(),
        valid_utf8(table.text()),
        y + height <= usize::MAX,
    ensures
        d.offset == line_start(table.text(), y as int),
        string_views(d.lines@) == shown_line_texts(
            decode_utf8(clamped(table.text(), line_start(table.text(), y as int), line_end(table.text(), y + height))),
        ),
{
    let ghost t = table.text();
    let start = table.get_line_start_byte(y);
    let end = table.get_line_end_byte(y + height);
    proof {
        lemma_line_starts_basic(t);
        lemma_line_start_boundary(t, y as int);
        lemma_line_start_boundary(t, y + height);
        lemma_lines_ordered(t, y as int, y + height);
        lemma_valid_between(t, start as int, end as int);
        assert(clamped(t, start as int, end as int) =~= t.subrange(start as int, end as int));
    }
    let data = table.slice_range(start, end);
    LocalViewData { offset: start, lines: split_shown_lines(&data) }
}

/// Line `a` starts no later than line `b` ends, for `a <= b`.
proof fn lemma_lines_ordered(t: Seq<u8>, a: int, b: int)
    requires
        0 <= a <= b,
    ensures
        line_start(t, a) <= line_end(t, b),
        line_end(t, b) <= t.len(),
{
    lemma_line_starts_basic(t);
    let ls = crate::lines::line_starts(t);
    if a < ls.len() && b + 1 < ls.len() {
        assert(ls[a] <= ls[b + 1]);
    }
}

} // verus!
