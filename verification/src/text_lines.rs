use vstd::prelude::*;
use vstd::utf8::{
    decode_utf8, is_char_boundary, is_char_boundary_iff_not_is_continuation_byte,
    is_char_boundary_start_end_of_seq, is_continuation_byte, is_leading_byte_width_1,
    length_of_first_scalar, pop_first_scalar, valid_utf8, valid_utf8_split,
};

use crate::lines::{lemma_line_starts_basic, line_starts};
use crate::piece_table::{clamped, line_end, line_start, PieceTable};

verus! {

/// The number of lines of a text: one more than its newlines.
pub open spec fn num_lines(t: Seq<u8>) -> int {
    line_starts(t).len() as int
}

/// The characters of line `y` of a UTF-8 text, its newline included.
pub open spec fn line_chars(t: Seq<u8>, y: int) -> Seq<char> {
    decode_utf8(t.subrange(line_start(t, y), line_end(t, y)))
}

/// Every line start after the first follows a newline.
pub proof fn lemma_line_start_after_newline(t: Seq<u8>, k: int)
    requires
        0 < k < line_starts(t).len(),
    ensures
        line_starts(t)[k] >= 1,
        t[line_starts(t)[k] - 1] == 10u8,
    decreases t.len(),
{
    lemma_line_starts_basic(t);
    if t.len() > 0 {
        lemma_line_starts_basic(t.drop_last());
        if t.last() == 10u8 && k == line_starts(t).len() - 1 {
        } else {
            lemma_line_start_after_newline(t.drop_last(), k);
        }
    }
}

/// In valid UTF-8, the byte after a one-byte character starts a character.
pub proof fn lemma_boundary_after_ascii(t: Seq<u8>, j: int)
    requires
        valid_utf8(t),
        0 <= j < t.len(),
        is_char_boundary(t, j),
        is_leading_byte_width_1(t[j]),
    ensures
        is_char_boundary(t, j + 1),
    decreases t.len(),
{
    reveal_with_fuel(is_char_boundary, 2);
    if j > 0 {
        let l = length_of_first_scalar(t);
        let rest = pop_first_scalar(t);
        assert(is_char_boundary(rest, j - l));
        assert(rest[j - l] == t[j]);
        lemma_boundary_after_ascii(rest, j - l);
    }
}

/// Every line boundary of a valid UTF-8 text is a character boundary.
pub proof fn lemma_line_start_boundary(t: Seq<u8>, y: int)
    requires
        valid_utf8(t),
    ensures
        is_char_boundary(t, line_start(t, y)),
        is_char_boundary(t, line_end(t, y)),
{
    lemma_line_starts_basic(t);
    is_char_boundary_start_end_of_seq(t);
    if 0 <= y < line_starts(t).len() {
        lemma_start_k_boundary(t, y);
    }
    if 0 <= y && y + 1 < line_starts(t).len() {
        lemma_start_k_boundary(t, y + 1);
    }
}

proof fn lemma_start_k_boundary(t: Seq<u8>, k: int)
    requires
        valid_utf8(t),
        0 <= k < line_starts(t).len(),
    ensures
        is_char_boundary(t, line_starts(t)[k]),
{
    lemma_line_starts_basic(t);
    is_char_boundary_start_end_of_seq(t);
    if k > 0 {
        lemma_line_start_after_newline(t, k);
        let s = line_starts(t)[k];
        is_char_boundary_iff_not_is_continuation_byte(t, s - 1);
        assert(!is_continuation_byte(t[s - 1]));
        assert(is_leading_byte_width_1(t[s - 1]));
        lemma_boundary_after_ascii(t, s - 1);
    }
}

/// The bytes between two character boundaries of valid UTF-8 are valid.
pub proof fn lemma_valid_between(t: Seq<u8>, a: int, b: int)
    requires
        valid_utf8(t),
        0 <= a <= b <= t.len(),
        is_char_boundary(t, a),
        is_char_boundary(t, b),
    ensures
        valid_utf8(t.subrange(a, b)),
{
    valid_utf8_split(t, b);
    let p = t.subrange(0, b);
    if a < b {
        is_char_boundary_iff_not_is_continuation_byte(t, a);
        is_char_boundary_iff_not_is_continuation_byte(p, a);
        assert(p[a] == t[a]);
    } else {
        is_char_boundary_start_end_of_seq(p);
    }
    valid_utf8_split(p, a);
    assert(p.subrange(a, p.len() as int) =~= t.subrange(a, b));
}

/// The line `y` with `offset` in it: the first line that starts at or before
/// `offset` and ends after it, or is the last line.
pub open spec fn holds_offset(t: Seq<u8>, offset: int, y: int) -> bool {
    offset >= line_start(t, y) && (offset < line_end(t, y) || y == num_lines(t) - 1)
}

/// The first line from `y` on that holds `offset`, else the last line.
pub open spec fn find_line(t: Seq<u8>, offset: int, y: int) -> int
    decreases num_lines(t) - y,
{
    if y >= num_lines(t) || y < 0 {
        num_lines(t) - 1
    } else if holds_offset(t, offset, y) {
        y
    } else {
        find_line(t, offset, y + 1)
    }
}

/// The line of a byte offset.
pub open spec fn line_of(t: Seq<u8>, offset: int) -> int {
    find_line(t, offset, 0)
}

pub proof fn lemma_find_line_range(t: Seq<u8>, offset: int, y: int)
    ensures
        0 <= find_line(t, offset, y) < num_lines(t),
    decreases num_lines(t) - y,
{
    lemma_line_starts_basic(t);
    if 0 <= y < num_lines(t) && !holds_offset(t, offset, y) {
        lemma_find_line_range(t, offset, y + 1);
    }
}

/// The line that holds byte `offset`.
pub fn line_at(table: &PieceTable, offset: usize) -> (y: usize)
    requires
        table.wf(),
    ensures
        y == line_of(table.text(), offset as int),
        y < num_lines(table.text()),
{
    let ghost t = table.text();
    proof {
        lemma_line_starts_basic(t);
        lemma_find_line_range(t, offset as int, 0);
    }
    let lines = table.lines();
    let mut y: usize = 0;
    while y < lines
        invariant
            table.wf(),
            t == table.text(),
            lines == num_lines(t),
            y <= lines,
            find_line(t, offset as int, y as int) == line_of(t, offset as int),
        decreases lines - y,
    {
        let start = table.get_line_start_byte(y);
        let end = table.get_line_end_byte(y);
        if offset >= start && (offset < end || y == lines - 1) {
            return y;
        }
        y = y + 1;
    }
    lines - 1
}

/// The text of line `y`, its newline included.
pub fn line_text(table: &PieceTable, y: usize) -> (s: String)
    requires
        table.wf(),
        valid_utf8(table.text()),
    ensures
        s@ == line_chars(table.text(), y as int),
{
    let ghost t = table.text();
    let start = table.get_line_start_byte(y);
    let end = table.get_line_end_byte(y);
    proof {
        lemma_line_starts_basic(t);
        lemma_line_start_boundary(t, y as int);
        if 0 <= y && y + 1 < line_starts(t).len() {
            assert(line_starts(t)[y as int] <= line_starts(t)[y + 1]);
        }
        lemma_valid_between(t, start as int, end as int);
        assert(clamped(t, start as int, end as int) =~= t.subrange(start as int, end as int));
    }
    table.slice_range(start, end)
}

} // verus!
