use vstd::prelude::*;

verus! {

/// The byte offsets at which the lines of `t` begin: `0`, and one past every
/// `'\n'`, in increasing order.
pub open spec fn line_starts(t: Seq<u8>) -> Seq<int>
    decreases t.len(),
{
    if t.len() == 0 {
        seq![0int]
    } else if t.last() == 10u8 {
        line_starts(t.drop_last()).push(t.len() as int)
    } else {
        line_starts(t.drop_last())
    }
}

/// The number of `'\n'` bytes in `t`.
pub open spec fn newlines(t: Seq<u8>) -> nat
    decreases t.len(),
{
    if t.len() == 0 {
        0
    } else {
        newlines(t.drop_last()) + if t.last() == 10u8 { 1nat } else { 0nat }
    }
}

/// A text has one line more than it has newlines.
pub proof fn lemma_line_count(t: Seq<u8>)
    ensures
        line_starts(t).len() == 1 + newlines(t),
    decreases t.len(),
{
    if t.len() > 0 {
        lemma_line_count(t.drop_last());
    }
}

/// The newlines of a concatenation are those of its parts.
pub proof fn lemma_newlines_concat(a: Seq<u8>, b: Seq<u8>)
    ensures
        newlines(a + b) == newlines(a) + newlines(b),
    decreases b.len(),
{
    if b.len() == 0 {
        assert(a + b =~= a);
    } else {
        lemma_newlines_concat(a, b.drop_last());
        assert((a + b).drop_last() =~= a + b.drop_last());
        assert((a + b).last() == b.last());
    }
}

/// The line starts of `ls` after the first one, moved by `d`.
pub open spec fn shift_tail(ls: Seq<int>, d: int) -> Seq<int> {
    Seq::new((ls.len() - 1) as nat, |k: int| ls[k + 1] + d)
}

/// A vector of offsets holds exactly the integers `ls`.
pub open spec fn same_offsets(v: Seq<usize>, ls: Seq<int>) -> bool {
    &&& v.len() == ls.len()
    &&& forall|k: int| 0 <= k < v.len() ==> #[trigger] v[k] as int == ls[k]
}

/// The sequence is strictly increasing.
pub open spec fn increasing(ls: Seq<int>) -> bool {
    forall|i: int, j: int| 0 <= i < j < ls.len() ==> ls[i] < ls[j]
}

pub proof fn lemma_line_starts_basic(t: Seq<u8>)
    ensures
        line_starts(t).len() >= 1,
        line_starts(t)[0] == 0,
        increasing(line_starts(t)),
        forall|k: int| 0 <= k < line_starts(t).len() ==> 0 <= #[trigger] line_starts(t)[k] <= t.len(),
    decreases t.len(),
{
    if t.len() > 0 {
        lemma_line_starts_basic(t.drop_last());
    }
}

/// The line starts of a concatenation.
pub proof fn lemma_line_starts_concat(a: Seq<u8>, b: Seq<u8>)
    ensures
        line_starts(a + b) =~= line_starts(a) + shift_tail(line_starts(b), a.len() as int),
    decreases b.len(),
{
    lemma_line_starts_basic(b);
    if b.len() == 0 {
        assert(a + b =~= a);
        assert(line_starts(b) =~= seq![0int]);
    } else {
        lemma_line_starts_concat(a, b.drop_last());
        assert((a + b).drop_last() =~= a + b.drop_last());
        assert((a + b).last() == b.last());
        lemma_line_starts_basic(b.drop_last());
    }
}

/// Every line start of `shift_tail(line_starts(b), d)` is in `(d, d + b.len()]`.
pub proof fn lemma_shift_tail_range(b: Seq<u8>, d: int)
    ensures
        forall|k: int|
            0 <= k < shift_tail(line_starts(b), d).len() ==> d < #[trigger] shift_tail(
                line_starts(b),
                d,
            )[k] <= d + b.len(),
        increasing(shift_tail(line_starts(b), d)),
{
    lemma_line_starts_basic(b);
    let ls = line_starts(b);
    assert forall|k: int| 0 <= k < shift_tail(ls, d).len() implies d < #[trigger] shift_tail(
        ls,
        d,
    )[k] <= d + b.len() by {
        assert(ls[0] < ls[k + 1]);
    }
}

/// The number of leading elements of the sorted sequence that are at most `pos`.
pub fn partition_point(v: &Vec<usize>, pos: usize) -> (r: usize)
    requires
        forall|i: int, j: int| 0 <= i < j < v.len() ==> v[i] < v[j],
    ensures
        r <= v.len(),
        forall|k: int| 0 <= k < r ==> v[k] <= pos,
        forall|k: int| r <= k < v.len() ==> v[k] > pos,
{
    let mut lo: usize = 0;
    let mut hi: usize = v.len();
    while lo < hi
        invariant
            lo <= hi <= v.len(),
            forall|i: int, j: int| 0 <= i < j < v.len() ==> v[i] < v[j],
            forall|k: int| 0 <= k < lo ==> v[k] <= pos,
            forall|k: int| hi <= k < v.len() ==> v[k] > pos,
        decreases hi - lo,
    {
        let mid = lo + (hi - lo) / 2;
        if v[mid] <= pos {
            lo = mid + 1;
        } else {
            hi = mid;
        }
    }
    lo
}

/// Collects the line starts after the first one of `text`, moved by `base`.
pub fn newline_offsets(text: &[u8], base: usize) -> (r: Vec<usize>)
    requires
        base + text.len() <= usize::MAX,
    ensures
        same_offsets(r@, shift_tail(line_starts(text@), base as int)),
{
    let mut out: Vec<usize> = Vec::new();
    let mut idx: usize = 0;
    proof {
        assert(text@.subrange(0, 0) =~= Seq::<u8>::empty());
    }
    while idx < text.len()
        invariant
            idx <= text.len(),
            base + text.len() <= usize::MAX,
            same_offsets(out@, shift_tail(line_starts(text@.subrange(0, idx as int)), base as int)),
        decreases text.len() - idx,
    {
        let ghost pre = text@.subrange(0, idx as int);
        proof {
            assert(text@.subrange(0, idx + 1).drop_last() =~= pre);
            lemma_line_starts_basic(pre);
        }
        if text[idx] == 10u8 {
            out.push(base + idx + 1);
        }
        idx = idx + 1;
    }
    proof {
        assert(text@.subrange(0, text.len() as int) =~= text@);
    }
    out
}


/// The position of the first line start after `pos` is the number of line
/// starts of the text before `pos`.
pub proof fn lemma_split_point(t: Seq<u8>, pos: int, r: int)
    requires
        0 <= pos <= t.len(),
        0 <= r <= line_starts(t).len(),
        forall|k: int| 0 <= k < r ==> line_starts(t)[k] <= pos,
        forall|k: int| r <= k < line_starts(t).len() ==> line_starts(t)[k] > pos,
    ensures
        r == line_starts(t.subrange(0, pos)).len(),
        line_starts(t) =~= line_starts(t.subrange(0, pos)) + shift_tail(
            line_starts(t.subrange(pos, t.len() as int)),
            pos,
        ),
{
    let a = t.subrange(0, pos);
    let b = t.subrange(pos, t.len() as int);
    assert(t =~= a + b);
    lemma_line_starts_concat(a, b);
    lemma_line_starts_basic(a);
    lemma_shift_tail_range(b, pos);
    let la = line_starts(a).len() as int;
    if r < la {
        assert(line_starts(t)[r] == line_starts(a)[r]);
    }
    if r > la {
        assert(line_starts(t)[la] == shift_tail(line_starts(b), pos)[0]);
    }
}

/// Moves the line starts `lines` of `t` to those of `t` with `text` inserted at
/// `pos`.
pub fn update_lines_insert(lines: &mut Vec<usize>, pos: usize, text: &[u8], Ghost(t): Ghost<Seq<u8>>)
    requires
        same_offsets(old(lines)@, line_starts(t)),
        pos <= t.len(),
        t.len() + text.len() <= usize::MAX,
    ensures
        same_offsets(
            final(lines)@,
            line_starts(t.subrange(0, pos as int) + text@ + t.subrange(pos as int, t.len() as int)),
        ),
{
    let ghost a = t.subrange(0, pos as int);
    let ghost b = t.subrange(pos as int, t.len() as int);
    let ghost target = line_starts(a + text@ + b);
    let new_lines = newline_offsets(text, pos);
    proof {
        lemma_line_starts_basic(t);
        lemma_line_starts_concat(a + text@, b);
        lemma_line_starts_concat(a, text@);
        lemma_line_starts_basic(a);
        lemma_line_starts_basic(text@);
        assert(a + text@ + b =~= (a + text@) + b);
    }
    let lines_idx = partition_point(lines, pos);
    proof {
        assert forall|q: int| 0 <= q < lines_idx implies line_starts(t)[q] <= pos by {
            assert(lines@[q] as int == line_starts(t)[q]);
        }
        assert forall|q: int| lines_idx <= q < line_starts(t).len() implies line_starts(t)[q] > pos by {
            assert(lines@[q] as int == line_starts(t)[q]);
        }
        lemma_split_point(t, pos as int, lines_idx as int);
    }
    let ghost la = lines_idx as int;
    let ghost ns = shift_tail(line_starts(text@), pos as int);
    let mut out: Vec<usize> = Vec::new();
    let mut k: usize = 0;
    while k < lines_idx
        invariant
            k <= lines_idx <= lines.len(),
            lines@ == old(lines)@,
            same_offsets(lines@, line_starts(t)),
            la == lines_idx,
            la == line_starts(a).len(),
            line_starts(t) =~= line_starts(a) + shift_tail(line_starts(b), pos as int),
            out@.len() == k,
            forall|j: int| 0 <= j < k ==> #[trigger] out@[j] as int == line_starts(a)[j],
        decreases lines_idx - k,
    {
        out.push(lines[k]);
        k = k + 1;
    }
    let mut m: usize = 0;
    while m < new_lines.len()
        invariant
            m <= new_lines.len(),
            same_offsets(new_lines@, ns),
            out@.len() == la + m,
            la == line_starts(a).len(),
            forall|j: int| 0 <= j < la ==> #[trigger] out@[j] as int == line_starts(a)[j],
            forall|j: int| la <= j < la + m ==> #[trigger] out@[j] as int == ns[j - la],
        decreases new_lines.len() - m,
    {
        out.push(new_lines[m]);
        m = m + 1;
    }
    let ghost mid = out@.len() as int;
    let mut k2: usize = lines_idx;
    let tl = text.len();
    while k2 < lines.len()
        invariant
            lines_idx <= k2 <= lines.len(),
            lines@ == old(lines)@,
            same_offsets(lines@, line_starts(t)),
            la == lines_idx,
            la == line_starts(a).len(),
            tl == text@.len(),
            t.len() + tl <= usize::MAX,
            forall|q: int| 0 <= q < line_starts(t).len() ==> 0 <= #[trigger] line_starts(t)[q] <= t.len(),
            line_starts(t) =~= line_starts(a) + shift_tail(line_starts(b), pos as int),
            mid == la + ns.len(),
            out@.len() == mid + (k2 - la),
            forall|j: int| 0 <= j < la ==> #[trigger] out@[j] as int == line_starts(a)[j],
            forall|j: int| la <= j < mid ==> #[trigger] out@[j] as int == ns[j - la],
            forall|j: int| mid <= j < out@.len() ==> #[trigger] out@[j] as int == line_starts(t)[j - mid + la] + tl,
        decreases lines.len() - k2,
    {
        assert(lines@[k2 as int] as int == line_starts(t)[k2 as int]);
        out.push(lines[k2] + tl);
        k2 = k2 + 1;
    }
    proof {
        assert(target =~= line_starts(a) + ns + shift_tail(line_starts(b), pos + text@.len()));
        assert forall|j: int| 0 <= j < out@.len() implies #[trigger] out@[j] as int == target[j] by {
            if j >= mid {
                assert(line_starts(t)[j - mid + la] == shift_tail(line_starts(b), pos as int)[j - mid]);
            }
        }
    }
    *lines = out;
}

/// Moves the line starts `lines` of `t` to those of `t` with the `n` bytes at
/// `pos` removed.
pub fn update_lines_remove(lines: &mut Vec<usize>, pos: usize, n: usize, Ghost(t): Ghost<Seq<u8>>)
    requires
        same_offsets(old(lines)@, line_starts(t)),
        pos + n <= t.len(),
        t.len() <= usize::MAX,
    ensures
        same_offsets(
            final(lines)@,
            line_starts(t.subrange(0, pos as int) + t.subrange(pos + n, t.len() as int)),
        ),
{
    let end = pos + n;
    let ghost a = t.subrange(0, pos as int);
    let ghost r = t.subrange(pos as int, end as int);
    let ghost c = t.subrange(end as int, t.len() as int);
    let ghost ar = t.subrange(0, end as int);
    let ghost target = line_starts(a + c);
    proof {
        lemma_line_starts_basic(t);
        lemma_line_starts_concat(a, c);
        lemma_line_starts_concat(a, r);
        lemma_line_starts_basic(a);
        lemma_line_starts_basic(r);
        assert(ar =~= a + r);
    }
    let start = partition_point(lines, pos);
    let stop = partition_point(lines, end);
    proof {
        assert forall|q: int| 0 <= q < start implies line_starts(t)[q] <= pos by {
            assert(lines@[q] as int == line_starts(t)[q]);
        }
        assert forall|q: int| start <= q < line_starts(t).len() implies line_starts(t)[q] > pos by {
            assert(lines@[q] as int == line_starts(t)[q]);
        }
        assert forall|q: int| 0 <= q < stop implies line_starts(t)[q] <= end by {
            assert(lines@[q] as int == line_starts(t)[q]);
        }
        assert forall|q: int| stop <= q < line_starts(t).len() implies line_starts(t)[q] > end by {
            assert(lines@[q] as int == line_starts(t)[q]);
        }
        lemma_split_point(t, pos as int, start as int);
        lemma_split_point(t, end as int, stop as int);
        assert(ar.subrange(0, pos as int) =~= a);
    }
    let ghost la = start as int;
    let ghost lar = stop as int;
    let mut out: Vec<usize> = Vec::new();
    let mut k: usize = 0;
    while k < start
        invariant
            k <= start <= lines.len(),
            lines@ == old(lines)@,
            same_offsets(lines@, line_starts(t)),
            la == start,
            la == line_starts(a).len(),
            line_starts(t) =~= line_starts(a) + shift_tail(line_starts(t.subrange(pos as int, t.len() as int)), pos as int),
            out@.len() == k,
            forall|j: int| 0 <= j < k ==> #[trigger] out@[j] as int == line_starts(a)[j],
        decreases start - k,
    {
        out.push(lines[k]);
        k = k + 1;
    }
    let mut k2: usize = stop;
    while k2 < lines.len()
        invariant
            stop <= k2 <= lines.len(),
            start <= stop,
            lines@ == old(lines)@,
            same_offsets(lines@, line_starts(t)),
            la == start,
            lar == stop,
            la == line_starts(a).len(),
            lar == line_starts(ar).len(),
            end == pos + n,
            line_starts(t) =~= line_starts(ar) + shift_tail(line_starts(c), end as int),
            out@.len() == la + (k2 - lar),
            forall|j: int| 0 <= j < la ==> #[trigger] out@[j] as int == line_starts(a)[j],
            forall|j: int| la <= j < out@.len() ==> #[trigger] out@[j] as int == line_starts(t)[j - la + lar] - n,
        decreases lines.len() - k2,
    {
        assert(lines@[k2 as int] as int == line_starts(t)[k2 as int]);
        proof {
            assert(line_starts(t)[k2 as int] == shift_tail(line_starts(c), end as int)[k2 - lar]);
            lemma_shift_tail_range(c, end as int);
        }
        out.push(lines[k2] - n);
        k2 = k2 + 1;
    }
    proof {
        assert(start <= stop);
        assert forall|j: int| 0 <= j < out@.len() implies #[trigger] out@[j] as int == target[j] by {
            if j >= la {
                assert(line_starts(t)[j - la + lar] == shift_tail(line_starts(c), end as int)[j - la]);
            }
        }
        assert(out@.len() == target.len());
    }
    *lines = out;
}

} // verus!
