use vstd::prelude::*;
use vstd::string::StringSliceAdditionalSpecFns;

use crate::history::{
    Change, Commit, History, Kind, apply_change, changes_ok, lemma_recorded_concat,
    lemma_recorded_empty, lemma_recorded_push, lemma_redo_ok_prefix, lemma_unreplay_replay,
    recorded, redo_ok, replay, undo_ok, unapply_change, unreplay,
};
use crate::utf8::string_from_utf8;
use vstd::utf8::{decode_utf8, valid_utf8};
use crate::lines::{
    lemma_line_count, lemma_line_starts_basic, lemma_newlines_concat, line_starts, newlines, newline_offsets, same_offsets, update_lines_insert,
    update_lines_remove,
};
use crate::piece::{
    Piece, Source, lemma_pieces_len_insert, lemma_pieces_len_remove, lemma_pieces_single, lemma_pieces_split, lemma_pieces_split3,
    lemma_pieces_text_concat, lemma_pieces_len_concat, lemma_pieces_text_grow,
    lemma_pieces_text_len, lemma_pieces_len_prefix_step, piece_ok, pieces_len, pieces_ok,
    pieces_text, seg, source_bytes,
};

verus! {

/// Piece table with a `History` to enable undo/redo operations.
pub struct PieceTable {
    /// Read only input data.
    original: Vec<u8>,
    /// Data added while editing.
    addition: Vec<u8>,
    /// List of pieces that point to data contained in text.
    pieces: Vec<Piece>,
    /// Start bytes of lines.
    lines: Vec<usize>,
    /// Length of the text contained in the piece table.
    total_length: usize,
    /// Edit history.
    history: History,
    /// The currently active transaction.
    active_commit: Option<Commit>,
    /// The piece list at the start of the commit of each history entry.
    befores: Ghost<Seq<Seq<Piece>>>,
    /// The piece list at the end of the commit of each history entry.
    afters: Ghost<Seq<Seq<Piece>>>,
    /// The piece list when the active transaction started.
    active_before: Ghost<Seq<Piece>>,
    /// Whether the commit of each history entry records every edit made
    /// between its start and its end.
    faithful: Ghost<Seq<bool>>,
    /// Whether the open transaction records every edit made since it started.
    active_faithful: Ghost<bool>,
}

/// The pieces of `ps` before `i`, then `mid`, then those of `ps` from `j` on.
#[verifier::spinoff_prover]
pub proof fn lemma_text_replace(
    orig: Seq<u8>,
    add: Seq<u8>,
    ps: Seq<Piece>,
    i: int,
    j: int,
    mid: Seq<Piece>,
)
    requires
        0 <= i <= j <= ps.len(),
    ensures
        pieces_text(orig, add, ps.subrange(0, i) + mid + ps.subrange(j, ps.len() as int))
            =~= pieces_text(orig, add, ps.subrange(0, i)) + pieces_text(orig, add, mid)
            + pieces_text(orig, add, ps.subrange(j, ps.len() as int)),
        pieces_len(ps.subrange(0, i) + mid + ps.subrange(j, ps.len() as int)) == pieces_len(
            ps.subrange(0, i),
        ) + pieces_len(mid) + pieces_len(ps.subrange(j, ps.len() as int)),
{
    let a = ps.subrange(0, i);
    let c = ps.subrange(j, ps.len() as int);
    lemma_pieces_text_concat(orig, add, a + mid, c);
    lemma_pieces_text_concat(orig, add, a, mid);
    lemma_pieces_len_concat(a + mid, c);
    lemma_pieces_len_concat(a, mid);
}

/// At a piece boundary whose prefix length is `pos`, the text splits at `pos`.
#[verifier::spinoff_prover]
pub proof fn lemma_text_boundary(orig: Seq<u8>, add: Seq<u8>, ps: Seq<Piece>, i: int)
    requires
        pieces_ok(orig, add, ps),
        0 <= i <= ps.len(),
    ensures
        pieces_text(orig, add, ps.subrange(0, i)) =~= pieces_text(orig, add, ps).subrange(
            0,
            pieces_len(ps.subrange(0, i)) as int,
        ),
        pieces_text(orig, add, ps.subrange(i, ps.len() as int)) =~= pieces_text(
            orig,
            add,
            ps,
        ).subrange(pieces_len(ps.subrange(0, i)) as int, pieces_len(ps) as int),
        pieces_text(orig, add, ps).len() == pieces_len(ps),
{
    lemma_pieces_split(orig, add, ps, i);
    assert(pieces_ok(orig, add, ps.subrange(0, i)));
    assert(pieces_ok(orig, add, ps.subrange(i, ps.len() as int)));
    lemma_pieces_text_len(orig, add, ps.subrange(0, i));
    lemma_pieces_text_len(orig, add, ps.subrange(i, ps.len() as int));
    lemma_pieces_text_len(orig, add, ps);
}

#[verifier::spinoff_prover]
pub proof fn lemma_pieces_ok_seq3(orig: Seq<u8>, add: Seq<u8>, a: Seq<Piece>, b: Seq<Piece>, c: Seq<Piece>)
    requires
        pieces_ok(orig, add, a),
        pieces_ok(orig, add, b),
        pieces_ok(orig, add, c),
    ensures
        pieces_ok(orig, add, a + b + c),
{
    let s = a + b + c;
    assert forall|i: int| 0 <= i < s.len() implies #[trigger] piece_ok(orig, add, s[i]) by {
        if i < a.len() {
            assert(piece_ok(orig, add, a[i]));
        } else if i < a.len() + b.len() {
            assert(piece_ok(orig, add, b[i - a.len()]));
        } else {
            assert(piece_ok(orig, add, c[i - a.len() - b.len()]));
        }
    }
}

/// Putting `mid` in place of the pieces `i..j`: the text and the length.
#[verifier::spinoff_prover]
pub proof fn lemma_replace_facts(
    orig: Seq<u8>,
    add: Seq<u8>,
    ps: Seq<Piece>,
    i: int,
    j: int,
    mid: Seq<Piece>,
)
    requires
        0 <= i <= j <= ps.len(),
        pieces_ok(orig, add, ps),
        pieces_ok(orig, add, mid),
    ensures
        pieces_ok(orig, add, ps.subrange(0, i) + mid + ps.subrange(j, ps.len() as int)),
{
    assert(pieces_ok(orig, add, ps.subrange(0, i)));
    assert(pieces_ok(orig, add, ps.subrange(j, ps.len() as int)));
    lemma_pieces_ok_seq3(orig, add, ps.subrange(0, i), mid, ps.subrange(j, ps.len() as int));
}

/// Inserting a new piece at a piece boundary, recorded as one insertion.
#[verifier::spinoff_prover]
pub proof fn lemma_insert_at_boundary(orig: Seq<u8>, add: Seq<u8>, ps: Seq<Piece>, idx: int, piece: Piece)
    requires
        0 <= idx <= ps.len(),
        idx <= usize::MAX,
        pieces_ok(orig, add, ps),
        piece_ok(orig, add, piece),
        pieces_len(ps) + piece.length <= usize::MAX,
    ensures
        ({
            let c1 = Change { pos: idx as usize, piece, kind: Kind::Insertion };
            let new = ps.insert(idx, piece);
            &&& recorded(ps, seq![c1])
            &&& replay(ps, seq![c1]) == new
            &&& pieces_ok(orig, add, new)
            &&& pieces_len(new) == pieces_len(ps) + piece.length
            &&& pieces_text(orig, add, new) =~= pieces_text(orig, add, ps.subrange(0, idx)) + seg(
                orig,
                add,
                piece,
            ) + pieces_text(orig, add, ps.subrange(idx, ps.len() as int))
        }),
{
    let c1 = Change { pos: idx as usize, piece, kind: Kind::Insertion };
    let pre = ps.subrange(0, idx);
    let post = ps.subrange(idx, ps.len() as int);
    let new = ps.insert(idx, piece);
    lemma_recorded_empty(ps);
    assert(Seq::<Change>::empty().push(c1) =~= seq![c1]);
    assert(new =~= pre + seq![piece] + post);
    lemma_text_replace(orig, add, ps, idx, idx, seq![piece]);
    lemma_pieces_single(orig, add, piece);
    lemma_pieces_split(orig, add, ps, idx);
    lemma_recorded_push(ps, Seq::<Change>::empty(), c1);
    assert(pieces_ok(orig, add, seq![piece]));
    lemma_replace_facts(orig, add, ps, idx, idx, seq![piece]);
}

/// Replacing the piece at `k` by `np`, recorded as a deletion and an insertion.
#[verifier::spinoff_prover]
#[verifier::rlimit(50)]
pub proof fn lemma_replace_piece(orig: Seq<u8>, add: Seq<u8>, ps: Seq<Piece>, k: int, np: Piece)
    requires
        0 <= k < ps.len(),
        k <= usize::MAX,
        pieces_ok(orig, add, ps),
        piece_ok(orig, add, np),
        pieces_len(ps) <= usize::MAX,
        pieces_len(ps) - ps[k].length + np.length <= usize::MAX,
    ensures
        ({
            let c1 = Change { pos: k as usize, piece: ps[k], kind: Kind::Deletion };
            let c2 = Change { pos: k as usize, piece: np, kind: Kind::Insertion };
            let new = ps.update(k, np);
            &&& recorded(ps, seq![c1, c2])
            &&& replay(ps, seq![c1, c2]) == new
            &&& pieces_ok(orig, add, new)
            &&& pieces_len(new) == pieces_len(ps) - ps[k].length + np.length
            &&& pieces_text(orig, add, new) =~= pieces_text(orig, add, ps.subrange(0, k)) + seg(
                orig,
                add,
                np,
            ) + pieces_text(orig, add, ps.subrange(k + 1, ps.len() as int))
            &&& pieces_text(orig, add, ps) =~= pieces_text(orig, add, ps.subrange(0, k)) + seg(
                orig,
                add,
                ps[k],
            ) + pieces_text(orig, add, ps.subrange(k + 1, ps.len() as int))
        }),
{
    let piece = ps[k];
    let c1 = Change { pos: k as usize, piece, kind: Kind::Deletion };
    let c2 = Change { pos: k as usize, piece: np, kind: Kind::Insertion };
    let pre = ps.subrange(0, k);
    let post = ps.subrange(k + 1, ps.len() as int);
    lemma_pieces_split3(orig, add, ps, k);
    lemma_recorded_empty(ps);
    assert(Seq::<Change>::empty().push(c1) =~= seq![c1]);
    let s1 = ps.remove(k);
    assert(s1 =~= pre + Seq::<Piece>::empty() + post);
    lemma_text_replace(orig, add, ps, k, k + 1, Seq::<Piece>::empty());
    assert(pieces_len(Seq::<Piece>::empty()) == 0);
    lemma_recorded_push(ps, Seq::<Change>::empty(), c1);
    let new = ps.update(k, np);
    assert(s1.insert(k, np) =~= new);
    assert(new =~= pre + seq![np] + post);
    lemma_text_replace(orig, add, ps, k, k + 1, seq![np]);
    lemma_pieces_single(orig, add, np);
    lemma_recorded_push(ps, seq![c1], c2);
    assert(seq![c1].push(c2) =~= seq![c1, c2]);
    assert(pieces_ok(orig, add, seq![np]));
    lemma_replace_facts(orig, add, ps, k, k + 1, seq![np]);
}

/// The text of `ps` cut inside the piece `idx`, `rel` bytes into it.
#[verifier::spinoff_prover]
proof fn lemma_split_text(o: Seq<u8>, a2: Seq<u8>, ps: Seq<Piece>, idx: int, rel: int, lead: Piece, trailing: Piece)
    requires
        0 <= idx < ps.len(),
        pieces_ok(o, a2, ps),
        0 < rel < ps[idx].length,
        lead.source == ps[idx].source,
        lead.offset == ps[idx].offset,
        lead.length == rel,
        trailing.source == ps[idx].source,
        trailing.offset == ps[idx].offset + rel,
        trailing.length == ps[idx].length - rel,
    ensures
        ({
            let t = pieces_text(o, a2, ps);
            let pl = pieces_len(ps.subrange(0, idx)) as int;
            &&& pl + rel <= pieces_len(ps)
            &&& seg(o, a2, lead) =~= t.subrange(pl, pl + rel)
            &&& seg(o, a2, trailing) + pieces_text(o, a2, ps.subrange(idx + 1, ps.len() as int))
                =~= t.subrange(pl + rel, pieces_len(ps) as int)
            &&& t =~= pieces_text(o, a2, ps.subrange(0, idx)) + t.subrange(pl, pl + rel) + t.subrange(
                pl + rel,
                pieces_len(ps) as int,
            )
        }),
{
    let t = pieces_text(o, a2, ps);
    let pl = pieces_len(ps.subrange(0, idx)) as int;
    let len = ps[idx].length as int;
    assert(piece_ok(o, a2, ps[idx]));
    lemma_pieces_split3(o, a2, ps, idx);
    assert(pieces_ok(o, a2, ps.subrange(0, idx)));
    assert(pieces_ok(o, a2, ps.subrange(idx + 1, ps.len() as int)));
    lemma_pieces_text_len(o, a2, ps.subrange(0, idx));
    lemma_pieces_text_len(o, a2, ps.subrange(idx + 1, ps.len() as int));
    let pre = pieces_text(o, a2, ps.subrange(0, idx));
    let sg = seg(o, a2, ps[idx]);
    let post = pieces_text(o, a2, ps.subrange(idx + 1, ps.len() as int));
    assert(sg.len() == len);
    assert(seg(o, a2, lead) =~= sg.subrange(0, rel));
    assert(seg(o, a2, trailing) =~= sg.subrange(rel, len));
    assert(t =~= pre + sg + post);
    assert(t.subrange(pl, pl + rel) =~= sg.subrange(0, rel));
    assert(t.subrange(pl + rel, pieces_len(ps) as int) =~= sg.subrange(rel, len) + post);
}

/// Splitting the piece at `idx` into `lead` and `trailing` around a new piece,
/// recorded as a deletion and three insertions.
#[verifier::rlimit(100)]
#[verifier::spinoff_prover]
pub proof fn lemma_split_piece(
    orig: Seq<u8>,
    add: Seq<u8>,
    ps: Seq<Piece>,
    idx: int,
    lead: Piece,
    piece: Piece,
    trailing: Piece,
)
    requires
        0 <= idx < ps.len(),
        idx + 2 <= usize::MAX,
        pieces_ok(orig, add, ps),
        piece_ok(orig, add, piece),
        lead.source == ps[idx].source,
        trailing.source == ps[idx].source,
        lead.offset == ps[idx].offset,
        trailing.offset == lead.offset + lead.length,
        lead.length + trailing.length == ps[idx].length,
        lead.length > 0,
        trailing.length > 0,
        pieces_len(ps) + piece.length <= usize::MAX,
    ensures
        ({
            let c1 = Change { pos: idx as usize, piece: ps[idx], kind: Kind::Deletion };
            let c2 = Change { pos: idx as usize, piece: lead, kind: Kind::Insertion };
            let c3 = Change { pos: (idx + 1) as usize, piece, kind: Kind::Insertion };
            let c4 = Change { pos: (idx + 2) as usize, piece: trailing, kind: Kind::Insertion };
            let new = ps.update(idx, lead).insert(idx + 1, piece).insert(idx + 2, trailing);
            &&& recorded(ps, seq![c1, c2, c3, c4])
            &&& replay(ps, seq![c1, c2, c3, c4]) == new
            &&& pieces_ok(orig, add, new)
            &&& pieces_len(new) == pieces_len(ps) + piece.length
            &&& pieces_text(orig, add, new) =~= pieces_text(orig, add, ps.subrange(0, idx)) + seg(
                orig,
                add,
                lead,
            ) + seg(orig, add, piece) + seg(orig, add, trailing) + pieces_text(
                orig,
                add,
                ps.subrange(idx + 1, ps.len() as int),
            )
            &&& pieces_text(orig, add, ps) =~= pieces_text(orig, add, ps.subrange(0, idx)) + seg(
                orig,
                add,
                lead,
            ) + seg(orig, add, trailing) + pieces_text(
                orig,
                add,
                ps.subrange(idx + 1, ps.len() as int),
            )
            &&& seg(orig, add, lead).len() == lead.length
        }),
{
    let old = ps[idx];
    let c1 = Change { pos: idx as usize, piece: old, kind: Kind::Deletion };
    let c2 = Change { pos: idx as usize, piece: lead, kind: Kind::Insertion };
    let c3 = Change { pos: (idx + 1) as usize, piece, kind: Kind::Insertion };
    let c4 = Change { pos: (idx + 2) as usize, piece: trailing, kind: Kind::Insertion };
    let pre = ps.subrange(0, idx);
    let post = ps.subrange(idx + 1, ps.len() as int);
    assert(piece_ok(orig, add, old));
    lemma_replace_piece(orig, add, ps, idx, lead);
    let s2 = ps.update(idx, lead);
    assert(s2 =~= pre + seq![lead] + post);
    lemma_pieces_split3(orig, add, ps, idx);
    let s3 = s2.insert(idx + 1, piece);
    assert(s3 =~= pre + seq![lead, piece] + post);
    lemma_text_replace(orig, add, ps, idx, idx + 1, seq![lead, piece]);
    let mid2 = seq![lead, piece];
    assert(mid2 =~= seq![lead] + seq![piece]);
    lemma_pieces_len_concat(seq![lead], seq![piece]);
    lemma_pieces_single(orig, add, lead);
    lemma_pieces_single(orig, add, piece);
    lemma_pieces_single(orig, add, trailing);
    lemma_recorded_push(ps, seq![c1, c2], c3);
    assert(seq![c1, c2].push(c3) =~= seq![c1, c2, c3]);
    let s4 = s3.insert(idx + 2, trailing);
    let mid = seq![lead, piece, trailing];
    assert(s4 =~= pre + mid + post);
    lemma_text_replace(orig, add, ps, idx, idx + 1, mid);
    assert(mid =~= mid2 + seq![trailing]);
    lemma_pieces_text_concat(orig, add, mid2, seq![trailing]);
    lemma_pieces_text_concat(orig, add, seq![lead], seq![piece]);
    lemma_pieces_len_concat(mid2, seq![trailing]);
    lemma_recorded_push(ps, seq![c1, c2, c3], c4);
    assert(seq![c1, c2, c3].push(c4) =~= seq![c1, c2, c3, c4]);
    lemma_pieces_single(orig, add, old);
    assert(seg(orig, add, old) =~= seg(orig, add, lead) + seg(orig, add, trailing));
    assert(piece_ok(orig, add, lead));
    assert(piece_ok(orig, add, trailing));
    assert(pieces_ok(orig, add, mid));
    lemma_replace_facts(orig, add, ps, idx, idx + 1, mid);
    lemma_pieces_split3(orig, add, ps, idx);
}

/// The byte at which line `n` of `t` begins: past the last line, the end.
pub open spec fn line_start(t: Seq<u8>, n: int) -> int {
    if 0 <= n < line_starts(t).len() {
        line_starts(t)[n]
    } else {
        t.len() as int
    }
}

/// The byte at which line `n` of `t` ends and the next one begins.
pub open spec fn line_end(t: Seq<u8>, n: int) -> int {
    if 0 <= n && n + 1 < line_starts(t).len() {
        line_starts(t)[n + 1]
    } else {
        t.len() as int
    }
}

/// Where a line ends, the next one begins.
pub proof fn lemma_line_end_is_next_start(t: Seq<u8>, n: nat)
    ensures
        line_end(t, n as int) == line_start(t, (n + 1) as int),
{
}

/// `t` with `s` put in at byte `pos`.
pub open spec fn spliced_in(t: Seq<u8>, pos: int, s: Seq<u8>) -> Seq<u8> {
    t.subrange(0, pos) + s + t.subrange(pos, t.len() as int)
}

/// `t` without its `n` bytes from `pos` on.
pub open spec fn cut_out(t: Seq<u8>, pos: int, n: int) -> Seq<u8> {
    t.subrange(0, pos) + t.subrange(pos + n, t.len() as int)
}

/// Removing what was just inserted, at the same place, gives the text back.
pub proof fn lemma_remove_undoes_insert(t: Seq<u8>, pos: int, s: Seq<u8>)
    requires
        0 <= pos <= t.len(),
    ensures
        cut_out(spliced_in(t, pos, s), pos, s.len() as int) == t,
{
    let u = spliced_in(t, pos, s);
    assert(u.subrange(0, pos) =~= t.subrange(0, pos));
    assert(u.subrange(pos + s.len(), u.len() as int) =~= t.subrange(pos, t.len() as int));
    assert(cut_out(u, pos, s.len() as int) =~= t);
}

/// Inserting adds the newlines of the inserted bytes.
pub proof fn lemma_insert_newlines(t: Seq<u8>, pos: int, s: Seq<u8>)
    requires
        0 <= pos <= t.len(),
    ensures
        newlines(spliced_in(t, pos, s)) == newlines(t) + newlines(s),
{
    let a = t.subrange(0, pos);
    let b = t.subrange(pos, t.len() as int);
    assert(t =~= a + b);
    lemma_newlines_concat(a, b);
    lemma_newlines_concat(a, s);
    lemma_newlines_concat(a + s, b);
}

/// Removing takes away the newlines of the removed bytes.
pub proof fn lemma_remove_newlines(t: Seq<u8>, pos: int, n: int)
    requires
        0 <= pos,
        0 <= n,
        pos + n <= t.len(),
    ensures
        newlines(cut_out(t, pos, n)) == newlines(t) - newlines(t.subrange(pos, pos + n)),
{
    let a = t.subrange(0, pos);
    let m = t.subrange(pos, pos + n);
    let b = t.subrange(pos + n, t.len() as int);
    assert(t =~= a + m + b);
    lemma_newlines_concat(a, m);
    lemma_newlines_concat(a + m, b);
    lemma_newlines_concat(a, b);
}

/// The bytes `lower..upper` of `t`, cut to the length of `t`.
pub open spec fn clamped(t: Seq<u8>, lower: int, upper: int) -> Seq<u8> {
    let l = if lower < t.len() { lower } else { t.len() as int };
    let u = if upper < t.len() { upper } else { t.len() as int };
    t.subrange(l, u)
}

/// What a removal does to one piece.
#[derive(Clone, Copy)]
enum Remove {
    /// The piece loses its last `length` bytes.
    End { index: usize, length: usize },
    /// The whole piece goes.
    Full { index: usize },
    /// The piece loses its first `length` bytes.
    Start { index: usize, length: usize },
    /// The removed bytes lie inside the piece, from `offset` on.
    Slice { index: usize, offset: usize },
}

spec fn rm_index(r: Remove) -> int {
    match r {
        Remove::End { index, .. } => index as int,
        Remove::Full { index } => index as int,
        Remove::Start { index, .. } => index as int,
        Remove::Slice { index, .. } => index as int,
    }
}

/// The removal `r` is what removing `pos..end` does to its piece.
spec fn rm_ok(ps: Seq<Piece>, pos: int, end: int, r: Remove) -> bool {
    let i = rm_index(r);
    let p = pieces_len(ps.subrange(0, i)) as int;
    let l = p + ps[i].length;
    &&& 0 <= i < ps.len()
    &&& match r {
        Remove::End { length, .. } => p < pos < l <= end && length == l - pos,
        Remove::Full { .. } => pos <= p && l <= end,
        Remove::Start { length, .. } => pos <= p < end < l && length == end - p,
        Remove::Slice { offset, .. } => p < pos && end < l && offset == pos - p,
    }
}

spec fn rm_inner(r: Remove) -> bool {
    r is Full || r is Start
}

/// The text of the pieces from `g` on once `pos..end` is removed from them.
spec fn rm_tail(t: Seq<u8>, pg: int, pos: int, end: int) -> Seq<u8> {
    let a = if pg > pos { pg } else { pos };
    let b = if pg > end { pg } else { end };
    t.subrange(pg, a) + t.subrange(b, t.len() as int)
}

impl PieceTable {
    /// The text stored in the piece table, as bytes.
    pub closed spec fn text(&self) -> Seq<u8> {
        pieces_text(self.original@, self.addition@, self.pieces@)
    }

    /// The number of bytes of the buffer that edits append to.
    pub closed spec fn buffer_len(&self) -> nat {
        self.addition@.len()
    }

    /// The edit history.
    pub closed spec fn hist(&self) -> History {
        self.history
    }

    /// Whether a transaction is open.
    pub closed spec fn in_commit(&self) -> bool {
        self.active_commit.is_some()
    }

    /// The changes recorded by the open transaction.
    pub closed spec fn active_changes(&self) -> Seq<Change> {
        match self.active_commit {
            Some(c) => c.changes@,
            None => Seq::empty(),
        }
    }

    /// Every edit made since the open transaction started is recorded in it
    /// (no undo or redo happened inside it).
    pub closed spec fn commit_faithful(&self) -> bool {
        self.active_faithful@
    }

    /// The commit of history entry `e` records every edit made while it was
    /// open.
    pub closed spec fn faithful(&self, e: int) -> bool {
        self.faithful@[e]
    }

    /// The text as it was when the open transaction started.
    pub closed spec fn commit_base_text(&self) -> Seq<u8> {
        pieces_text(self.original@, self.addition@, self.active_before@)
    }

    /// The text as it was before the commit of history entry `e` was made.
    pub closed spec fn entry_before_text(&self, e: int) -> Seq<u8> {
        pieces_text(self.original@, self.addition@, self.befores@[e])
    }

    /// The text as it was after the commit of history entry `e` was made.
    pub closed spec fn entry_after_text(&self, e: int) -> Seq<u8> {
        pieces_text(self.original@, self.addition@, self.afters@[e])
    }

    /// The piece list is the one the head entry's commit left behind: no edit
    /// happened since that commit ended or was redone.
    pub closed spec fn at_head(&self) -> bool {
        self.pieces@ == self.afters@[self.history.head()]
    }

    /// The piece list is the one the commit of entry `e` started from.
    pub closed spec fn at_before(&self, e: int) -> bool {
        self.pieces@ == self.befores@[e]
    }

    /// Entry `e` was committed right on top of the state of its parent.
    pub closed spec fn linked(&self, e: int) -> bool {
        match self.history.entries()[e].previous {
            Some(p) => self.befores@[e] == self.afters@[p as int],
            None => true,
        }
    }

    /// Reverting the head's commit from the current pieces neither leaves the
    /// piece list nor overflows the length.
    pub closed spec fn undo_applicable(&self) -> bool {
        let h = self.history.head();
        self.history.entries()[h].previous.is_some() ==> crate::history::undo_ok(
            self.pieces@,
            self.history.entries()[h].commit.changes@,
        )
    }

    /// Replaying the hot path child's commit from the current pieces neither
    /// leaves the piece list nor overflows the length.
    pub closed spec fn redo_applicable(&self) -> bool {
        let h = self.history.head();
        match self.history.entries()[h].hot_path {
            Some(n) => crate::history::redo_ok(
                self.pieces@,
                self.history.entries()[n as int].commit.changes@,
            ),
            None => true,
        }
    }

    /// The history of a new table: one root entry, the head, with no parent,
    /// no hot path and a faithful empty commit; undo and redo both apply.
    pub open spec fn new_history(&self) -> bool {
        &&& self.hist().entries().len() == 1
        &&& self.hist().head() == 0
        &&& self.hist().entries()[0].previous.is_none()
        &&& self.hist().entries()[0].hot_path.is_none()
        &&& self.faithful(0)
        &&& self.undo_applicable()
        &&& self.redo_applicable()
    }

    /// The text once the head's commit is reverted change by change, from the
    /// last to the first, on the current pieces.
    pub closed spec fn reverted_text(&self) -> Seq<u8> {
        pieces_text(
            self.original@,
            self.addition@,
            crate::history::unreplay(
                self.pieces@,
                self.history.entries()[self.history.head()].commit.changes@,
            ),
        )
    }

    /// The text once the commit of the head's hot path child is replayed, in
    /// order, on the current pieces; with no hot path, the text.
    pub closed spec fn replayed_text(&self) -> Seq<u8> {
        match self.history.entries()[self.history.head()].hot_path {
            Some(n) => pieces_text(
                self.original@,
                self.addition@,
                crate::history::replay(self.pieces@, self.history.entries()[n as int].commit.changes@),
            ),
            None => self.text(),
        }
    }

    spec fn entry_ok(&self, e: int) -> bool {
        let o = self.original@;
        let a = self.addition@;
        let cs = self.history.entries()[e].commit.changes@;
        &&& pieces_ok(o, a, self.befores@[e])
        &&& pieces_ok(o, a, self.afters@[e])
        &&& changes_ok(o, a, cs)
        &&& (self.faithful@[e] ==> recorded(self.befores@[e], cs) && replay(self.befores@[e], cs)
            == self.afters@[e])
    }

    /// The internal invariant of the table.
    pub closed spec fn wf(&self) -> bool {
        let o = self.original@;
        let a = self.addition@;
        let ps = self.pieces@;
        let es = self.history.entries();
        &&& self.history.wf()
        &&& pieces_ok(o, a, ps)
        &&& self.total_length == pieces_len(ps)
        &&& o.len() <= usize::MAX
        &&& a.len() <= usize::MAX
        &&& same_offsets(self.lines@, line_starts(self.text()))
        &&& self.befores@.len() == es.len()
        &&& self.afters@.len() == es.len()
        &&& self.faithful@.len() == es.len()
        &&& forall|e: int| 0 <= e < es.len() ==> #[trigger] self.entry_ok(e)
        &&& pieces_ok(o, a, self.active_before@)
        &&& match self.active_commit {
            None => true,
            Some(c) => {
                &&& changes_ok(o, a, c.changes@)
                &&& (self.active_faithful@ ==> recorded(self.active_before@, c.changes@) && replay(
                    self.active_before@,
                    c.changes@,
                ) == ps)
            },
        }
    }

    /// Creates a piece table holding `str`.
    pub fn from_str(str: &str) -> (t: Self)
        ensures
            t.wf(),
            t.text() == str.spec_bytes(),
            t.buffer_len() == 0,
            t.new_history(),
            !t.in_commit(),
            t.at_head(),
            t.hist().head() == 0,
            t.hist().entries().len() == 1,
    {
        let bytes = str.as_bytes();
        let original = vstd::slice::slice_to_vec(bytes);
        Self::from_bytes(original)
    }

    /// Creates a piece table holding `str`.
    pub fn from_string(str: String) -> (t: Self)
        ensures
            t.wf(),
            t.text() == vstd::utf8::encode_utf8(str@),
            t.buffer_len() == 0,
            t.new_history(),
            !t.in_commit(),
            t.at_head(),
            t.hist().head() == 0,
            t.hist().entries().len() == 1,
    {
        Self::from_str(str.as_str())
    }

    fn from_bytes(original: Vec<u8>) -> (t: Self)
        ensures
            t.wf(),
            t.text() == original@,
            t.buffer_len() == 0,
            t.new_history(),
            !t.in_commit(),
            t.at_head(),
            t.hist().head() == 0,
            t.hist().entries().len() == 1,
    {
        let mut lines: Vec<usize> = Vec::new();
        lines.push(0);
        let mut rest = newline_offsets(original.as_slice(), 0);
        lines.append(&mut rest);
        let len = original.len();
        let mut pieces: Vec<Piece> = Vec::new();
        if len != 0 {
            pieces.push(Piece::new(Source::Original, 0, len));
        }
        let ghost ps = pieces@;
        let ghost bs: Seq<Seq<Piece>> = seq![ps];
        let ghost fs: Seq<bool> = seq![true];
        let t = Self {
            original,
            addition: Vec::new(),
            pieces,
            lines,
            total_length: len,
            history: History::new(Commit::new()),
            active_commit: None,
            befores: Ghost(bs),
            afters: Ghost(bs),
            active_before: Ghost(ps),
            faithful: Ghost(fs),
            active_faithful: Ghost(true),
        };
        proof {
            let o = t.original@;
            let a = t.addition@;
            if len != 0 {
                lemma_pieces_single(o, a, ps[0]);
                assert(ps =~= seq![ps[0]]);
                assert(seg(o, a, ps[0]) =~= o);
                assert(piece_ok(o, a, ps[0]));
            } else {
                assert(ps =~= Seq::<Piece>::empty());
                assert(o =~= Seq::<u8>::empty());
            }
            assert(t.text() =~= o);
            lemma_line_starts_basic(o);
            assert(line_starts(o) =~= seq![0int] + (line_starts(o).subrange(1, line_starts(o).len() as int)));
            assert(same_offsets(t.lines@, line_starts(t.text())));
            lemma_recorded_empty(ps);
            assert(t.history.entries()[0].commit.changes@ =~= Seq::<Change>::empty());
            assert(t.entry_ok(0));
        }
        t
    }

    /// Starts a new commit transaction.
    pub fn start_commit(&mut self)
        requires
            old(self).wf(),
        ensures
            final(self).wf(),
            final(self).text() == old(self).text(),
            final(self).buffer_len() == old(self).buffer_len(),
            final(self).in_commit(),
            final(self).hist() == old(self).hist(),
            !old(self).in_commit() ==> final(self).active_changes().len() == 0
                && final(self).commit_base_text() == old(self).text(),
            old(self).in_commit() ==> final(self).active_changes() == old(self).active_changes()
                && final(self).commit_base_text() == old(self).commit_base_text()
                && (final(self).at_before_commit_at_head() == old(self).at_before_commit_at_head()),
            !old(self).in_commit() ==> (final(self).at_before_commit_at_head() == old(self).at_head())
                && final(self).commit_faithful(),
            old(self).in_commit() ==> final(self).commit_faithful() == old(self).commit_faithful(),
            forall|e: int| 0 <= e < old(self).hist().entries().len() ==>
                #[trigger] final(self).faithful(e) == old(self).faithful(e),
            forall|e: int| 0 <= e < old(self).hist().entries().len() ==>
                final(self).entry_before_text(e) == old(self).entry_before_text(e)
                && final(self).entry_after_text(e) == old(self).entry_after_text(e)
                && (final(self).linked(e) <==> old(self).linked(e)),
            final(self).at_head() == old(self).at_head(),
            final(self).undo_applicable() == old(self).undo_applicable(),
            final(self).redo_applicable() == old(self).redo_applicable(),
    {
        if self.active_commit.is_none() {
            self.active_commit = Some(Commit::new());
            self.active_before = Ghost(self.pieces@);
            self.active_faithful = Ghost(true);
            proof {
                lemma_recorded_empty(self.pieces@);
                assert forall|e: int| 0 <= e < self.history.entries().len() implies #[trigger] self.entry_ok(e) by {
                    assert(old(self).entry_ok(e));
                }
            }
        }
    }

    /// What `end_commit` does: an open transaction with changes becomes the new head entry, recorded as the text it started from and the text it ended with.
    pub open spec fn end_commit_post(self, new: Self) -> bool {
        &&& new.text() == self.text()
        &&& new.buffer_len() == self.buffer_len()
        &&& !new.in_commit()
        &&& (!(self.in_commit() && self.active_changes().len() > 0
            && self.hist().entries().len() < usize::MAX) ==> new.hist()
            == self.hist() && new.undo_applicable() == self.undo_applicable()
            && new.redo_applicable() == self.redo_applicable())
        &&& (self.in_commit() && self.active_changes().len() > 0
            && self.hist().entries().len() < usize::MAX ==> {
            let h = new.hist().head();
            &&& new.hist().entries().len() == self.hist().entries().len() + 1
            &&& h == self.hist().entries().len()
            &&& new.hist().entries()[h].previous == Some(self.hist().head() as usize)
            &&& new.hist().entries()[h].commit.changes@ == self.active_changes()
            &&& new.entry_before_text(h) == self.commit_base_text()
            &&& new.entry_after_text(h) == new.text()
            &&& new.at_head()
            &&& new.faithful(h) == self.commit_faithful()
            &&& (self.at_before_commit_at_head() ==> new.linked(h))
            &&& new.hist().entries()[h].hot_path.is_none()
            &&& new.redo_applicable()
            &&& (self.commit_faithful() ==> new.undo_applicable())
        })
        &&& (self.in_commit() && self.commit_faithful() && self.active_changes().len() == 0
            && self.at_before_commit_at_head() && (self.faithful(self.hist().head())
            || self.hist().entries()[self.hist().head()].previous.is_none()) ==> new.at_head()
            && new.undo_applicable())
        &&& (forall|e: int| 0 <= e < self.hist().entries().len() ==>
            #[trigger] new.faithful(e) == self.faithful(e))
        &&& (forall|e: int|
            #![trigger new.entry_before_text(e)]
            #![trigger new.entry_after_text(e)]
            #![trigger new.linked(e)]
            #![trigger new.hist().entries()[e]]
            0 <= e < self.hist().entries().len() ==> new.entry_before_text(e)
                == self.entry_before_text(e) && new.entry_after_text(e) == self.entry_after_text(e)
                && (new.linked(e) <==> self.linked(e))
                && new.hist().entries()[e].previous == self.hist().entries()[e].previous
                && new.hist().entries()[e].commit == self.hist().entries()[e].commit
                && new.hist().entries()[e].hot_path == self.hist().entries()[e].hot_path)
    }

    /// Ends the current commit transaction.
    ///
    /// A non-empty transaction becomes a new child of the head entry and the new
    /// head. A history holding `usize::MAX` entries takes no more.
    pub fn end_commit(&mut self)
        requires
            old(self).wf(),
        ensures
            final(self).wf(),
            old(self).end_commit_post(*final(self)),
    {
        let commit = self.active_commit.take();
        match commit {
            Some(commit) => {
                if commit.changes.len() != 0 && self.history.len() < usize::MAX {
                    let ghost cs = commit.changes@;
                    self.history.save(commit);
                    self.befores = Ghost(self.befores@.push(self.active_before@));
                    self.afters = Ghost(self.afters@.push(self.pieces@));
                    self.faithful = Ghost(self.faithful@.push(self.active_faithful@));
                    proof {
                        let n = self.history.entries().len() - 1;
                        assert(self.history.entries()[n].commit.changes@ == cs);
                        if self.active_faithful@ {
                            lemma_unreplay_replay(self.active_before@, cs);
                        }
                        assert forall|e: int| 0 <= e < self.history.entries().len() implies #[trigger] self.entry_ok(e) by {
                            if e < n {
                                assert(old(self).entry_ok(e));
                            }
                        }
                    }
                }
            },
            None => {},
        }
        proof {
            assert forall|e: int| 0 <= e < self.history.entries().len() implies #[trigger] self.entry_ok(e) by {
                if e < old(self).history.entries().len() {
                    assert(old(self).entry_ok(e));
                }
            }
            if old(self).in_commit() && old(self).commit_faithful() && old(self).active_changes().len() == 0
                && old(self).at_before_commit_at_head() && (old(self).faithful(old(self).hist().head())
                || old(self).hist().entries()[old(self).hist().head()].previous.is_none()) {
                let c = old(self).active_commit.unwrap().changes@;
                assert(c =~= Seq::<Change>::empty());
                assert(replay(old(self).active_before@, c) == old(self).active_before@);
                assert(self.at_head());
                assert(self.wf());
                lemma_undo_applicable(*self);
            }
        }
    }

    /// Whether the open transaction started at the state the head's commit
    /// left behind.
    pub closed spec fn at_before_commit_at_head(&self) -> bool {
        self.active_before@ == self.afters@[self.history.head()]
    }

    /// The commit, the ghost states and everything but the piece list, the
    /// length, the lines and the addition buffer are as in `old`, which the
    /// new addition buffer extends.
    spec fn edit_frame(&self, old: &Self) -> bool {
        &&& self.original@ == old.original@
        &&& self.history == old.history
        &&& self.befores == old.befores
        &&& self.afters == old.afters
        &&& self.active_before == old.active_before
        &&& self.faithful == old.faithful
        &&& self.active_faithful == old.active_faithful
        &&& old.addition@.len() <= self.addition@.len()
        &&& self.addition@.subrange(0, old.addition@.len() as int) == old.addition@
    }

    /// Appends the changes of an edit to the open transaction, if any.
    fn record(&mut self, changes: Vec<Change>, Ghost(ps0): Ghost<Seq<Piece>>)
        requires
            old(self).active_commit.is_some() ==> {
                let c = old(self).active_commit.unwrap().changes@;
                &&& (old(self).active_faithful@ ==> recorded(old(self).active_before@, c) && replay(
                    old(self).active_before@,
                    c,
                ) == ps0)
                &&& changes_ok(old(self).original@, old(self).addition@, c)
            },
            recorded(ps0, changes@),
            replay(ps0, changes@) == old(self).pieces@,
            changes_ok(old(self).original@, old(self).addition@, changes@),
        ensures
            final(self).original == old(self).original,
            final(self).addition == old(self).addition,
            final(self).pieces == old(self).pieces,
            final(self).lines == old(self).lines,
            final(self).total_length == old(self).total_length,
            final(self).history == old(self).history,
            final(self).befores == old(self).befores,
            final(self).afters == old(self).afters,
            final(self).active_before == old(self).active_before,
            final(self).faithful == old(self).faithful,
            final(self).active_faithful == old(self).active_faithful,
            final(self).active_commit.is_some() == old(self).active_commit.is_some(),
            final(self).active_commit.is_some() ==> {
                let c = final(self).active_commit.unwrap().changes@;
                &&& c == old(self).active_commit.unwrap().changes@ + changes@
                &&& (final(self).active_faithful@ ==> recorded(final(self).active_before@, c)
                    && replay(final(self).active_before@, c) == final(self).pieces@)
                &&& changes_ok(final(self).original@, final(self).addition@, c)
            },
    {
        match self.active_commit.take() {
            Some(mut commit) => {
                let ghost c0 = commit.changes@;
                let mut i: usize = 0;
                while i < changes.len()
                    invariant
                        i <= changes.len(),
                        commit.changes@ == c0 + changes@.subrange(0, i as int),
                    decreases changes.len() - i,
                {
                    let c = changes[i];
                    commit.add_change(c.pos, c.piece, c.kind);
                    proof {
                        assert(changes@.subrange(0, i + 1) =~= changes@.subrange(0, i as int).push(c));
                        assert(c0 + changes@.subrange(0, i + 1) =~= (c0 + changes@.subrange(0, i as int)).push(c));
                    }
                    i = i + 1;
                }
                proof {
                    assert(changes@.subrange(0, changes.len() as int) =~= changes@);
                    if self.active_faithful@ {
                        lemma_recorded_concat(self.active_before@, c0, changes@);
                    }
                    let all = commit.changes@;
                    assert forall|k: int| 0 <= k < all.len() implies #[trigger] piece_ok(self.original@, self.addition@, all[k].piece) by {
                        if k < c0.len() {
                            assert(piece_ok(self.original@, self.addition@, c0[k].piece));
                        } else {
                            assert(piece_ok(self.original@, self.addition@, changes@[k - c0.len()].piece));
                        }
                    }
                }
                self.active_commit = Some(commit);
            },
            None => {},
        }
    }

    /// After an edit: the addition buffer grew, so every recorded state keeps
    /// its text and validity.
    proof fn lemma_edit_keeps_history(&self, old: &Self)
        requires
            old.wf(),
            self.edit_frame(old),
        ensures
            forall|e: int| 0 <= e < self.history.entries().len() ==> #[trigger] self.entry_ok(e),
            forall|e: int| 0 <= e < self.history.entries().len() ==> #[trigger] self.entry_before_text(e)
                == old.entry_before_text(e),
            forall|e: int| 0 <= e < self.history.entries().len() ==> #[trigger] self.entry_after_text(e)
                == old.entry_after_text(e),
            pieces_ok(self.original@, self.addition@, self.active_before@),
            self.commit_base_text() == old.commit_base_text(),
    {
        let o = self.original@;
        let a = old.addition@;
        let a2 = self.addition@;
        assert forall|e: int| 0 <= e < self.history.entries().len() implies #[trigger] self.entry_ok(e) by {
            assert(old.entry_ok(e));
            lemma_pieces_text_grow(o, a, a2, self.befores@[e]);
            lemma_pieces_text_grow(o, a, a2, self.afters@[e]);
            let cs = self.history.entries()[e].commit.changes@;
            assert forall|k: int| 0 <= k < cs.len() implies #[trigger] piece_ok(o, a2, cs[k].piece) by {
                assert(piece_ok(o, a, cs[k].piece));
            }
        }
        assert forall|e: int| 0 <= e < self.history.entries().len() implies #[trigger] self.entry_before_text(e)
            == old.entry_before_text(e) by {
            assert(old.entry_ok(e));
            lemma_pieces_text_grow(o, a, a2, self.befores@[e]);
        }
        assert forall|e: int| 0 <= e < self.history.entries().len() implies #[trigger] self.entry_after_text(e)
            == old.entry_after_text(e) by {
            assert(old.entry_ok(e));
            lemma_pieces_text_grow(o, a, a2, self.afters@[e]);
        }
        lemma_pieces_text_grow(o, a, a2, self.active_before@);
    }


    /// Grows the piece `k`, which ends at the end of the addition buffer, by
    /// the `slen` bytes about to be appended there.
    fn extend_piece(pieces: &mut Vec<Piece>, Ghost(o): Ghost<Seq<u8>>, Ghost(a): Ghost<Seq<u8>>, k: usize, slen: usize, Ghost(a2): Ghost<Seq<u8>>, Ghost(bytes): Ghost<Seq<u8>>) -> (changes: Vec<Change>)
        requires
            k < old(pieces)@.len(),
            pieces_ok(o, a, old(pieces)@),
            pieces_len(old(pieces)@) + slen <= usize::MAX,
            a2 == a + bytes,
            bytes.len() == slen,
            old(pieces)@[k as int].source == Source::Addition,
            old(pieces)@[k as int].offset + old(pieces)@[k as int].length == a.len(),
        ensures
            ({
                let ps = old(pieces)@;
                let new = final(pieces)@;
                &&& recorded(ps, changes@)
                &&& replay(ps, changes@) == new
                &&& changes_ok(o, a2, changes@)
                &&& pieces_ok(o, a2, new)
                &&& pieces_len(new) == pieces_len(ps) + slen
                &&& pieces_text(o, a2, new) =~= pieces_text(o, a2, ps.subrange(0, k as int))
                    + seg(o, a2, ps[k as int]) + bytes
                    + pieces_text(o, a2, ps.subrange(k + 1, ps.len() as int))
            }),
    {
        let ghost ps = pieces@;
        proof {
            assert(a2.subrange(0, a.len() as int) =~= a);
            lemma_pieces_text_grow(o, a, a2, ps);
            assert(piece_ok(o, a, ps[k as int]));
            lemma_pieces_split3(o, a, ps, k as int);
        }
        let piece = pieces[k];
        let np = Piece::new(piece.source, piece.offset, piece.length + slen);
        pieces.set(k, np);
        let mut changes: Vec<Change> = Vec::new();
        changes.push(Change::new(k, piece, Kind::Deletion));
        changes.push(Change::new(k, np, Kind::Insertion));
        proof {
            assert(piece_ok(o, a2, np));
            lemma_replace_piece(o, a2, ps, k as int, np);
            let c1 = Change { pos: k, piece, kind: Kind::Deletion };
            let c2 = Change { pos: k, piece: np, kind: Kind::Insertion };
            assert(changes@ =~= seq![c1, c2]);
            assert(seg(o, a2, np) =~= seg(o, a2, piece) + bytes);
            assert(piece_ok(o, a2, piece));
        }
        changes
    }

    /// Splits the piece `idx` at `rel` and puts `piece` between the halves.
    #[verifier::rlimit(100)]
    #[verifier::spinoff_prover]
    fn split_piece(pieces: &mut Vec<Piece>, Ghost(o): Ghost<Seq<u8>>, Ghost(a): Ghost<Seq<u8>>, idx: usize, rel: usize, piece: Piece, Ghost(a2): Ghost<Seq<u8>>) -> (changes: Vec<Change>)
        requires
            idx < old(pieces)@.len(),
            0 < rel < old(pieces)@[idx as int].length,
            pieces_ok(o, a, old(pieces)@),
            pieces_len(old(pieces)@) + piece.length <= usize::MAX,
            o.len() <= usize::MAX,
            a.len() <= usize::MAX,
            a.len() <= a2.len(),
            a2.subrange(0, a.len() as int) == a,
            piece_ok(o, a2, piece),
        ensures
            ({
                let ps = old(pieces)@;
                let new = final(pieces)@;
                &&& recorded(ps, changes@)
                &&& replay(ps, changes@) == new
                &&& changes_ok(o, a2, changes@)
                &&& pieces_ok(o, a2, new)
                &&& pieces_len(new) == pieces_len(ps) + piece.length
                &&& pieces_text(o, a2, ps) =~= pieces_text(o, a2, ps.subrange(0, idx as int))
                    + pieces_text(o, a2, ps).subrange(pieces_len(ps.subrange(0, idx as int)) as int, pieces_len(ps.subrange(0, idx as int)) + rel)
                    + pieces_text(o, a2, ps).subrange(pieces_len(ps.subrange(0, idx as int)) + rel, pieces_len(ps) as int)
                &&& pieces_text(o, a2, new) =~= pieces_text(o, a2, ps.subrange(0, idx as int))
                    + pieces_text(o, a2, ps).subrange(pieces_len(ps.subrange(0, idx as int)) as int, pieces_len(ps.subrange(0, idx as int)) + rel)
                    + seg(o, a2, piece)
                    + pieces_text(o, a2, ps).subrange(pieces_len(ps.subrange(0, idx as int)) + rel, pieces_len(ps) as int)
            }),
    {
        let ghost ps = pieces@;
        proof {
            lemma_pieces_text_grow(o, a, a2, ps);
            assert(piece_ok(o, a, ps[idx as int]));
            assert(piece_ok(o, a2, ps[idx as int]));
            lemma_text_boundary(o, a2, ps, idx as int);
            lemma_text_boundary(o, a2, ps, idx + 1);
            lemma_pieces_len_prefix_step(ps, idx as int);
        }
        let old = pieces[idx];
        let trailing = Piece::new(old.source, old.offset + rel, old.length - rel);
        let lead = Piece::new(old.source, old.offset, rel);
        let n = pieces.len();
        pieces.set(idx, lead);
        let i1 = idx + 1;
        pieces.insert(i1, piece);
        assert(i1 < pieces.len());
        let i2 = i1 + 1;
        pieces.insert(i2, trailing);
        let mut changes: Vec<Change> = Vec::new();
        changes.push(Change::new(idx, old, Kind::Deletion));
        changes.push(Change::new(idx, lead, Kind::Insertion));
        changes.push(Change::new(i1, piece, Kind::Insertion));
        changes.push(Change::new(i2, trailing, Kind::Insertion));
        proof {
            lemma_split_piece(o, a2, ps, idx as int, lead, piece, trailing);
            let c1 = Change { pos: idx, piece: old, kind: Kind::Deletion };
            let c2 = Change { pos: idx, piece: lead, kind: Kind::Insertion };
            let c3 = Change { pos: i1, piece, kind: Kind::Insertion };
            let c4 = Change { pos: i2, piece: trailing, kind: Kind::Insertion };
            assert(changes@ =~= seq![c1, c2, c3, c4]);
            assert(pieces@ =~= ps.update(idx as int, lead).insert(idx + 1, piece).insert(idx + 2, trailing));
            lemma_split_text(o, a2, ps, idx as int, rel as int, lead, trailing);
            assert(piece_ok(o, a2, old));
            assert(changes_ok(o, a2, changes@));
        }
        changes
    }


    /// Removes the piece at `i`, recording the deletion.
    fn drop_piece(pieces: &mut Vec<Piece>, Ghost(o): Ghost<Seq<u8>>, Ghost(a): Ghost<Seq<u8>>, i: usize, changes: &mut Vec<Change>, Ghost(ps0): Ghost<Seq<Piece>>)
        requires
            i < old(pieces)@.len(),
            recorded(ps0, old(changes)@),
            replay(ps0, old(changes)@) == old(pieces)@,
            pieces_len(old(pieces)@) <= usize::MAX,
            pieces_ok(o, a, old(pieces)@),
            changes_ok(o, a, old(changes)@),
        ensures
            final(pieces)@ == old(pieces)@.remove(i as int),
            recorded(ps0, final(changes)@),
            replay(ps0, final(changes)@) == final(pieces)@,
            changes_ok(o, a, final(changes)@),
    {
        let ghost cur = pieces@;
        let removed = pieces.remove(i);
        let ghost c = Change { pos: i, piece: removed, kind: Kind::Deletion };
        proof {
            lemma_pieces_split3(o, a, cur, i as int);
            lemma_text_replace(o, a, cur, i as int, i + 1, Seq::<Piece>::empty());
            assert(cur.remove(i as int) =~= cur.subrange(0, i as int) + Seq::<Piece>::empty() + cur.subrange(i + 1, cur.len() as int));
            assert(pieces_len(Seq::<Piece>::empty()) == 0);
            lemma_recorded_push(ps0, changes@, c);
            assert(piece_ok(o, a, cur[i as int]));
        }
        changes.push(Change::new(i, removed, Kind::Deletion));
    }

    /// Puts `np`, no longer than the piece at `i`, in its place, recording a
    /// deletion and an insertion.
    fn swap_piece(pieces: &mut Vec<Piece>, Ghost(o): Ghost<Seq<u8>>, Ghost(a): Ghost<Seq<u8>>, i: usize, np: Piece, changes: &mut Vec<Change>, Ghost(ps0): Ghost<Seq<Piece>>)
        requires
            i < old(pieces)@.len(),
            recorded(ps0, old(changes)@),
            replay(ps0, old(changes)@) == old(pieces)@,
            pieces_len(old(pieces)@) <= usize::MAX,
            pieces_ok(o, a, old(pieces)@),
            changes_ok(o, a, old(changes)@),
            piece_ok(o, a, np),
            np.length <= old(pieces)@[i as int].length,
        ensures
            final(pieces)@ == old(pieces)@.update(i as int, np),
            recorded(ps0, final(changes)@),
            replay(ps0, final(changes)@) == final(pieces)@,
            changes_ok(o, a, final(changes)@),
    {
        let ghost cur = pieces@;
        let old_piece = pieces[i];
        pieces.set(i, np);
        proof {
            lemma_replace_piece(o, a, cur, i as int, np);
            let c1 = Change { pos: i, piece: old_piece, kind: Kind::Deletion };
            let c2 = Change { pos: i, piece: np, kind: Kind::Insertion };
            lemma_recorded_concat(ps0, changes@, seq![c1, c2]);
            assert(piece_ok(o, a, cur[i as int]));
        }
        changes.push(Change::new(i, old_piece, Kind::Deletion));
        changes.push(Change::new(i, np, Kind::Insertion));
        proof {
            let c1 = Change { pos: i, piece: old_piece, kind: Kind::Deletion };
            let c2 = Change { pos: i, piece: np, kind: Kind::Insertion };
            assert(changes@ =~= old(changes)@ + seq![c1, c2]);
        }
    }

    /// Puts `lead` and `trailing`, together no longer than the piece at `i`,
    /// in its place, recording a deletion and two insertions.
    fn cut_piece(pieces: &mut Vec<Piece>, Ghost(o): Ghost<Seq<u8>>, Ghost(a): Ghost<Seq<u8>>, i: usize, lead: Piece, trailing: Piece, changes: &mut Vec<Change>, Ghost(ps0): Ghost<Seq<Piece>>)
        requires
            i < old(pieces)@.len(),
            recorded(ps0, old(changes)@),
            replay(ps0, old(changes)@) == old(pieces)@,
            pieces_len(old(pieces)@) <= usize::MAX,
            pieces_ok(o, a, old(pieces)@),
            changes_ok(o, a, old(changes)@),
            piece_ok(o, a, lead),
            piece_ok(o, a, trailing),
            lead.length + trailing.length <= old(pieces)@[i as int].length,
        ensures
            final(pieces)@ == old(pieces)@.update(i as int, lead).insert(i + 1, trailing),
            recorded(ps0, final(changes)@),
            replay(ps0, final(changes)@) == final(pieces)@,
            changes_ok(o, a, final(changes)@),
    {
        let ghost cur = pieces@;
        let n = pieces.len();
        let old_piece = pieces[i];
        pieces.set(i, lead);
        pieces.insert(i + 1, trailing);
        proof {
            lemma_replace_piece(o, a, cur, i as int, lead);
            let c1 = Change { pos: i, piece: old_piece, kind: Kind::Deletion };
            let c2 = Change { pos: i, piece: lead, kind: Kind::Insertion };
            let c3 = Change { pos: (i + 1) as usize, piece: trailing, kind: Kind::Insertion };
            let pre = cur.subrange(0, i as int);
            let post = cur.subrange(i + 1, cur.len() as int);
            lemma_pieces_split3(o, a, cur, i as int);
            let mid = seq![lead, trailing];
            assert(cur.update(i as int, lead).insert(i + 1, trailing) =~= pre + mid + post);
            lemma_text_replace(o, a, cur, i as int, i + 1, mid);
            assert(mid =~= seq![lead] + seq![trailing]);
            lemma_pieces_len_concat(seq![lead], seq![trailing]);
            lemma_pieces_single(o, a, lead);
            lemma_pieces_single(o, a, trailing);
            lemma_recorded_push(cur, seq![c1, c2], c3);
            assert(seq![c1, c2].push(c3) =~= seq![c1, c2, c3]);
            lemma_recorded_concat(ps0, changes@, seq![c1, c2, c3]);
            assert(piece_ok(o, a, cur[i as int]));
        }
        changes.push(Change::new(i, old_piece, Kind::Deletion));
        changes.push(Change::new(i, lead, Kind::Insertion));
        changes.push(Change::new(i + 1, trailing, Kind::Insertion));
        proof {
            let c1 = Change { pos: i, piece: old_piece, kind: Kind::Deletion };
            let c2 = Change { pos: i, piece: lead, kind: Kind::Insertion };
            let c3 = Change { pos: (i + 1) as usize, piece: trailing, kind: Kind::Insertion };
            assert(changes@ =~= old(changes)@ + seq![c1, c2, c3]);
        }
    }

    /// Inserts `str` at `pos`.
    #[verifier::rlimit(100)]
    #[verifier::spinoff_prover]
    pub fn insert(&mut self, pos: usize, str: &str)
        requires
            old(self).wf(),
            pos <= old(self).text().len(),
            str@.len() > 0,
            old(self).text().len() + str.spec_bytes().len() <= usize::MAX,
            old(self).buffer_len() + str.spec_bytes().len() <= usize::MAX,
        ensures
            final(self).wf(),
            final(self).text() == spliced_in(old(self).text(), pos as int, str.spec_bytes()),
            final(self).buffer_len() == old(self).buffer_len() + str.spec_bytes().len(),
            final(self).in_commit() == old(self).in_commit(),
            final(self).in_commit() ==> final(self).active_changes().len() > 0,
            final(self).hist() == old(self).hist(),
            final(self).commit_base_text() == old(self).commit_base_text(),
            final(self).at_before_commit_at_head() == old(self).at_before_commit_at_head(),
            final(self).commit_faithful() == old(self).commit_faithful(),
            forall|e: int| 0 <= e < old(self).hist().entries().len() ==>
                #[trigger] final(self).faithful(e) == old(self).faithful(e),
            forall|e: int| 0 <= e < old(self).hist().entries().len() ==>
                final(self).entry_before_text(e) == old(self).entry_before_text(e)
                && final(self).entry_after_text(e) == old(self).entry_after_text(e)
                && (final(self).linked(e) <==> old(self).linked(e)),
    {
        let bytes = str.as_bytes();
        let slen = bytes.len();
        let ghost o = self.original@;
        let ghost a = self.addition@;
        let ghost a2 = a + bytes@;
        let ghost ps = self.pieces@;
        let ghost old_text = self.text();
        proof {
            assert(bytes@.len() > 0) by {
                assert(str@.len() > 0);
                assert(vstd::utf8::encode_scalar(str@[0] as u32).len() > 0);
            }
            lemma_pieces_text_len(o, a, ps);
            assert(a2.subrange(0, a.len() as int) =~= a);
            lemma_pieces_text_grow(o, a, a2, ps);
        }
        let update_pos = pos;
        let eof = pos == self.total_length;
        let mut idx: usize = 0;
        let mut rel: usize = pos;
        if eof {
            idx = self.pieces.len();
        } else if pos != 0 {
            let mut len: usize = 0;
            let mut jdx: usize = 0;
            let mut found = false;
            proof {
                assert(ps.subrange(0, 0) =~= Seq::<Piece>::empty());
            }
            while jdx < self.pieces.len() && !found
                invariant
                    self.pieces@ == ps,
                    self.total_length == pieces_len(ps),
                    pos < pieces_len(ps),
                    jdx <= ps.len(),
                    !found ==> len == pieces_len(ps.subrange(0, jdx as int)) && len <= pos,
                    found ==> idx < ps.len() && pieces_len(ps.subrange(0, idx as int)) + rel == pos
                        && rel < ps[idx as int].length,
                decreases ps.len() - jdx + (if found { 0int } else { 1int }),
            {
                let piece = self.pieces[jdx];
                proof {
                    lemma_pieces_len_prefix_step(ps, jdx as int);
                    lemma_pieces_split(o, a, ps, jdx + 1);
                }
                if pos < len + piece.length {
                    idx = jdx;
                    rel = pos - len;
                    found = true;
                } else {
                    len = len + piece.length;
                    jdx = jdx + 1;
                }
            }
            proof {
                if !found {
                    assert(ps.subrange(0, jdx as int) =~= ps);
                }
            }
        } else {
            proof {
                assert(ps.subrange(0, 0) =~= Seq::<Piece>::empty());
                assert(pieces_len(Seq::<Piece>::empty()) == 0);
                if ps.len() == 0 {
                    assert(ps =~= Seq::<Piece>::empty());
                }
            }
        }
        proof {
            if eof {
                assert(ps.subrange(0, idx as int) =~= ps);
            }
        }
        assert(idx <= ps.len());
        assert(eof || idx < ps.len());
        assert(eof ==> idx == ps.len() && pieces_len(ps.subrange(0, idx as int)) == pos);
        assert(!eof ==> pieces_len(ps.subrange(0, idx as int)) + rel == pos && (rel == 0 || rel < ps[idx as int].length));

        let at_bound = rel == 0 || eof;
        proof {
            lemma_text_boundary(o, a2, ps, idx as int);
        }
        let mut changes: Vec<Change> = Vec::new();
        let mut extended = false;
        if at_bound && idx > 0 {
            let k = idx - 1;
            let piece = self.pieces[k];
            proof {
                assert(piece_ok(o, a, ps[k as int]));
            }
            match piece.source {
                Source::Addition => {
                    if piece.offset + piece.length == self.addition.len() {
                        changes = Self::extend_piece(&mut self.pieces, Ghost(o), Ghost(a), k, slen, Ghost(a2), Ghost(bytes@));
                        extended = true;
                        proof {
                            lemma_pieces_split3(o, a2, ps.subrange(0, idx as int), k as int);
                            assert(ps.subrange(0, idx as int).subrange(0, k as int) =~= ps.subrange(0, k as int));
                            assert(ps.subrange(0, idx as int).subrange(k + 1, idx as int) =~= Seq::<Piece>::empty());
                        }
                    }
                },
                _ => {},
            }
        }
        if !extended {
            let piece = Piece::new(Source::Addition, self.addition.len(), slen);
            proof {
                assert(seg(o, a2, piece) =~= bytes@);
                assert(piece_ok(o, a2, piece));
            }
            if at_bound {
                self.pieces.insert(idx, piece);
                changes.push(Change::new(idx, piece, Kind::Insertion));
                proof {
                    lemma_insert_at_boundary(o, a2, ps, idx as int, piece);
                    let c1 = Change { pos: idx, piece, kind: Kind::Insertion };
                    assert(changes@ =~= seq![c1]);
                }
            } else {
                changes = Self::split_piece(&mut self.pieces, Ghost(o), Ghost(a), idx, rel, piece, Ghost(a2));
            }
        }
        let ghost ps_new = self.pieces@;
        assert(pieces_ok(o, a2, ps_new));
        assert(recorded(ps, changes@));
        assert(replay(ps, changes@) == ps_new);
        assert(pieces_len(ps_new) == pieces_len(ps) + slen);
        assert(pieces_text(o, a2, ps_new) =~= old_text.subrange(0, pos as int) + bytes@
            + old_text.subrange(pos as int, old_text.len() as int));
        self.total_length = self.total_length + slen;
        update_lines_insert(&mut self.lines, update_pos, bytes, Ghost(old_text));
        self.addition.extend_from_slice(bytes);
        proof {
            assert(self.addition@ =~= a2);
            assert(changes_ok(o, a2, changes@));
            if self.active_commit.is_some() {
                let c = self.active_commit.unwrap().changes@;
                assert forall|k: int| 0 <= k < c.len() implies #[trigger] piece_ok(o, a2, c[k].piece) by {
                    assert(piece_ok(o, a, c[k].piece));
                }
            }
        }
        proof {
            if changes@.len() == 0 {
                assert(replay(ps, changes@) == ps);
            }
        }
        self.record(changes, Ghost(ps));
        proof {
            self.lemma_edit_keeps_history(old(self));
        }
    }

    /// Collects what removing `pos..end` does to each piece.
    fn plan_remove(&self, pos: usize, end: usize) -> (remove: Vec<Remove>)
        requires
            self.wf(),
            pos < end <= self.text().len(),
        ensures
            remove@.len() > 0,
            forall|k: int| 0 <= k < remove@.len() ==> rm_ok(self.pieces@, pos as int, end as int, #[trigger] remove@[k]),
            forall|k: int| 0 < k < remove@.len() ==> rm_inner(#[trigger] remove@[k]),
            forall|k: int| 0 <= k < remove@.len() - 1 ==> rm_index(#[trigger] remove@[k + 1]) == rm_index(remove@[k]) + 1,
            rm_inner(remove@[0]) ==> pieces_len(self.pieces@.subrange(0, rm_index(remove@[0]))) == pos,
            pieces_len(self.pieces@.subrange(0, rm_index(remove@.last()) + 1)) >= end,
    {
        let ghost ps = self.pieces@;
        let ghost o = self.original@;
        let ghost a = self.addition@;
        proof {
            lemma_pieces_text_len(o, a, ps);
            assert(ps.subrange(0, 0) =~= Seq::<Piece>::empty());
            assert(pieces_len(Seq::<Piece>::empty()) == 0);
        }
        let mut remove: Vec<Remove> = Vec::new();
        let mut len: usize = 0;
        let mut index: usize = 0;
        let mut done = false;
        while index < self.pieces.len() && !done
            invariant
                self.wf(),
                ps == self.pieces@,
                o == self.original@,
                a == self.addition@,
                pos < end <= pieces_len(ps),
                index <= ps.len(),
                len == pieces_len(ps.subrange(0, index as int)),
                done ==> len >= end,
                forall|k: int| 0 <= k < remove@.len() ==> rm_ok(ps, pos as int, end as int, #[trigger] remove@[k]),
                forall|k: int| 0 <= k < remove@.len() ==> rm_index(#[trigger] remove@[k]) < index,
                forall|k: int| 0 < k < remove@.len() ==> rm_inner(#[trigger] remove@[k]),
                forall|k: int| 0 <= k < remove@.len() - 1 ==> rm_index(#[trigger] remove@[k + 1]) == rm_index(remove@[k]) + 1,
                remove@.len() == 0 ==> len <= pos,
                remove@.len() > 0 ==> rm_index(remove@.last()) == index - 1 && len > pos,
                remove@.len() > 0 && rm_inner(remove@[0]) ==> pieces_len(ps.subrange(0, rm_index(remove@[0]))) == pos,
            decreases ps.len() - index + (if done { 0int } else { 1int }),
        {
            if len >= end {
                done = true;
            } else {
                let piece = self.pieces[index];
                proof {
                    lemma_pieces_len_prefix_step(ps, index as int);
                    lemma_pieces_split(o, a, ps, index + 1);
                    assert(piece_ok(o, a, ps[index as int]));
                }
                let prev_len = len;
                len = len + piece.length;
                let remove_start = pos <= prev_len;
                let remove_end = end >= len && len > pos;
                let remove_slice = prev_len < pos && end < len;
                let ghost before = remove@;
                if !remove_start && remove_end {
                    remove.push(Remove::End { index, length: len - pos });
                } else if remove_start && remove_end {
                    remove.push(Remove::Full { index });
                } else if remove_start && !remove_end {
                    remove.push(Remove::Start { index, length: end - prev_len });
                } else if remove_slice {
                    remove.push(Remove::Slice { index, offset: pos - prev_len });
                }
                proof {
                    if remove@.len() > before.len() {
                        assert(remove@.subrange(0, before.len() as int) =~= before);
                        assert(forall|k: int| 0 <= k < before.len() ==> remove@[k] == before[k]);
                    }
                }
                index = index + 1;
            }
        }
        proof {
            if !done {
                assert(ps.subrange(0, index as int) =~= ps);
            }
        }
        remove
    }


    /// Applies one planned removal to its piece, which is the last one not yet
    /// reduced.
    #[verifier::rlimit(100)]
    #[verifier::spinoff_prover]
    fn remove_step(pieces: &mut Vec<Piece>, Ghost(o): Ghost<Seq<u8>>, Ghost(a): Ghost<Seq<u8>>, op: Remove, changes: &mut Vec<Change>, Ghost(ps): Ghost<Seq<Piece>>, Ghost(t): Ghost<Seq<u8>>, pos: usize, end: usize)
        requires
            ({
                let cur = old(pieces)@;
                let gi = rm_index(op);
                let g1 = gi + 1;
                &&& rm_ok(ps, pos as int, end as int, op)
                &&& pieces_ok(o, a, ps)
                &&& o.len() <= usize::MAX
                &&& a.len() <= usize::MAX
                &&& t == pieces_text(o, a, ps)
                &&& t.len() == pieces_len(ps)
                &&& pos < end <= t.len()
                &&& g1 <= cur.len()
                &&& cur.subrange(0, g1) == ps.subrange(0, g1)
                &&& pieces_text(o, a, cur.subrange(g1, cur.len() as int)) == rm_tail(t, pieces_len(ps.subrange(0, g1)) as int, pos as int, end as int)
                &&& pieces_ok(o, a, cur)
                &&& pieces_len(cur) <= pieces_len(ps)
                &&& recorded(ps, old(changes)@)
                &&& replay(ps, old(changes)@) == cur
                &&& changes_ok(o, a, old(changes)@)
            }),
        ensures
            ({
                let new = final(pieces)@;
                let gi = rm_index(op);
                &&& gi <= new.len()
                &&& new.subrange(0, gi) == ps.subrange(0, gi)
                &&& pieces_text(o, a, new.subrange(gi, new.len() as int)) == rm_tail(t, pieces_len(ps.subrange(0, gi)) as int, pos as int, end as int)
                &&& pieces_ok(o, a, new)
                &&& pieces_len(new) <= pieces_len(ps)
                &&& recorded(ps, final(changes)@)
                &&& replay(ps, final(changes)@) == new
                &&& changes_ok(o, a, final(changes)@)
            }),
    {
        let ghost cur = pieces@;
        let ghost gi = rm_index(op);
        let ghost g1 = gi + 1;
        let ghost pgi = pieces_len(ps.subrange(0, gi)) as int;
        let ghost lgi = pgi + ps[gi].length;
        let n = end - pos;
        proof {
            assert(cur.subrange(0, g1)[gi] == ps.subrange(0, g1)[gi]);
            assert(cur[gi] == ps[gi]);
            lemma_pieces_len_prefix_step(ps, gi);
            lemma_pieces_split(o, a, ps, g1);
            assert(pieces_text(o, a, Seq::<Piece>::empty()) =~= Seq::<u8>::empty());
            lemma_text_boundary(o, a, ps, gi);
            lemma_text_boundary(o, a, ps, g1);
            lemma_pieces_split3(o, a, ps.subrange(0, g1), gi);
            assert(ps.subrange(0, g1).subrange(0, gi) =~= ps.subrange(0, gi));
            assert(ps.subrange(0, g1).subrange(gi + 1, g1) =~= Seq::<Piece>::empty());
            assert(piece_ok(o, a, ps[gi]));
            assert(piece_ok(o, a, cur[gi]));
            lemma_pieces_single(o, a, ps[gi]);
            assert(seg(o, a, ps[gi]) =~= t.subrange(pgi, lgi));
            lemma_pieces_text_len(o, a, cur);
            lemma_pieces_split3(o, a, cur, gi);
            assert(cur.subrange(gi + 1, cur.len() as int) =~= cur.subrange(g1, cur.len() as int));
            assert(cur.subrange(0, gi) =~= cur.subrange(0, g1).subrange(0, gi));
        }
        let ghost post = cur.subrange(g1, cur.len() as int);
        let ghost tail1 = rm_tail(t, lgi, pos as int, end as int);
        match op {
            Remove::End { index, length } => {
                let old_piece = pieces[index];
                let np = Piece::new(old_piece.source, old_piece.offset, old_piece.length - length);
                Self::swap_piece(pieces, Ghost(o), Ghost(a), index, np, changes, Ghost(ps));
                proof {
                    let new = pieces@;
                    lemma_pieces_single(o, a, np);
                    assert(new =~= cur.subrange(0, gi) + seq![np] + post);
                    assert(new.subrange(0, gi) =~= cur.subrange(0, gi));
                    assert(new.subrange(gi, new.len() as int) =~= seq![np] + post);
                    lemma_pieces_text_concat(o, a, seq![np], post);
                    assert(seg(o, a, np) =~= t.subrange(pgi, pos as int));
                    assert(tail1 =~= t.subrange(end as int, t.len() as int));
                    assert(rm_tail(t, pgi, pos as int, end as int) =~= t.subrange(pgi, pos as int) + t.subrange(end as int, t.len() as int));
                }
            },
            Remove::Full { index } => {
                Self::drop_piece(pieces, Ghost(o), Ghost(a), index, changes, Ghost(ps));
                proof {
                    let new = pieces@;
                    assert(new =~= cur.subrange(0, gi) + post);
                    assert(new.subrange(0, gi) =~= cur.subrange(0, gi));
                    assert(new.subrange(gi, new.len() as int) =~= post);
                    assert(tail1 =~= t.subrange(end as int, t.len() as int));
                    assert(rm_tail(t, pgi, pos as int, end as int) =~= t.subrange(end as int, t.len() as int));
                }
            },
            Remove::Start { index, length } => {
                let old_piece = pieces[index];
                let np = Piece::new(old_piece.source, old_piece.offset + length, old_piece.length - length);
                Self::swap_piece(pieces, Ghost(o), Ghost(a), index, np, changes, Ghost(ps));
                proof {
                    let new = pieces@;
                    lemma_pieces_single(o, a, np);
                    assert(new =~= cur.subrange(0, gi) + seq![np] + post);
                    assert(new.subrange(0, gi) =~= cur.subrange(0, gi));
                    assert(new.subrange(gi, new.len() as int) =~= seq![np] + post);
                    lemma_pieces_text_concat(o, a, seq![np], post);
                    assert(seg(o, a, np) =~= t.subrange(end as int, lgi));
                    assert(tail1 =~= t.subrange(lgi, t.len() as int));
                    assert(rm_tail(t, pgi, pos as int, end as int) =~= t.subrange(end as int, t.len() as int));
                }
            },
            Remove::Slice { index, offset } => {
                let old_piece = pieces[index];
                let leading = Piece::new(old_piece.source, old_piece.offset, offset);
                let trailing_len = old_piece.length - offset - n;
                let trailing = Piece::new(old_piece.source, old_piece.offset + offset + n, trailing_len);
                Self::cut_piece(pieces, Ghost(o), Ghost(a), index, leading, trailing, changes, Ghost(ps));
                proof {
                    let new = pieces@;
                    lemma_pieces_single(o, a, leading);
                    lemma_pieces_single(o, a, trailing);
                    assert(new =~= cur.subrange(0, gi) + seq![leading, trailing] + post);
                    assert(new.subrange(0, gi) =~= cur.subrange(0, gi));
                    assert(new.subrange(gi, new.len() as int) =~= seq![leading] + (seq![trailing] + post));
                    lemma_pieces_text_concat(o, a, seq![leading], seq![trailing] + post);
                    lemma_pieces_text_concat(o, a, seq![trailing], post);
                    assert(seg(o, a, leading) =~= t.subrange(pgi, pos as int));
                    assert(seg(o, a, trailing) =~= t.subrange(end as int, lgi));
                    assert(tail1 =~= t.subrange(lgi, t.len() as int));
                    assert(rm_tail(t, pgi, pos as int, end as int) =~= t.subrange(pgi, pos as int) + t.subrange(end as int, t.len() as int));
                }
            },
        }
        proof {
            let new = pieces@;
            lemma_pieces_text_len(o, a, new);
            lemma_pieces_split(o, a, new, gi);
            assert(pieces_ok(o, a, new.subrange(gi, new.len() as int)));
            lemma_pieces_text_len(o, a, new.subrange(gi, new.len() as int));
            assert(pieces_ok(o, a, new.subrange(0, gi)));
            lemma_pieces_text_len(o, a, new.subrange(0, gi));
            assert(pieces_ok(o, a, ps.subrange(0, gi)));
            lemma_pieces_text_len(o, a, ps.subrange(0, gi));
        }
    }

    /// Removes a string from `pos` of length `n`.
    #[verifier::rlimit(100)]
    #[verifier::spinoff_prover]
    pub fn remove(&mut self, pos: usize, n: usize)
        requires
            old(self).wf(),
            pos + n <= old(self).text().len(),
            n != 0,
        ensures
            final(self).wf(),
            final(self).text() == cut_out(old(self).text(), pos as int, n as int),
            final(self).buffer_len() == old(self).buffer_len(),
            final(self).in_commit() == old(self).in_commit(),
            final(self).in_commit() ==> final(self).active_changes().len() > 0,
            final(self).hist() == old(self).hist(),
            final(self).commit_base_text() == old(self).commit_base_text(),
            final(self).at_before_commit_at_head() == old(self).at_before_commit_at_head(),
            final(self).commit_faithful() == old(self).commit_faithful(),
            forall|e: int| 0 <= e < old(self).hist().entries().len() ==>
                #[trigger] final(self).faithful(e) == old(self).faithful(e),
            forall|e: int| 0 <= e < old(self).hist().entries().len() ==>
                final(self).entry_before_text(e) == old(self).entry_before_text(e)
                && final(self).entry_after_text(e) == old(self).entry_after_text(e)
                && (final(self).linked(e) <==> old(self).linked(e)),
    {
        let ghost o = self.original@;
        let ghost a = self.addition@;
        let ghost ps = self.pieces@;
        let ghost t = self.text();
        proof {
            lemma_pieces_text_len(o, a, ps);
        }
        let end = pos + n;
        let remove = self.plan_remove(pos, end);

        self.total_length = self.total_length - n;

        let mut changes: Vec<Change> = Vec::new();
        let mut k = remove.len();
        let ghost last = rm_index(remove@.last());
        proof {
            lemma_recorded_empty(ps);
            assert(rm_ok(ps, pos as int, end as int, remove@[remove@.len() - 1]));
            lemma_text_boundary(o, a, ps, last + 1);
            assert(changes@ =~= Seq::<Change>::empty());
            let pl = pieces_len(ps.subrange(0, last + 1)) as int;
            lemma_pieces_split(o, a, ps, last + 1);
            assert(rm_tail(t, pl, pos as int, end as int) =~= t.subrange(pl, t.len() as int));
            assert(ps.subrange(0, last + 1) =~= self.pieces@.subrange(0, last + 1));
        }
        while k > 0
            invariant
                0 <= k <= remove@.len(),
                remove@.len() > 0,
                self.original@ == o,
                self.addition@ == a,
                pieces_ok(o, a, ps),
                o.len() <= usize::MAX,
                a.len() <= usize::MAX,
                t == pieces_text(o, a, ps),
                t.len() == pieces_len(ps),
                pos < end <= t.len(),
                end == pos + n,
                last == rm_index(remove@.last()),
                forall|j: int| 0 <= j < remove@.len() ==> rm_ok(ps, pos as int, end as int, #[trigger] remove@[j]),
                forall|j: int| 0 <= j < remove@.len() - 1 ==> rm_index(#[trigger] remove@[j + 1]) == rm_index(remove@[j]) + 1,
                ({
                    let g = if k == remove@.len() { last + 1 } else { rm_index(remove@[k as int]) };
                    let cur = self.pieces@;
                    &&& 0 <= g <= ps.len()
                    &&& g <= cur.len()
                    &&& cur.subrange(0, g) == ps.subrange(0, g)
                    &&& pieces_text(o, a, cur.subrange(g, cur.len() as int)) == rm_tail(t, pieces_len(ps.subrange(0, g)) as int, pos as int, end as int)
                }),
                pieces_ok(o, a, self.pieces@),
                pieces_len(self.pieces@) <= pieces_len(ps),
                recorded(ps, changes@),
                replay(ps, changes@) == self.pieces@,
                changes_ok(o, a, changes@),
                self.history == old(self).history,
                self.active_commit == old(self).active_commit,
                self.befores == old(self).befores,
                self.afters == old(self).afters,
                self.active_before == old(self).active_before,
                self.faithful == old(self).faithful,
                self.active_faithful == old(self).active_faithful,
                self.lines == old(self).lines,
                self.total_length == old(self).total_length - n,
            decreases k,
        {
            k = k - 1;
            let op = remove[k];
            proof {
                assert(rm_ok(ps, pos as int, end as int, remove@[k as int]));
                if k + 1 < remove@.len() {
                    assert(rm_index(remove@[k + 1]) == rm_index(remove@[k as int]) + 1);
                }
            }
            Self::remove_step(&mut self.pieces, Ghost(o), Ghost(a), op, &mut changes, Ghost(ps), Ghost(t), pos, end);
        }
        let ghost ps_new = self.pieces@;
        proof {
            let g = rm_index(remove@[0]);
            let pg = pieces_len(ps.subrange(0, g)) as int;
            lemma_text_boundary(o, a, ps, g);
            lemma_pieces_split(o, a, ps_new, g);
            assert(ps_new.subrange(0, g) == ps.subrange(0, g));
            assert(pieces_text(o, a, ps_new) =~= t.subrange(0, pos as int) + t.subrange(end as int, t.len() as int));
            lemma_pieces_text_len(o, a, ps_new);
        }
        proof {
            lemma_pieces_text_len(o, a, ps);
            if changes@.len() == 0 {
                assert(replay(ps, changes@) == ps);
            }
        }
        self.record(changes, Ghost(ps));
        update_lines_remove(&mut self.lines, pos, n, Ghost(t));
        proof {
            assert(self.addition@.subrange(0, a.len() as int) =~= a);
            self.lemma_edit_keeps_history(old(self));
        }
    }

    /// Recomputes the line starts from the pieces.
    fn rebuild_lines(&mut self)
        requires
            pieces_ok(old(self).original@, old(self).addition@, old(self).pieces@),
            pieces_len(old(self).pieces@) <= usize::MAX,
            old(self).original@.len() <= usize::MAX,
            old(self).addition@.len() <= usize::MAX,
        ensures
            same_offsets(final(self).lines@, line_starts(final(self).text())),
            final(self).original == old(self).original,
            final(self).addition == old(self).addition,
            final(self).pieces == old(self).pieces,
            final(self).total_length == old(self).total_length,
            final(self).history == old(self).history,
            final(self).active_commit == old(self).active_commit,
            final(self).befores == old(self).befores,
            final(self).afters == old(self).afters,
            final(self).active_before == old(self).active_before,
            final(self).faithful == old(self).faithful,
            final(self).active_faithful == old(self).active_faithful,
    {
        let ghost o = self.original@;
        let ghost a = self.addition@;
        let ghost ps = self.pieces@;
        let mut lines: Vec<usize> = Vec::new();
        lines.push(0);
        let mut pos: usize = 0;
        let mut i: usize = 0;
        proof {
            assert(ps.subrange(0, 0) =~= Seq::<Piece>::empty());
            assert(pieces_text(o, a, Seq::<Piece>::empty()) =~= Seq::<u8>::empty());
            assert(pieces_len(Seq::<Piece>::empty()) == 0);
        }
        while i < self.pieces.len()
            invariant
                self.pieces@ == ps,
                self.original@ == o,
                self.addition@ == a,
                o.len() <= usize::MAX,
                a.len() <= usize::MAX,
                pieces_ok(o, a, ps),
                pieces_len(ps) <= usize::MAX,
                i <= ps.len(),
                pos == pieces_len(ps.subrange(0, i as int)),
                same_offsets(lines@, line_starts(pieces_text(o, a, ps.subrange(0, i as int)))),
            decreases ps.len() - i,
        {
            let piece = self.pieces[i];
            let ghost pre = pieces_text(o, a, ps.subrange(0, i as int));
            proof {
                assert(piece_ok(o, a, ps[i as int]));
                lemma_pieces_len_prefix_step(ps, i as int);
                lemma_pieces_split(o, a, ps, i + 1);
                assert(pieces_ok(o, a, ps.subrange(0, i as int)));
                lemma_pieces_text_len(o, a, ps.subrange(0, i as int));
                assert(ps.subrange(0, i + 1) =~= ps.subrange(0, i as int) + seq![piece]);
                lemma_pieces_text_concat(o, a, ps.subrange(0, i as int), seq![piece]);
                lemma_pieces_single(o, a, piece);
            }
            let source = match piece.source {
                Source::Original => &self.original,
                Source::Addition => &self.addition,
            };
            let mut j: usize = 0;
            proof {
                assert(seg(o, a, piece).subrange(0, 0) =~= Seq::<u8>::empty());
                assert(pre + Seq::<u8>::empty() =~= pre);
            }
            while j < piece.length
                invariant
                    source@ == source_bytes(o, a, piece.source),
                    piece.offset + piece.length <= source@.len(),
                    source@.len() <= usize::MAX,
                    j <= piece.length,
                    pos == pre.len(),
                    pos + piece.length <= usize::MAX,
                    same_offsets(lines@, line_starts(pre + seg(o, a, piece).subrange(0, j as int))),
                decreases piece.length - j,
            {
                let ghost cur = pre + seg(o, a, piece).subrange(0, j as int);
                proof {
                    assert((pre + seg(o, a, piece).subrange(0, j + 1)).drop_last() =~= cur);
                    assert((pre + seg(o, a, piece).subrange(0, j + 1)).last() == source@[piece.offset + j]);
                }
                if source[piece.offset + j] == 10u8 {
                    lines.push(pos + j + 1);
                }
                j = j + 1;
            }
            proof {
                assert(seg(o, a, piece).subrange(0, piece.length as int) =~= seg(o, a, piece));
            }
            pos = pos + piece.length;
            i = i + 1;
        }
        proof {
            assert(ps.subrange(0, i as int) =~= ps);
        }
        self.lines = lines;
    }

    /// What `undo` does: the head moves to its parent, which remembers the undone entry as its hot path, and the text goes back to what the entry started from.
    pub open spec fn undo_post(self, new: Self) -> bool {
        &&& new.buffer_len() == self.buffer_len()
        &&& new.in_commit() == self.in_commit()
        &&& new.hist().entries().len() == self.hist().entries().len()
        &&& (forall|e: int|
            #![trigger new.entry_before_text(e)]
            #![trigger new.entry_after_text(e)]
            #![trigger new.faithful(e)]
            #![trigger new.linked(e)]
            #![trigger new.hist().entries()[e]]
            0 <= e < self.hist().entries().len() ==> {
                &&& new.entry_before_text(e) == self.entry_before_text(e)
                &&& new.entry_after_text(e) == self.entry_after_text(e)
                &&& new.faithful(e) == self.faithful(e)
                &&& new.linked(e) == self.linked(e)
                &&& new.hist().entries()[e].previous == self.hist().entries()[e].previous
                &&& new.hist().entries()[e].commit == self.hist().entries()[e].commit
                &&& (e != self.hist().entries()[self.hist().head()].previous.unwrap_or(0) as int
                    || self.hist().entries()[self.hist().head()].previous.is_none()
                    ==> new.hist().entries()[e].hot_path == self.hist().entries()[e].hot_path)
            })
        &&& (match self.hist().entries()[self.hist().head()].previous {
            None => new.text() == self.text() && new.hist() == self.hist()
                && new.at_head() == self.at_head()
                && new.commit_faithful() == self.commit_faithful()
                && new.undo_applicable()
                && new.redo_applicable() == self.redo_applicable(),
            Some(p) => {
                let h = self.hist().head();
                &&& new.hist().head() == p
                &&& new.hist().entries()[p as int].hot_path == Some(h as usize)
                &&& new.text() == self.reverted_text()
                &&& (self.at_head() && self.faithful(h) ==> new.redo_applicable())
                &&& (self.at_head() && self.faithful(h) && self.linked(h) && self.faithful(p as int)
                    ==> new.undo_applicable())
                &&& (self.at_head() && self.faithful(h) ==> new.at_before(h)
                    && new.text() == self.entry_before_text(h))
                &&& (self.at_head() && self.faithful(h) && self.linked(h)
                    ==> new.at_head())
                &&& (self.in_commit() ==> !new.commit_faithful())
            },
        })
    }

    /// Reverts the piece table to the state *before* the last changes.
    ///
    /// When the head entry has no parent nothing happens. A transaction that is
    /// open stops being a faithful record of its edits.
    pub fn undo(&mut self)
        requires
            old(self).wf(),
            old(self).undo_applicable(),
        ensures
            final(self).wf(),
            old(self).undo_post(*final(self)),
    {
        let ghost o = self.original@;
        let ghost a = self.addition@;
        let ghost ps0 = self.pieces@;
        let ghost h = self.history.head();
        let ghost cs = self.history.entries()[h].commit.changes@;
        let changes = match self.history.undo() {
            Some(commit) => commit.changes.clone(),
            None => {
                return;
            },
        };
        let ghost hist1 = self.history;
        let mut i = changes.len();
        proof {
            assert(old(self).entry_ok(h));
            assert(cs.subrange(0, i as int) =~= cs);
        }
        while i > 0
            invariant
                i <= cs.len(),
                changes@ == cs,
                self.history == hist1,
                self.befores == old(self).befores,
                self.afters == old(self).afters,
                self.faithful == old(self).faithful,
                self.active_before == old(self).active_before,
                self.active_faithful == old(self).active_faithful,
                self.active_commit == old(self).active_commit,
                self.original@ == o,
                self.addition@ == a,
                changes_ok(o, a, cs),
                pieces_ok(o, a, self.pieces@),
                self.total_length == pieces_len(self.pieces@),
                undo_ok(self.pieces@, cs.subrange(0, i as int)),
                unreplay(self.pieces@, cs.subrange(0, i as int)) == unreplay(ps0, cs),
            decreases i,
        {
            i = i - 1;
            let change = changes[i];
            let ghost cur = self.pieces@;
            proof {
                let pre = cs.subrange(0, i + 1);
                assert(pre.last() == change);
                assert(pre.drop_last() =~= cs.subrange(0, i as int));
                assert(piece_ok(o, a, cs[i as int].piece));
            }
            match change.kind {
                Kind::Deletion => {
                    proof {
                        lemma_pieces_len_insert(cur, change.pos as int, change.piece);
                    }
                    self.pieces.insert(change.pos, change.piece);
                    self.total_length = self.total_length + change.piece.length;
                },
                Kind::Insertion => {
                    proof {
                        lemma_pieces_len_remove(cur, change.pos as int);
                    }
                    let removed = self.pieces.remove(change.pos);
                    self.total_length = self.total_length - removed.length;
                },
            }
            proof {
                let new = self.pieces@;
                assert(new == unapply_change(cur, change));
                assert forall|j: int| 0 <= j < new.len() implies #[trigger] piece_ok(o, a, new[j]) by {
                    match change.kind {
                        Kind::Deletion => {
                            if j < change.pos {
                                assert(piece_ok(o, a, cur[j]));
                            } else if j > change.pos {
                                assert(piece_ok(o, a, cur[j - 1]));
                            }
                        },
                        Kind::Insertion => {
                            if j < change.pos {
                                assert(piece_ok(o, a, cur[j]));
                            } else {
                                assert(piece_ok(o, a, cur[j + 1]));
                            }
                        },
                    }
                }
            }
        }
        proof {
            assert(cs.subrange(0, 0) =~= Seq::<Change>::empty());
        }
        self.rebuild_lines();
        if self.active_commit.is_some() {
            self.active_faithful = Ghost(false);
        }
        proof {
            assert forall|e: int| 0 <= e < self.history.entries().len() implies #[trigger] self.entry_ok(e) by {
                assert(self.history.entries()[e].commit == old(self).history.entries()[e].commit);
                assert(old(self).entry_ok(e));
            }
            if old(self).at_head() && old(self).faithful@[h] {
                lemma_unreplay_replay(self.befores@[h], cs);
                crate::history::lemma_recorded_redo_ok(self.befores@[h], cs);
                let p = old(self).history.entries()[h].previous.unwrap() as int;
                if old(self).linked(h) && old(self).faithful@[p] && self.history.entries()[p].previous.is_some() {
                    assert(old(self).entry_ok(p));
                    lemma_unreplay_replay(self.befores@[p], self.history.entries()[p].commit.changes@);
                }
            }
        }
    }

    /// What `hot_redo` does: the head moves to its hot path child and the text becomes what that entry ended with.
    pub open spec fn hot_redo_post(self, new: Self) -> bool {
        &&& new.buffer_len() == self.buffer_len()
        &&& new.in_commit() == self.in_commit()
        &&& new.hist().entries() == self.hist().entries()
        &&& (forall|e: int|
            #![trigger new.entry_before_text(e)]
            #![trigger new.entry_after_text(e)]
            #![trigger new.faithful(e)]
            #![trigger new.linked(e)]
            0 <= e < self.hist().entries().len() ==> {
                &&& new.entry_before_text(e) == self.entry_before_text(e)
                &&& new.entry_after_text(e) == self.entry_after_text(e)
                &&& new.faithful(e) == self.faithful(e)
                &&& new.linked(e) == self.linked(e)
            })
        &&& (match self.hist().entries()[self.hist().head()].hot_path {
            None => new.text() == self.text() && new.hist() == self.hist()
                && new.at_head() == self.at_head()
                && new.commit_faithful() == self.commit_faithful()
                && new.undo_applicable() == self.undo_applicable()
                && new.redo_applicable(),
            Some(n) => {
                &&& new.hist().head() == n
                &&& new.text() == self.replayed_text()
                &&& (self.hist().entries()[n as int].hot_path.is_none() ==> new.redo_applicable())
                &&& (self.at_before(n as int) && self.faithful(n as int) ==> new.undo_applicable())
                &&& (self.at_before(n as int) && self.faithful(n as int)
                    ==> new.at_head() && new.text() == self.entry_after_text(n as int))
                &&& (self.in_commit() ==> !new.commit_faithful())
            },
        })
    }

    /// Restores the piece table to the "hot" state *after* the last undo.
    ///
    /// Hot state means the state the head was last at (e.g. at a fork in the
    /// history it can quickly be redone to the last head position without
    /// having to select it).
    pub fn hot_redo(&mut self)
        requires
            old(self).wf(),
            old(self).redo_applicable(),
        ensures
            final(self).wf(),
            old(self).hot_redo_post(*final(self)),
    {
        let ghost o = self.original@;
        let ghost a = self.addition@;
        let ghost ps0 = self.pieces@;
        let ghost h = self.history.head();
        let ghost n = self.history.entries()[h].hot_path.unwrap() as int;
        let ghost cs = self.history.entries()[n].commit.changes@;
        let changes = match self.history.hot_redo() {
            Some(commit) => commit.changes.clone(),
            None => {
                return;
            },
        };
        let ghost hist1 = self.history;
        let mut i: usize = 0;
        proof {
            assert(old(self).entry_ok(n));
            assert(cs.subrange(0, 0) =~= Seq::<Change>::empty());
        }
        while i < changes.len()
            invariant
                i <= cs.len(),
                changes@ == cs,
                self.history == hist1,
                self.befores == old(self).befores,
                self.afters == old(self).afters,
                self.faithful == old(self).faithful,
                self.active_before == old(self).active_before,
                self.active_faithful == old(self).active_faithful,
                self.active_commit == old(self).active_commit,
                self.original@ == o,
                self.addition@ == a,
                changes_ok(o, a, cs),
                pieces_ok(o, a, self.pieces@),
                self.total_length == pieces_len(self.pieces@),
                redo_ok(ps0, cs),
                self.pieces@ == replay(ps0, cs.subrange(0, i as int)),
            decreases cs.len() - i,
        {
            let change = changes[i];
            let ghost cur = self.pieces@;
            proof {
                lemma_redo_ok_prefix(ps0, cs, i + 1);
                let pre = cs.subrange(0, i + 1);
                assert(pre.last() == change);
                assert(pre.drop_last() =~= cs.subrange(0, i as int));
                assert(piece_ok(o, a, cs[i as int].piece));
            }
            match change.kind {
                Kind::Deletion => {
                    proof {
                        lemma_pieces_len_remove(cur, change.pos as int);
                    }
                    let removed = self.pieces.remove(change.pos);
                    self.total_length = self.total_length - removed.length;
                },
                Kind::Insertion => {
                    proof {
                        lemma_pieces_len_insert(cur, change.pos as int, change.piece);
                    }
                    self.pieces.insert(change.pos, change.piece);
                    self.total_length = self.total_length + change.piece.length;
                },
            }
            proof {
                let new = self.pieces@;
                assert(new == apply_change(cur, change));
                assert forall|j: int| 0 <= j < new.len() implies #[trigger] piece_ok(o, a, new[j]) by {
                    match change.kind {
                        Kind::Insertion => {
                            if j < change.pos {
                                assert(piece_ok(o, a, cur[j]));
                            } else if j > change.pos {
                                assert(piece_ok(o, a, cur[j - 1]));
                            }
                        },
                        Kind::Deletion => {
                            if j < change.pos {
                                assert(piece_ok(o, a, cur[j]));
                            } else {
                                assert(piece_ok(o, a, cur[j + 1]));
                            }
                        },
                    }
                }
            }
            i = i + 1;
        }
        proof {
            assert(cs.subrange(0, i as int) =~= cs);
        }
        self.rebuild_lines();
        if self.active_commit.is_some() {
            self.active_faithful = Ghost(false);
        }
        proof {
            assert forall|e: int| 0 <= e < self.history.entries().len() implies #[trigger] self.entry_ok(e) by {
                assert(old(self).entry_ok(e));
            }
            if old(self).at_before(n) && old(self).faithful@[n] {
                assert(self.history.entries()[n].previous == Some(h as usize));
                lemma_unreplay_replay(self.befores@[n], cs);
            }
        }
    }

    /// Appends a string at the end.
    pub fn append(&mut self, str: &str)
        requires
            old(self).wf(),
            str@.len() > 0,
            old(self).text().len() + str.spec_bytes().len() <= usize::MAX,
            old(self).buffer_len() + str.spec_bytes().len() <= usize::MAX,
        ensures
            final(self).wf(),
            final(self).text() == old(self).text() + str.spec_bytes(),
            final(self).buffer_len() == old(self).buffer_len() + str.spec_bytes().len(),
            final(self).in_commit() == old(self).in_commit(),
            final(self).in_commit() ==> final(self).active_changes().len() > 0,
            final(self).hist() == old(self).hist(),
            final(self).commit_base_text() == old(self).commit_base_text(),
            final(self).at_before_commit_at_head() == old(self).at_before_commit_at_head(),
            final(self).commit_faithful() == old(self).commit_faithful(),
            forall|e: int| 0 <= e < old(self).hist().entries().len() ==>
                #[trigger] final(self).faithful(e) == old(self).faithful(e),
            forall|e: int| 0 <= e < old(self).hist().entries().len() ==>
                final(self).entry_before_text(e) == old(self).entry_before_text(e)
                && final(self).entry_after_text(e) == old(self).entry_after_text(e)
                && (final(self).linked(e) <==> old(self).linked(e)),
    {
        proof {
            lemma_pieces_text_len(self.original@, self.addition@, self.pieces@);
        }
        let len = self.total_length;
        self.insert(len, str);
        proof {
            let t = old(self).text();
            assert(t.subrange(0, t.len() as int) =~= t);
            assert(t.subrange(t.len() as int, t.len() as int) =~= Seq::<u8>::empty());
        }
    }

    /// Returns the byte index where the nth line begins.
    pub fn get_line_start_byte(&self, n: usize) -> (r: usize)
        requires
            self.wf(),
        ensures
            r == line_start(self.text(), n as int),
    {
        proof {
            lemma_pieces_text_len(self.original@, self.addition@, self.pieces@);
        }
        if n < self.lines.len() {
            self.lines[n]
        } else {
            self.total_length
        }
    }

    /// Returns the byte index of where the nth line ends and the next line
    /// begins (`get_line_end_byte(n) == get_line_start_byte(n + 1)`).
    pub fn get_line_end_byte(&self, n: usize) -> (r: usize)
        requires
            self.wf(),
        ensures
            r == line_end(self.text(), n as int),
    {
        proof {
            lemma_pieces_text_len(self.original@, self.addition@, self.pieces@);
            lemma_line_starts_basic(self.text());
        }
        if n < self.lines.len() - 1 {
            self.lines[n + 1]
        } else {
            self.total_length
        }
    }

    /// Returns the amount of lines of the text stored in the piece table.
    pub fn lines(&self) -> (r: usize)
        requires
            self.wf(),
        ensures
            r == line_starts(self.text()).len(),
            r == 1 + newlines(self.text()),
    {
        proof {
            lemma_line_count(self.text());
        }
        self.lines.len()
    }

    /// Returns the length of the text stored in the piece table.
    pub fn len(&self) -> (r: usize)
        requires
            self.wf(),
        ensures
            r == self.text().len(),
    {
        proof {
            lemma_pieces_text_len(self.original@, self.addition@, self.pieces@);
        }
        self.total_length
    }

    /// Returns if the text stored in the piece table is empty.
    pub fn is_empty(&self) -> (r: bool)
        requires
            self.wf(),
        ensures
            r == (self.text().len() == 0),
    {
        proof {
            lemma_pieces_text_len(self.original@, self.addition@, self.pieces@);
        }
        self.total_length == 0
    }

    /// The number of bytes of the buffer that edits append to.
    pub fn buffer_size(&self) -> (r: usize)
        ensures
            r == self.buffer_len(),
    {
        self.addition.len()
    }

    /// Whether `undo` can revert the head's commit from the current pieces
    /// without leaving the piece list or overflowing the length.
    pub fn can_undo(&self) -> (b: bool)
        requires
            self.wf(),
        ensures
            b == self.undo_applicable(),
    {
        let h = self.history.head_index();
        let entry = self.history.entry(h);
        if entry.previous.is_none() {
            return true;
        }
        let cs = &entry.commit.changes;
        let mut cur = self.pieces.clone();
        let mut total = self.total_length;
        let mut i = cs.len();
        proof {
            assert(cur@ =~= self.pieces@);
            assert(cs@.subrange(0, i as int) =~= cs@);
            assert(self.undo_applicable() == undo_ok(self.pieces@, cs@));
        }
        while i > 0
            invariant
                i <= cs@.len(),
                total == pieces_len(cur@),
                self.undo_applicable() == undo_ok(cur@, cs@.subrange(0, i as int)),
            decreases i,
        {
            i = i - 1;
            let c = cs[i];
            let ghost before = cur@;
            proof {
                let pre = cs@.subrange(0, i + 1);
                assert(pre.last() == c);
                assert(pre.drop_last() =~= cs@.subrange(0, i as int));
            }
            match c.kind {
                Kind::Deletion => {
                    if c.pos > cur.len() || total > usize::MAX - c.piece.length {
                        proof {
                            if c.pos <= cur@.len() {
                                lemma_pieces_len_insert(before, c.pos as int, c.piece);
                            }
                        }
                        return false;
                    }
                    proof {
                        lemma_pieces_len_insert(before, c.pos as int, c.piece);
                    }
                    cur.insert(c.pos, c.piece);
                    total = total + c.piece.length;
                },
                Kind::Insertion => {
                    if c.pos >= cur.len() {
                        return false;
                    }
                    proof {
                        lemma_pieces_len_remove(before, c.pos as int);
                    }
                    let removed = cur.remove(c.pos);
                    total = total - removed.length;
                },
            }
        }
        true
    }

    /// Whether `hot_redo` can replay the hot path child's commit from the
    /// current pieces without leaving the piece list or overflowing the length.
    pub fn can_redo(&self) -> (b: bool)
        requires
            self.wf(),
        ensures
            b == self.redo_applicable(),
    {
        let h = self.history.head_index();
        let hot = self.history.entry(h).hot_path;
        let n = match hot {
            None => {
                return true;
            },
            Some(n) => n,
        };
        let cs = &self.history.entry(n).commit.changes;
        let mut cur = self.pieces.clone();
        let mut total = self.total_length;
        let mut i: usize = 0;
        proof {
            assert(cur@ =~= self.pieces@);
            assert(cs@.subrange(0, 0) =~= Seq::<Change>::empty());
            assert(self.redo_applicable() == redo_ok(self.pieces@, cs@));
            assert(pieces_len(self.pieces@) <= usize::MAX);
        }
        while i < cs.len()
            invariant
                i <= cs@.len(),
                total == pieces_len(cur@),
                self.redo_applicable() == redo_ok(self.pieces@, cs@),
                redo_ok(self.pieces@, cs@.subrange(0, i as int)),
                cur@ == replay(self.pieces@, cs@.subrange(0, i as int)),
            decreases cs@.len() - i,
        {
            let c = cs[i];
            let ghost before = cur@;
            proof {
                let pre = cs@.subrange(0, i + 1);
                assert(pre.last() == c);
                assert(pre.drop_last() =~= cs@.subrange(0, i as int));
            }
            match c.kind {
                Kind::Deletion => {
                    if c.pos >= cur.len() {
                        proof {
                            if redo_ok(self.pieces@, cs@) {
                                lemma_redo_ok_prefix(self.pieces@, cs@, i + 1);
                            }
                        }
                        return false;
                    }
                    proof {
                        lemma_pieces_len_remove(before, c.pos as int);
                    }
                    let removed = cur.remove(c.pos);
                    total = total - removed.length;
                },
                Kind::Insertion => {
                    if c.pos > cur.len() || total > usize::MAX - c.piece.length {
                        proof {
                            if c.pos <= cur@.len() {
                                lemma_pieces_len_insert(before, c.pos as int, c.piece);
                            }
                            if redo_ok(self.pieces@, cs@) {
                                lemma_redo_ok_prefix(self.pieces@, cs@, i + 1);
                            }
                        }
                        return false;
                    }
                    proof {
                        lemma_pieces_len_insert(before, c.pos as int, c.piece);
                    }
                    cur.insert(c.pos, c.piece);
                    total = total + c.piece.length;
                },
            }
            i = i + 1;
        }
        proof {
            assert(cs@.subrange(0, i as int) =~= cs@);
        }
        true
    }

    /// The bytes of the text from `lower` up to `upper` (exclusive), cut to
    /// the length of the text.
    #[verifier::rlimit(100)]
    #[verifier::spinoff_prover]
    fn slice_bytes(&self, lower: usize, upper: usize) -> (out: Vec<u8>)
        requires
            self.wf(),
            lower <= upper,
        ensures
            out@ == clamped(self.text(), lower as int, upper as int),
    {
        let ghost o = self.original@;
        let ghost a = self.addition@;
        let ghost ps = self.pieces@;
        let ghost t = self.text();
        proof {
            lemma_pieces_text_len(o, a, ps);
            assert(ps.subrange(0, 0) =~= Seq::<Piece>::empty());
            assert(pieces_len(Seq::<Piece>::empty()) == 0);
        }
        let mut out: Vec<u8> = Vec::new();
        if lower == upper {
            proof {
                assert(clamped(t, lower as int, upper as int) =~= Seq::<u8>::empty());
            }
            return out;
        }
        let mut len: usize = 0;
        let mut i: usize = 0;
        let mut done = false;
        while i < self.pieces.len() && !done
            invariant
                self.wf(),
                ps == self.pieces@,
                o == self.original@,
                a == self.addition@,
                t == pieces_text(o, a, ps),
                t.len() == pieces_len(ps),
                lower < upper,
                i <= ps.len(),
                len == pieces_len(ps.subrange(0, i as int)),
                done ==> len >= upper,
                out@ == t.subrange(
                    if lower < len { lower as int } else { len as int },
                    if upper < len { upper as int } else { len as int },
                ),
            decreases ps.len() - i + (if done { 0int } else { 1int }),
        {
            if len >= upper {
                done = true;
            } else {
                let piece = self.pieces[i];
                let ghost pl = len as int;
                proof {
                    lemma_pieces_len_prefix_step(ps, i as int);
                    lemma_pieces_split(o, a, ps, i + 1);
                    assert(piece_ok(o, a, ps[i as int]));
                    lemma_text_boundary(o, a, ps, i as int);
                    lemma_text_boundary(o, a, ps, i + 1);
                    lemma_pieces_split3(o, a, ps.subrange(0, i + 1), i as int);
                    assert(ps.subrange(0, i + 1).subrange(0, i as int) =~= ps.subrange(0, i as int));
                    assert(ps.subrange(0, i + 1).subrange(i + 1, i + 1) =~= Seq::<Piece>::empty());
                    assert(pieces_text(o, a, Seq::<Piece>::empty()) =~= Seq::<u8>::empty());
                    lemma_pieces_single(o, a, piece);
                }
                let prev_len = len;
                len = len + piece.length;
                let source = match piece.source {
                    Source::Original => &self.original,
                    Source::Addition => &self.addition,
                };
                proof {
                    assert(seg(o, a, piece) =~= t.subrange(pl, len as int));
                    assert(source@ == source_bytes(o, a, piece.source));
                }
                let capture_start = lower <= prev_len;
                let capture_end = upper >= len && len > lower;
                let capture_slice = prev_len < lower && upper < len;
                let ghost out0 = out@;
                if !capture_start && capture_end {
                    let start = piece.offset + (lower - prev_len);
                    let end = piece.offset + piece.length;
                    out.extend_from_slice(vstd::slice::slice_subrange(source.as_slice(), start, end));
                    proof {
                        assert(out@ =~= out0 + t.subrange(lower as int, len as int));
                    }
                } else if capture_start && capture_end {
                    out.extend_from_slice(vstd::slice::slice_subrange(source.as_slice(), piece.offset, piece.offset + piece.length));
                    proof {
                        assert(out@ =~= out0 + t.subrange(pl, len as int));
                    }
                } else if capture_start && !capture_end {
                    let start = piece.offset;
                    let end = piece.offset + (upper - prev_len);
                    out.extend_from_slice(vstd::slice::slice_subrange(source.as_slice(), start, end));
                    proof {
                        assert(out@ =~= out0 + t.subrange(pl, upper as int));
                    }
                } else if capture_slice {
                    let start = piece.offset + (lower - prev_len);
                    let end = piece.offset + (upper - prev_len);
                    out.extend_from_slice(vstd::slice::slice_subrange(source.as_slice(), start, end));
                    proof {
                        assert(out@ =~= out0 + t.subrange(lower as int, upper as int));
                    }
                }
                proof {
                    let l2 = if lower < len { lower as int } else { len as int };
                    let u2 = if upper < len { upper as int } else { len as int };
                    assert(out@ =~= t.subrange(l2, u2));
                }
                i = i + 1;
            }
        }
        proof {
            if !done {
                assert(ps.subrange(0, i as int) =~= ps);
            }
            lemma_pieces_split(o, a, ps, i as int);
        }
        out
    }

    /// Returns text stored in the piece table (`upper` is exclusive), cut to
    /// the length of the text.
    pub fn slice_range(&self, lower: usize, upper: usize) -> (s: String)
        requires
            self.wf(),
            lower <= upper,
            valid_utf8(clamped(self.text(), lower as int, upper as int)),
        ensures
            s@ == decode_utf8(clamped(self.text(), lower as int, upper as int)),
    {
        let out = self.slice_bytes(lower, upper);
        match string_from_utf8(out) {
            Some(s) => s,
            None => String::new(),
        }
    }

    /// Returns the whole text stored in the piece table.
    pub fn to_string(&self) -> (s: String)
        requires
            self.wf(),
            valid_utf8(self.text()),
        ensures
            s@ == decode_utf8(self.text()),
    {
        proof {
            lemma_pieces_text_len(self.original@, self.addition@, self.pieces@);
            assert(clamped(self.text(), 0, self.text().len() as int) =~= self.text());
        }
        self.slice_range(0, self.total_length)
    }

    /// Whether `offset` lies in the text, which is UTF-8, at a character
    /// boundary.
    pub fn is_char_boundary(&self, offset: usize) -> (b: bool)
        requires
            self.wf(),
            valid_utf8(self.text()),
        ensures
            b == (offset <= self.text().len() && vstd::utf8::is_char_boundary(self.text(), offset as int)),
    {
        let ghost t = self.text();
        let len = self.len();
        if offset > len {
            return false;
        }
        if offset == len {
            proof {
                vstd::utf8::is_char_boundary_start_end_of_seq(t);
            }
            return true;
        }
        let bytes = self.slice_bytes(offset, offset + 1);
        let byte = bytes[0];
        proof {
            assert(byte == t[offset as int]);
            vstd::utf8::is_char_boundary_iff_not_is_continuation_byte(t, offset as int);
        }
        !(0x80u8 <= byte && byte <= 0xbfu8)
    }

    /// Whether the bytes `lower..upper`, cut to the length of the text, are
    /// valid UTF-8, that is, whether `slice_range` accepts them.
    pub fn is_valid_slice(&self, lower: usize, upper: usize) -> (b: bool)
        requires
            self.wf(),
            lower <= upper,
        ensures
            b == valid_utf8(clamped(self.text(), lower as int, upper as int)),
    {
        let out = self.slice_bytes(lower, upper);
        string_from_utf8(out).is_some()
    }
}

impl Default for PieceTable {
    fn default() -> (t: Self)
        ensures
            t.wf(),
            t.text() == Seq::<u8>::empty(),
            !t.in_commit(),
            t.at_head(),
            t.buffer_len() == 0,
            t.new_history(),
            t.hist().head() == 0,
            t.hist().entries().len() == 1,
    {
        Self::from_bytes(Vec::new())
    }
}

/// A commit that recorded every edit made while it was open is, once ended,
/// undone back to the text it started from, and then redone back to the text
/// it ended with.
pub proof fn lemma_undo_redo_commit(open: PieceTable, ended: PieceTable, undone: PieceTable, redone: PieceTable)
    requires
        open.wf(),
        open.in_commit(),
        open.commit_faithful(),
        open.active_changes().len() > 0,
        open.hist().entries().len() < usize::MAX,
        open.end_commit_post(ended),
        ended.undo_post(undone),
        undone.hot_redo_post(redone),
    ensures
        undone.text() == open.commit_base_text(),
        redone.text() == open.text(),
{
    let h = ended.hist().head();
    assert(ended.hist().entries()[h].previous.is_some());
    assert(undone.entry_before_text(h) == ended.entry_before_text(h));
    assert(undone.faithful(h) == ended.faithful(h));
    assert(undone.entry_after_text(h) == ended.entry_after_text(h));
}

/// The history of a well formed table is a well formed tree, with its head
/// and its number of entries within `usize`.
pub proof fn lemma_hist_wf(t: PieceTable)
    requires
        t.wf(),
    ensures
        t.hist().wf(),
{
}

/// Undo applies at the root of the history, and where the table stands at
/// the head entry's result and that entry's commit recorded every edit made
/// while it was open.
pub proof fn lemma_undo_applicable(t: PieceTable)
    requires
        t.wf(),
        t.hist().entries()[t.hist().head()].previous.is_none() || (t.at_head() && t.faithful(
            t.hist().head(),
        )),
    ensures
        t.undo_applicable(),
{
    let h = t.hist().head();
    if t.hist().entries()[h].previous.is_some() {
        assert(t.entry_ok(h));
        crate::history::lemma_unreplay_replay(t.befores@[h], t.history.entries()[h].commit.changes@);
    }
}

/// Redo applies where the head has no hot path, and where the table stands
/// where the hot path child's commit started (or at the head's result, with
/// the child committed right on top of it) and that commit recorded every
/// edit made while it was open.
pub proof fn lemma_redo_applicable(t: PieceTable)
    requires
        t.wf(),
        match t.hist().entries()[t.hist().head()].hot_path {
            None => true,
            Some(n) => (t.at_before(n as int) || (t.at_head() && t.linked(n as int))) && t.faithful(
                n as int,
            ),
        },
    ensures
        t.redo_applicable(),
{
    let h = t.hist().head();
    match t.hist().entries()[h].hot_path {
        None => {},
        Some(n) => {
            assert(t.entry_ok(n as int));
            assert(t.history.entries()[n as int].previous == Some(h as usize));
            crate::history::lemma_recorded_redo_ok(t.befores@[n as int], t.history.entries()[n as int].commit.changes@);
        },
    }
}

} // verus!
