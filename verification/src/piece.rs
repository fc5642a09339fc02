use vstd::prelude::*;

verus! {

/// The buffer a `Piece` points into.
#[derive(Clone, Copy, PartialEq, Eq, Structural, Debug)]
pub enum Source {
    /// The read only text the table was created with.
    Original,
    /// The text appended while editing.
    Addition,
}

/// A contiguous run of bytes of one of the two buffers of a piece table.
#[derive(Clone, Copy, PartialEq, Eq, Structural, Debug)]
pub struct Piece {
    pub source: Source,
    /// Offset in the data source.
    pub offset: usize,
    /// Length of pointed at content.
    pub length: usize,
}

impl Piece {
    pub fn new(source: Source, offset: usize, length: usize) -> (p: Self)
        ensures
            p.source == source,
            p.offset == offset,
            p.length == length,
    {
        Self { source, offset, length }
    }
}

/// The bytes of the buffer `s`.
pub open spec fn source_bytes(orig: Seq<u8>, add: Seq<u8>, s: Source) -> Seq<u8> {
    match s {
        Source::Original => orig,
        Source::Addition => add,
    }
}

/// A piece is not empty and lies within the buffer it points into.
pub open spec fn piece_ok(orig: Seq<u8>, add: Seq<u8>, p: Piece) -> bool {
    &&& p.length > 0
    &&& p.offset + p.length <= source_bytes(orig, add, p.source).len()
}

/// Every piece of `ps` lies within its buffer.
pub open spec fn pieces_ok(orig: Seq<u8>, add: Seq<u8>, ps: Seq<Piece>) -> bool {
    forall|i: int| 0 <= i < ps.len() ==> #[trigger] piece_ok(orig, add, ps[i])
}

/// The bytes a single piece stands for.
pub open spec fn seg(orig: Seq<u8>, add: Seq<u8>, p: Piece) -> Seq<u8> {
    source_bytes(orig, add, p.source).subrange(p.offset as int, p.offset + p.length)
}

/// The text a sequence of pieces stands for: the concatenation of their bytes.
pub open spec fn pieces_text(orig: Seq<u8>, add: Seq<u8>, ps: Seq<Piece>) -> Seq<u8>
    decreases ps.len(),
{
    if ps.len() == 0 {
        Seq::empty()
    } else {
        pieces_text(orig, add, ps.drop_last()) + seg(orig, add, ps.last())
    }
}

/// The sum of the lengths of the pieces.
pub open spec fn pieces_len(ps: Seq<Piece>) -> nat
    decreases ps.len(),
{
    if ps.len() == 0 {
        0
    } else {
        pieces_len(ps.drop_last()) + ps.last().length as nat
    }
}

pub proof fn lemma_pieces_len_concat(a: Seq<Piece>, b: Seq<Piece>)
    ensures
        pieces_len(a + b) == pieces_len(a) + pieces_len(b),
    decreases b.len(),
{
    if b.len() == 0 {
        assert(a + b =~= a);
    } else {
        lemma_pieces_len_concat(a, b.drop_last());
        assert((a + b).drop_last() =~= a + b.drop_last());
    }
}

pub proof fn lemma_pieces_text_concat(orig: Seq<u8>, add: Seq<u8>, a: Seq<Piece>, b: Seq<Piece>)
    ensures
        pieces_text(orig, add, a + b) =~= pieces_text(orig, add, a) + pieces_text(orig, add, b),
    decreases b.len(),
{
    if b.len() == 0 {
        assert(a + b =~= a);
    } else {
        lemma_pieces_text_concat(orig, add, a, b.drop_last());
        assert((a + b).drop_last() =~= a + b.drop_last());
    }
}

pub proof fn lemma_pieces_single(orig: Seq<u8>, add: Seq<u8>, p: Piece)
    ensures
        pieces_text(orig, add, seq![p]) =~= seg(orig, add, p),
        pieces_len(seq![p]) == p.length,
{
    let s = seq![p];
    assert(s.drop_last() =~= Seq::<Piece>::empty());
    assert(s.last() == p);
    assert(pieces_len(s.drop_last()) == 0);
    assert(pieces_text(orig, add, s.drop_last()) =~= Seq::<u8>::empty());
}

pub proof fn lemma_pieces_text_len(orig: Seq<u8>, add: Seq<u8>, ps: Seq<Piece>)
    requires
        pieces_ok(orig, add, ps),
    ensures
        pieces_text(orig, add, ps).len() == pieces_len(ps),
    decreases ps.len(),
{
    if ps.len() > 0 {
        assert(piece_ok(orig, add, ps[ps.len() - 1]));
        lemma_pieces_text_len(orig, add, ps.drop_last());
    }
}

/// Growing the addition buffer at its end leaves the text of valid pieces unchanged.
pub proof fn lemma_pieces_text_grow(orig: Seq<u8>, add: Seq<u8>, add2: Seq<u8>, ps: Seq<Piece>)
    requires
        pieces_ok(orig, add, ps),
        add.len() <= add2.len(),
        add2.subrange(0, add.len() as int) =~= add,
    ensures
        pieces_text(orig, add2, ps) =~= pieces_text(orig, add, ps),
        pieces_ok(orig, add2, ps),
    decreases ps.len(),
{
    if ps.len() > 0 {
        let p = ps.last();
        assert(piece_ok(orig, add, ps[ps.len() - 1]));
        lemma_pieces_text_grow(orig, add, add2, ps.drop_last());
        if p.source == Source::Addition {
            assert(seg(orig, add2, p) =~= seg(orig, add, p)) by {
                assert forall|k: int| 0 <= k < p.length implies seg(orig, add2, p)[k] == seg(
                    orig,
                    add,
                    p,
                )[k] by {
                    assert(add2[p.offset + k] == add2.subrange(0, add.len() as int)[p.offset + k]);
                }
            }
        }
        assert forall|i: int| 0 <= i < ps.len() implies #[trigger] piece_ok(orig, add2, ps[i]) by {
            assert(piece_ok(orig, add, ps[i]));
        }
    }
}

/// The length of a prefix of the pieces grows by the length of the next piece.
pub proof fn lemma_pieces_len_prefix_step(ps: Seq<Piece>, i: int)
    requires
        0 <= i < ps.len(),
    ensures
        pieces_len(ps.subrange(0, i + 1)) == pieces_len(ps.subrange(0, i)) + ps[i].length,
{
    assert(ps.subrange(0, i + 1).drop_last() =~= ps.subrange(0, i));
}

/// Splitting the pieces at `i` splits their text and their length.
pub proof fn lemma_pieces_split(orig: Seq<u8>, add: Seq<u8>, ps: Seq<Piece>, i: int)
    requires
        0 <= i <= ps.len(),
    ensures
        pieces_text(orig, add, ps) =~= pieces_text(orig, add, ps.subrange(0, i)) + pieces_text(
            orig,
            add,
            ps.subrange(i, ps.len() as int),
        ),
        pieces_len(ps) == pieces_len(ps.subrange(0, i)) + pieces_len(
            ps.subrange(i, ps.len() as int),
        ),
{
    assert(ps =~= ps.subrange(0, i) + ps.subrange(i, ps.len() as int));
    lemma_pieces_text_concat(orig, add, ps.subrange(0, i), ps.subrange(i, ps.len() as int));
    lemma_pieces_len_concat(ps.subrange(0, i), ps.subrange(i, ps.len() as int));
}

/// The pieces before `i`, the piece at `i`, and the pieces after it.
pub proof fn lemma_pieces_split3(orig: Seq<u8>, add: Seq<u8>, ps: Seq<Piece>, i: int)
    requires
        0 <= i < ps.len(),
    ensures
        pieces_text(orig, add, ps) =~= pieces_text(orig, add, ps.subrange(0, i)) + seg(
            orig,
            add,
            ps[i],
        ) + pieces_text(orig, add, ps.subrange(i + 1, ps.len() as int)),
        pieces_len(ps) == pieces_len(ps.subrange(0, i)) + ps[i].length + pieces_len(
            ps.subrange(i + 1, ps.len() as int),
        ),
{
    let a = ps.subrange(0, i);
    let c = ps.subrange(i + 1, ps.len() as int);
    assert(ps =~= a + seq![ps[i]] + c);
    lemma_pieces_text_concat(orig, add, a + seq![ps[i]], c);
    lemma_pieces_text_concat(orig, add, a, seq![ps[i]]);
    lemma_pieces_len_concat(a + seq![ps[i]], c);
    lemma_pieces_len_concat(a, seq![ps[i]]);
    lemma_pieces_single(orig, add, ps[i]);
}


pub proof fn lemma_pieces_len_insert(ps: Seq<Piece>, i: int, p: Piece)
    requires
        0 <= i <= ps.len(),
    ensures
        pieces_len(ps.insert(i, p)) == pieces_len(ps) + p.length,
{
    let a = ps.subrange(0, i);
    let c = ps.subrange(i, ps.len() as int);
    assert(ps =~= a + c);
    assert(ps.insert(i, p) =~= a + (seq![p] + c));
    lemma_pieces_len_concat(a, c);
    lemma_pieces_len_concat(a, seq![p] + c);
    lemma_pieces_len_concat(seq![p], c);
    lemma_pieces_single(Seq::<u8>::empty(), Seq::<u8>::empty(), p);
}

pub proof fn lemma_pieces_len_remove(ps: Seq<Piece>, i: int)
    requires
        0 <= i < ps.len(),
    ensures
        pieces_len(ps.remove(i)) + ps[i].length == pieces_len(ps),
{
    let a = ps.subrange(0, i);
    let c = ps.subrange(i + 1, ps.len() as int);
    assert(ps =~= a + (seq![ps[i]] + c));
    assert(ps.remove(i) =~= a + c);
    lemma_pieces_len_concat(a, c);
    lemma_pieces_len_concat(a, seq![ps[i]] + c);
    lemma_pieces_len_concat(seq![ps[i]], c);
    lemma_pieces_single(Seq::<u8>::empty(), Seq::<u8>::empty(), ps[i]);
}

} // verus!
