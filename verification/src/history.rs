use vstd::prelude::*;

use crate::piece::{Piece, piece_ok, pieces_len, pieces_ok};

verus! {

/// Whether a recorded change removed or added a piece.
#[derive(Clone, Copy, PartialEq, Eq, Structural, Debug)]
pub enum Kind {
    Deletion,
    Insertion,
}

/// One primitive edit of the piece list: a piece removed from, or added at,
/// a position.
#[derive(Clone, Copy, PartialEq, Eq, Structural, Debug)]
pub struct Change {
    /// Position of the Piece in the `PieceTable` at the time of changing.
    pub pos: usize,
    pub piece: Piece,
    pub kind: Kind,
}

impl Change {
    pub fn new(pos: usize, piece: Piece, kind: Kind) -> (c: Self)
        ensures
            c.pos == pos,
            c.piece == piece,
            c.kind == kind,
    {
        Self { pos, piece, kind }
    }
}

/// The changes recorded between the start and the end of a transaction.
pub struct Commit {
    pub changes: Vec<Change>,
}

impl Commit {
    pub fn new() -> (c: Self)
        ensures
            c.changes@ == Seq::<Change>::empty(),
    {
        Self { changes: Vec::new() }
    }

    pub fn add_change(&mut self, pos: usize, piece: Piece, kind: Kind)
        ensures
            final(self).changes@ == old(self).changes@.push(Change { pos, piece, kind }),
    {
        self.changes.push(Change::new(pos, piece, kind));
    }
}

/// A node of the history tree.
pub struct Entry {
    /// Index of the previous/following (if any) entries in the history.
    pub previous: Option<usize>,
    pub next: Vec<usize>,
    /// Path of last head location. Enables hot redo that greedily redos to the
    /// last head position.
    pub hot_path: Option<usize>,
    pub commit: Commit,
}

impl Entry {
    pub fn new(commit: Commit) -> (e: Self)
        ensures
            e.previous.is_none(),
            e.next@ == Seq::<usize>::empty(),
            e.hot_path.is_none(),
            e.commit == commit,
    {
        Self { previous: None, next: Vec::new(), hot_path: None, commit }
    }
}

/// Manipulation history of a `PieceTable`.
///
/// Creates a tree of changes that can be traversed forward and backward.
pub struct History {
    changes: Vec<Entry>,
    head: usize,
}

impl History {
    /// The entries of the history tree, indexed by their number.
    pub closed spec fn entries(&self) -> Seq<Entry> {
        self.changes@
    }

    /// The entry the history currently stands at.
    pub closed spec fn head(&self) -> int {
        self.head as int
    }

    /// The tree is well formed: the head and every link name an existing
    /// entry, every entry but the root points back to an older entry, and a
    /// hot path or a `next` link leads to a child.
    pub open spec fn wf(&self) -> bool {
        let es = self.entries();
        &&& 1 <= es.len() <= usize::MAX
        &&& 0 <= self.head() < es.len()
        &&& es[0].previous.is_none()
        &&& forall|e: int|
            0 < e < es.len() ==> (#[trigger] es[e]).previous.is_some() && es[e].previous.unwrap()
                < e
        &&& forall|e: int|
            0 <= e < es.len() && (#[trigger] es[e]).hot_path.is_some() ==> {
                let n = es[e].hot_path.unwrap() as int;
                &&& 0 <= n < es.len()
                &&& es[n].previous == Some(e as usize)
            }
        &&& forall|e: int, k: int|
            0 <= e < es.len() && 0 <= k < es[e].next@.len() ==> {
                let n = (#[trigger] es[e].next@[k]) as int;
                &&& 0 <= n < es.len()
                &&& es[n].previous == Some(e as usize)
            }
    }

    pub fn new(commit: Commit) -> (h: Self)
        ensures
            h.wf(),
            h.head() == 0,
            h.entries().len() == 1,
            h.entries()[0].commit == commit,
            h.entries()[0].hot_path.is_none(),
    {
        let mut changes = Vec::new();
        changes.push(Entry::new(commit));
        Self { changes, head: 0 }
    }

    /// The entry the history currently stands at.
    pub fn head_index(&self) -> (h: usize)
        ensures
            h == self.head(),
    {
        self.head
    }

    /// The entry numbered `e`.
    pub fn entry(&self, e: usize) -> (r: &Entry)
        requires
            e < self.entries().len(),
        ensures
            *r == self.entries()[e as int],
    {
        &self.changes[e]
    }

    /// The number of entries of the tree.
    pub fn len(&self) -> (n: usize)
        ensures
            n == self.entries().len(),
    {
        self.changes.len()
    }

    /// Updates the history and adds the latest commit.
    pub fn save(&mut self, commit: Commit)
        requires
            old(self).wf(),
            old(self).entries().len() < usize::MAX,
        ensures
            final(self).wf(),
            final(self).entries().len() == old(self).entries().len() + 1,
            final(self).head() == old(self).entries().len(),
            final(self).entries().last().previous == Some(old(self).head() as usize),
            final(self).entries().last().commit == commit,
            final(self).entries().last().hot_path.is_none(),
            forall|e: int|
                0 <= e < old(self).entries().len() ==> {
                    let ne = #[trigger] final(self).entries()[e];
                    let oe = old(self).entries()[e];
                    &&& ne.commit == oe.commit
                    &&& ne.previous == oe.previous
                    &&& ne.hot_path == oe.hot_path
                },
    {
        let prev_head = self.head;
        self.head = self.changes.len();

        let new_head = self.head;
        let mut prev_entry = self.changes.remove(prev_head);
        prev_entry.next.push(new_head);
        self.changes.insert(prev_head, prev_entry);

        let mut entry = Entry::new(commit);
        entry.previous = Some(prev_head);
        self.changes.push(entry);

        proof {
            let es = self.changes@;
            let os = old(self).changes@;
            assert forall|e: int|
                0 <= e < es.len() && (#[trigger] es[e]).hot_path.is_some() implies {
                let n = es[e].hot_path.unwrap() as int;
                &&& 0 <= n < es.len()
                &&& es[n].previous == Some(e as usize)
            } by {
                assert(os[e].hot_path.is_some());
            }
            assert forall|e: int, k: int| 0 <= e < es.len() && 0 <= k < es[e].next@.len() implies {
                let n = (#[trigger] es[e].next@[k]) as int;
                &&& 0 <= n < es.len()
                &&& es[n].previous == Some(e as usize)
            } by {
                if e != prev_head as int || k < os[e].next@.len() {
                    assert(es[e].next@[k] == os[e].next@[k]);
                }
            }
        }
    }

    /// Undos a commit by updating the history to the new head and returning the
    /// commit.
    pub fn undo(&mut self) -> (r: Option<&Commit>)
        requires
            old(self).wf(),
        ensures
            final(self).wf(),
            match old(self).entries()[old(self).head()].previous {
                None => r.is_none() && *final(self) == *old(self),
                Some(p) => {
                    &&& r == Some(&old(self).entries()[old(self).head()].commit)
                    &&& final(self).head() == p
                    &&& final(self).entries().len() == old(self).entries().len()
                    &&& final(self).entries()[p as int].hot_path == Some(old(self).head() as usize)
                    &&& forall|e: int|
                        0 <= e < old(self).entries().len() ==> {
                            let ne = #[trigger] final(self).entries()[e];
                            let oe = old(self).entries()[e];
                            &&& ne.commit == oe.commit
                            &&& ne.previous == oe.previous
                            &&& (e != p ==> ne.hot_path == oe.hot_path)
                        }
                },
            },
    {
        let prev_head = self.head;
        let previous = self.changes[prev_head].previous;
        match previous {
            None => None,
            Some(p) => {
                self.head = p;
                let mut entry = self.changes.remove(p);
                entry.hot_path = Some(prev_head);
                self.changes.insert(p, entry);
                proof {
                    let es = self.changes@;
                    let os = old(self).changes@;
                    assert forall|e: int|
                        0 <= e < es.len() && (#[trigger] es[e]).hot_path.is_some() implies {
                        let n = es[e].hot_path.unwrap() as int;
                        &&& 0 <= n < es.len()
                        &&& es[n].previous == Some(e as usize)
                    } by {
                        if e != p as int {
                            assert(os[e].hot_path.is_some());
                        }
                    }
                    assert forall|e: int, k: int|
                        0 <= e < es.len() && 0 <= k < es[e].next@.len() implies {
                        let n = (#[trigger] es[e].next@[k]) as int;
                        &&& 0 <= n < es.len()
                        &&& es[n].previous == Some(e as usize)
                    } by {
                        assert(es[e].next@[k] == os[e].next@[k]);
                    }
                }
                Some(&self.changes[prev_head].commit)
            },
        }
    }

    /// Greedily redos on the "hot path", the path of the last head locations.
    pub fn hot_redo(&mut self) -> (r: Option<&Commit>)
        requires
            old(self).wf(),
        ensures
            final(self).wf(),
            final(self).entries() == old(self).entries(),
            match old(self).entries()[old(self).head()].hot_path {
                None => r.is_none() && *final(self) == *old(self),
                Some(n) => {
                    &&& r == Some(&old(self).entries()[n as int].commit)
                    &&& final(self).head() == n
                },
            },
    {
        match self.changes[self.head].hot_path {
            None => None,
            Some(n) => {
                self.head = n;
                Some(&self.changes[n].commit)
            },
        }
    }
}

/// The piece list after one change.
pub open spec fn apply_change(ps: Seq<Piece>, c: Change) -> Seq<Piece> {
    match c.kind {
        Kind::Deletion => ps.remove(c.pos as int),
        Kind::Insertion => ps.insert(c.pos as int, c.piece),
    }
}

/// The piece list before one change.
pub open spec fn unapply_change(ps: Seq<Piece>, c: Change) -> Seq<Piece> {
    match c.kind {
        Kind::Deletion => ps.insert(c.pos as int, c.piece),
        Kind::Insertion => ps.remove(c.pos as int),
    }
}

/// Applying a change stays within the piece list.
pub open spec fn change_in_bounds(ps: Seq<Piece>, c: Change) -> bool {
    match c.kind {
        Kind::Deletion => c.pos < ps.len(),
        Kind::Insertion => c.pos <= ps.len(),
    }
}

/// Reverting a change stays within the piece list.
pub open spec fn unchange_in_bounds(ps: Seq<Piece>, c: Change) -> bool {
    match c.kind {
        Kind::Deletion => c.pos <= ps.len(),
        Kind::Insertion => c.pos < ps.len(),
    }
}

/// The piece list after the changes, applied in order.
pub open spec fn replay(ps: Seq<Piece>, cs: Seq<Change>) -> Seq<Piece>
    decreases cs.len(),
{
    if cs.len() == 0 {
        ps
    } else {
        apply_change(replay(ps, cs.drop_last()), cs.last())
    }
}

/// The piece list before the changes, reverted from the last to the first.
pub open spec fn unreplay(ps: Seq<Piece>, cs: Seq<Change>) -> Seq<Piece>
    decreases cs.len(),
{
    if cs.len() == 0 {
        ps
    } else {
        unreplay(unapply_change(ps, cs.last()), cs.drop_last())
    }
}

/// Replaying the changes in order stays within the piece list and keeps the
/// total length of the pieces within `usize`.
pub open spec fn redo_ok(ps: Seq<Piece>, cs: Seq<Change>) -> bool
    decreases cs.len(),
{
    if cs.len() == 0 {
        pieces_len(ps) <= usize::MAX
    } else {
        &&& redo_ok(ps, cs.drop_last())
        &&& change_in_bounds(replay(ps, cs.drop_last()), cs.last())
        &&& pieces_len(replay(ps, cs)) <= usize::MAX
    }
}

/// Reverting the changes from the last to the first stays within the piece
/// list and keeps the total length of the pieces within `usize`.
pub open spec fn undo_ok(ps: Seq<Piece>, cs: Seq<Change>) -> bool
    decreases cs.len(),
{
    if cs.len() == 0 {
        true
    } else {
        &&& unchange_in_bounds(ps, cs.last())
        &&& pieces_len(unapply_change(ps, cs.last())) <= usize::MAX
        &&& undo_ok(unapply_change(ps, cs.last()), cs.drop_last())
    }
}

/// The changes are a faithful record of edits made to `ps`: they replay
/// within bounds, and every deletion names the piece it removed.
pub open spec fn recorded(ps: Seq<Piece>, cs: Seq<Change>) -> bool
    decreases cs.len(),
{
    if cs.len() == 0 {
        pieces_len(ps) <= usize::MAX
    } else {
        &&& recorded(ps, cs.drop_last())
        &&& change_in_bounds(replay(ps, cs.drop_last()), cs.last())
        &&& (cs.last().kind == Kind::Deletion ==> replay(ps, cs.drop_last())[cs.last().pos as int]
            == cs.last().piece)
        &&& pieces_len(replay(ps, cs)) <= usize::MAX
    }
}

/// Every piece named by the changes lies within its buffer.
pub open spec fn changes_ok(orig: Seq<u8>, add: Seq<u8>, cs: Seq<Change>) -> bool {
    forall|k: int| 0 <= k < cs.len() ==> #[trigger] piece_ok(orig, add, cs[k].piece)
}

pub proof fn lemma_recorded_redo_ok(ps: Seq<Piece>, cs: Seq<Change>)
    requires
        recorded(ps, cs),
    ensures
        redo_ok(ps, cs),
    decreases cs.len(),
{
    if cs.len() > 0 {
        lemma_recorded_redo_ok(ps, cs.drop_last());
    }
}

pub proof fn lemma_recorded_start_len(ps: Seq<Piece>, cs: Seq<Change>)
    requires
        recorded(ps, cs),
    ensures
        pieces_len(ps) <= usize::MAX,
    decreases cs.len(),
{
    if cs.len() > 0 {
        lemma_recorded_start_len(ps, cs.drop_last());
    }
}

pub proof fn lemma_recorded_end_len(ps: Seq<Piece>, cs: Seq<Change>)
    requires
        recorded(ps, cs),
    ensures
        pieces_len(replay(ps, cs)) <= usize::MAX,
{
    if cs.len() == 0 {
        assert(replay(ps, cs) == ps);
    }
}

/// Reverting a faithful record of changes restores the piece list they were
/// made to, and stays within bounds on the way.
pub proof fn lemma_unreplay_replay(ps: Seq<Piece>, cs: Seq<Change>)
    requires
        recorded(ps, cs),
    ensures
        undo_ok(replay(ps, cs), cs),
        unreplay(replay(ps, cs), cs) == ps,
    decreases cs.len(),
{
    if cs.len() > 0 {
        let init = cs.drop_last();
        let c = cs.last();
        let ps1 = replay(ps, init);
        let ps2 = apply_change(ps1, c);
        lemma_unreplay_replay(ps, init);
        assert(unapply_change(ps2, c) =~= ps1);
        lemma_recorded_end_len(ps, init);
    }
}

/// A replayable record stays replayable on every prefix.
pub proof fn lemma_redo_ok_prefix(ps: Seq<Piece>, cs: Seq<Change>, i: int)
    requires
        redo_ok(ps, cs),
        0 <= i <= cs.len(),
    ensures
        redo_ok(ps, cs.subrange(0, i)),
    decreases cs.len(),
{
    if i < cs.len() {
        assert(cs.drop_last() =~= cs.subrange(0, cs.len() - 1));
        lemma_redo_ok_prefix(ps, cs.drop_last(), i);
        assert(cs.drop_last().subrange(0, i) =~= cs.subrange(0, i));
    } else {
        assert(cs.subrange(0, i) =~= cs);
    }
}

/// Reverting changes whose pieces are valid yields valid pieces.
pub proof fn lemma_unreplay_ok(orig: Seq<u8>, add: Seq<u8>, ps: Seq<Piece>, cs: Seq<Change>)
    requires
        pieces_ok(orig, add, ps),
        changes_ok(orig, add, cs),
        undo_ok(ps, cs),
    ensures
        pieces_ok(orig, add, unreplay(ps, cs)),
    decreases cs.len(),
{
    if cs.len() > 0 {
        let c = cs.last();
        let ps1 = unapply_change(ps, c);
        assert(piece_ok(orig, add, cs[cs.len() - 1].piece));
        assert forall|i: int| 0 <= i < ps1.len() implies #[trigger] piece_ok(orig, add, ps1[i]) by {
            match c.kind {
                Kind::Deletion => {
                    if i < c.pos {
                        assert(piece_ok(orig, add, ps[i]));
                    } else if i > c.pos {
                        assert(piece_ok(orig, add, ps[i - 1]));
                    }
                },
                Kind::Insertion => {
                    if i < c.pos {
                        assert(piece_ok(orig, add, ps[i]));
                    } else {
                        assert(piece_ok(orig, add, ps[i + 1]));
                    }
                },
            }
        }
        assert forall|k: int| 0 <= k < cs.drop_last().len() implies #[trigger] piece_ok(
            orig,
            add,
            cs.drop_last()[k].piece,
        ) by {
            assert(piece_ok(orig, add, cs[k].piece));
        }
        lemma_unreplay_ok(orig, add, ps1, cs.drop_last());
    }
}

/// Replaying changes whose pieces are valid yields valid pieces.
pub proof fn lemma_replay_ok(orig: Seq<u8>, add: Seq<u8>, ps: Seq<Piece>, cs: Seq<Change>)
    requires
        pieces_ok(orig, add, ps),
        changes_ok(orig, add, cs),
        redo_ok(ps, cs),
    ensures
        pieces_ok(orig, add, replay(ps, cs)),
    decreases cs.len(),
{
    if cs.len() > 0 {
        let c = cs.last();
        assert forall|k: int| 0 <= k < cs.drop_last().len() implies #[trigger] piece_ok(
            orig,
            add,
            cs.drop_last()[k].piece,
        ) by {
            assert(piece_ok(orig, add, cs[k].piece));
        }
        lemma_replay_ok(orig, add, ps, cs.drop_last());
        let ps0 = replay(ps, cs.drop_last());
        let ps1 = apply_change(ps0, c);
        assert(piece_ok(orig, add, cs[cs.len() - 1].piece));
        assert forall|i: int| 0 <= i < ps1.len() implies #[trigger] piece_ok(orig, add, ps1[i]) by {
            match c.kind {
                Kind::Deletion => {
                    if i < c.pos {
                        assert(piece_ok(orig, add, ps0[i]));
                    } else {
                        assert(piece_ok(orig, add, ps0[i + 1]));
                    }
                },
                Kind::Insertion => {
                    if i < c.pos {
                        assert(piece_ok(orig, add, ps0[i]));
                    } else if i > c.pos {
                        assert(piece_ok(orig, add, ps0[i - 1]));
                    }
                },
            }
        }
    }
}


/// A faithful record grows by one more faithful change.
pub proof fn lemma_recorded_push(ps: Seq<Piece>, cs: Seq<Change>, c: Change)
    requires
        recorded(ps, cs),
        change_in_bounds(replay(ps, cs), c),
        c.kind == Kind::Deletion ==> replay(ps, cs)[c.pos as int] == c.piece,
        pieces_len(apply_change(replay(ps, cs), c)) <= usize::MAX,
    ensures
        recorded(ps, cs.push(c)),
        replay(ps, cs.push(c)) == apply_change(replay(ps, cs), c),
{
    assert(cs.push(c).drop_last() =~= cs);
}

/// Two faithful records, one after the other, make one.
pub proof fn lemma_recorded_concat(ps: Seq<Piece>, cs1: Seq<Change>, cs2: Seq<Change>)
    requires
        recorded(ps, cs1),
        recorded(replay(ps, cs1), cs2),
    ensures
        recorded(ps, cs1 + cs2),
        replay(ps, cs1 + cs2) == replay(replay(ps, cs1), cs2),
    decreases cs2.len(),
{
    if cs2.len() == 0 {
        assert(cs1 + cs2 =~= cs1);
    } else {
        lemma_recorded_concat(ps, cs1, cs2.drop_last());
        assert((cs1 + cs2).drop_last() =~= cs1 + cs2.drop_last());
        assert((cs1 + cs2).last() == cs2.last());
    }
}

/// The empty record of a piece list whose length fits.
pub proof fn lemma_recorded_empty(ps: Seq<Piece>)
    requires
        pieces_len(ps) <= usize::MAX,
    ensures
        recorded(ps, Seq::<Change>::empty()),
        replay(ps, Seq::<Change>::empty()) == ps,
{
}

} // verus!
