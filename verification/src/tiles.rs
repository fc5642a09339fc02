use vstd::prelude::*;

use crate::state::WindowId;
use crate::types::{Direction, Pos, Rect};

verus! {

/// The last window of `s` whose rectangle holds `p`: of windows drawn in
/// the order of `s`, the one on top at `p`.
pub open spec fn last_holding(s: Seq<(WindowId, Rect)>, p: Pos) -> Option<WindowId>
    decreases s.len(),
{
    if s.len() == 0 {
        None
    } else if s.last().1.spec_contains(p) {
        Some(s.last().0)
    } else {
        last_holding(s.drop_last(), p)
    }
}

/// The first window of `s` whose rectangle holds `p`.
pub open spec fn first_holding(s: Seq<(WindowId, Rect)>, p: Pos) -> Option<WindowId>
    decreases s.len(),
{
    if s.len() == 0 {
        None
    } else if s[0].1.spec_contains(p) {
        Some(s[0].0)
    } else {
        first_holding(s.drop_first(), p)
    }
}

/// The rectangle of the first window of `s` named `id`.
pub open spec fn rect_of(s: Seq<(WindowId, Rect)>, id: WindowId) -> Option<Rect>
    decreases s.len(),
{
    if s.len() == 0 {
        None
    } else if s[0].0 == id {
        Some(s[0].1)
    } else {
        rect_of(s.drop_first(), id)
    }
}

/// Whether `r` lies in direction `dir` from `from`: its corner is further
/// that way and the two share rows (left, right) or columns (up, down).
pub open spec fn lies_towards(r: Rect, from: Rect, dir: Direction) -> bool {
    let (x, y) = r.spec_intersects(from);
    match dir {
        Direction::Left => r.pos.x < from.pos.x && y,
        Direction::Right => r.pos.x > from.pos.x && y,
        Direction::Up => r.pos.y < from.pos.y && x,
        Direction::Down => r.pos.y > from.pos.y && x,
    }
}

/// Whether window `i` of `s` is one to move to from the window `active`
/// at `from` in direction `dir`.
pub open spec fn is_candidate(s: Seq<(WindowId, Rect)>, i: int, active: WindowId, from: Rect, dir: Direction) -> bool {
    s[i].0 != active && lies_towards(s[i].1, from, dir)
}

/// The window on top at `p`: the last floating window (they are given
/// lowest first) that holds it, else the first tile that does.
pub fn window_at(floating: &Vec<(WindowId, Rect)>, tiles: &Vec<(WindowId, Rect)>, p: Pos) -> (r: Option<WindowId>)
    ensures
        r == (match last_holding(floating@, p) {
            Some(w) => Some(w),
            None => first_holding(tiles@, p),
        }),
{
    let mut i = floating.len();
    proof {
        assert(floating@.take(i as int) =~= floating@);
    }
    while i > 0
        invariant
            i <= floating@.len(),
            last_holding(floating@, p) == last_holding(floating@.take(i as int), p),
        decreases i,
    {
        let ghost pre = floating@.take(i as int);
        i = i - 1;
        proof {
            assert(pre.drop_last() =~= floating@.take(i as int));
            assert(pre.last() == floating@[i as int]);
        }
        if floating[i].1.contains(p) {
            return Some(floating[i].0);
        }
    }
    proof {
        assert(floating@.take(0) =~= Seq::<(WindowId, Rect)>::empty());
    }
    let mut j: usize = 0;
    proof {
        assert(tiles@.skip(0) =~= tiles@);
    }
    while j < tiles.len()
        invariant
            j <= tiles@.len(),
            first_holding(tiles@, p) == first_holding(tiles@.skip(j as int), p),
            last_holding(floating@, p).is_none(),
        decreases tiles@.len() - j,
    {
        proof {
            let rest = tiles@.skip(j as int);
            assert(rest[0] == tiles@[j as int]);
            assert(rest.drop_first() =~= tiles@.skip(j + 1));
        }
        if tiles[j].1.contains(p) {
            return Some(tiles[j].0);
        }
        j = j + 1;
    }
    proof {
        assert(tiles@.skip(j as int) =~= Seq::<(WindowId, Rect)>::empty());
    }
    None
}

/// The rectangle of the first window of `s` named `id`.
fn find_rect(s: &Vec<(WindowId, Rect)>, id: WindowId) -> (r: Option<Rect>)
    ensures
        r == rect_of(s@, id),
{
    let mut j: usize = 0;
    proof {
        assert(s@.skip(0) =~= s@);
    }
    while j < s.len()
        invariant
            j <= s@.len(),
            rect_of(s@, id) == rect_of(s@.skip(j as int), id),
        decreases s@.len() - j,
    {
        proof {
            let rest = s@.skip(j as int);
            assert(rest[0] == s@[j as int]);
            assert(rest.drop_first() =~= s@.skip(j + 1));
        }
        if s[j].0 == id {
            return Some(s[j].1);
        }
        j = j + 1;
    }
    proof {
        assert(s@.skip(j as int) =~= Seq::<(WindowId, Rect)>::empty());
    }
    None
}

/// The tile to move to from the tile `active` in direction `dir`, of the
/// tiles `tiles` with their rectangles: of the other tiles that lie that
/// way, the one whose corner is nearest, the first of them on a tie; none
/// when `active` is not among the tiles or no tile lies that way (a tile at
/// the distance `usize::MAX` counts as none).
pub fn navigate_from(tiles: &Vec<(WindowId, Rect)>, active: WindowId, dir: Direction) -> (r: Option<WindowId>)
    requires
        forall|i: int|
            #![trigger tiles@[i]]
            0 <= i < tiles@.len() ==> match rect_of(tiles@, active) {
                Some(from) => is_candidate(tiles@, i, active, from, dir) ==> tiles@[i].1.spec_distance(from)
                    <= usize::MAX,
                None => true,
            },
    ensures
        match rect_of(tiles@, active) {
            None => r is None,
            Some(from) => {
                &&& (r is None <==> forall|i: int|
                    0 <= i < tiles@.len() && is_candidate(tiles@, i, active, from, dir) ==> #[trigger] tiles@[i].1.spec_distance(
                        from,
                    ) == usize::MAX)
                &&& (r matches Some(w) ==> exists|i: int|
                    {
                        &&& 0 <= i < tiles@.len()
                        &&& is_candidate(tiles@, i, active, from, dir)
                        &&& #[trigger] tiles@[i].0 == w
                        &&& tiles@[i].1.spec_distance(from) < usize::MAX
                        &&& forall|j: int|
                            0 <= j < tiles@.len() && is_candidate(tiles@, j, active, from, dir) ==> tiles@[j].1.spec_distance(from)
                                >= tiles@[i].1.spec_distance(from)
                        &&& forall|j: int|
                            0 <= j < i && is_candidate(tiles@, j, active, from, dir) ==> tiles@[j].1.spec_distance(from)
                                > tiles@[i].1.spec_distance(from)
                    })
            },
        },
{
    let from = match find_rect(tiles, active) {
        Some(r) => r,
        None => {
            return None;
        },
    };
    let mut res: Option<WindowId> = None;
    let mut min: usize = usize::MAX;
    let ghost mut best: int = 0;
    let mut i: usize = 0;
    while i < tiles.len()
        invariant
            i <= tiles@.len(),
            rect_of(tiles@, active) == Some(from),
            forall|k: int|
                0 <= k < tiles@.len() && is_candidate(tiles@, k, active, from, dir) ==> #[trigger] tiles@[k].1.spec_distance(
                    from,
                ) <= usize::MAX,
            forall|k: int|
                0 <= k < i && is_candidate(tiles@, k, active, from, dir) ==> #[trigger] tiles@[k].1.spec_distance(from)
                    >= min,
            res is None ==> min == usize::MAX,
            res matches Some(w) ==> {
                &&& 0 <= best < i
                &&& is_candidate(tiles@, best, active, from, dir)
                &&& tiles@[best].0 == w
                &&& tiles@[best].1.spec_distance(from) == min
                &&& min < usize::MAX
                &&& forall|j: int|
                    0 <= j < best && is_candidate(tiles@, j, active, from, dir) ==> tiles@[j].1.spec_distance(from) > min
            },
        decreases tiles@.len() - i,
    {
        let (id, rect) = tiles[i];
        if id != active {
            let (x, y) = rect.intersects(&from);
            let valid = match dir {
                Direction::Left => rect.pos.x < from.pos.x && y,
                Direction::Right => rect.pos.x > from.pos.x && y,
                Direction::Up => rect.pos.y < from.pos.y && x,
                Direction::Down => rect.pos.y > from.pos.y && x,
            };
            proof {
                assert(valid == is_candidate(tiles@, i as int, active, from, dir));
            }
            if valid {
                let d = rect.distance(&from);
                if d < min {
                    min = d;
                    res = Some(id);
                    proof {
                        best = i as int;
                    }
                }
            }
        }
        i = i + 1;
    }
    proof {
        if res.is_none() {
            assert forall|k: int|
                0 <= k < tiles@.len() && is_candidate(tiles@, k, active, from, dir) implies #[trigger] tiles@[k].1.spec_distance(
                from,
            ) == usize::MAX by {
                assert(tiles@[k].1.spec_distance(from) >= min);
            }
        } else {
            assert(tiles@[best].0 == res.unwrap());
            assert(!(forall|k: int|
                0 <= k < tiles@.len() && is_candidate(tiles@, k, active, from, dir) ==> #[trigger] tiles@[k].1.spec_distance(
                    from,
                ) == usize::MAX)) by {
                assert(is_candidate(tiles@, best, active, from, dir));
                assert(tiles@[best].1.spec_distance(from) < usize::MAX);
            }
        }
    }
    res
}

} // verus!
