//! Point-to-point path search over a grid snapshot.
//!
//! The open set is processed in order of path cost so far. Step costs are
//! uniform, so that order is breadth-first: a cell's recorded distance and
//! parent are fixed the first time it is reached, and that first route is
//! already a cheapest one. An estimate of the cost remaining could only
//! reorder cells whose cost so far ties, so none is kept: expansion takes
//! the lowest-cost open cell with ties resolved in insertion order, which
//! makes the search deterministic for a given grid and request.
//!
//! The search succeeds exactly when a walkable four-connected path joins the
//! origin to the destination, and any path it returns is such a path of
//! minimal length.

use std::collections::HashMap;
use vstd::prelude::*;
use vstd::set_lib::lemma_len_subset;

use crate::coords::{adjacent, cell_key, key_of, lemma_key_of_injective, GridCoordinate};
use crate::grid::{is_walkable, MeshGrid, WalkableState};

verus! {

broadcast use vstd::std_specs::hash::group_hash_axioms;

/// A path is valid when it starts at `from`, ends at `to`, every cell on it
/// is walkable in the grid, and each consecutive pair of cells is
/// four-connected.
pub open spec fn valid_path(
    m: Map<u64, WalkableState>,
    p: Seq<GridCoordinate>,
    from: GridCoordinate,
    to: GridCoordinate,
) -> bool {
    &&& p.len() >= 1
    &&& p.first() == from
    &&& p.last() == to
    &&& forall|i: int| 0 <= i < p.len() ==> is_walkable(m, #[trigger] p[i])
    &&& forall|i: int| 0 <= i < p.len() - 1 ==> adjacent(#[trigger] p[i], p[i + 1])
}

/// Whether some walkable four-connected path joins `from` to `to`.
pub open spec fn reachable(
    m: Map<u64, WalkableState>,
    from: GridCoordinate,
    to: GridCoordinate,
) -> bool {
    exists|p: Seq<GridCoordinate>| valid_path(m, p, from, to)
}

/// A valid path that no valid path between the same endpoints undercuts:
/// with uniform step costs, a path of minimal length is a path of minimal
/// cost.
pub open spec fn shortest_path(
    m: Map<u64, WalkableState>,
    p: Seq<GridCoordinate>,
    from: GridCoordinate,
    to: GridCoordinate,
) -> bool {
    &&& valid_path(m, p, from, to)
    &&& forall|q: Seq<GridCoordinate>| #[trigger] valid_path(m, q, from, to) ==> q.len() >= p.len()
}

/// Both endpoints of a valid path are walkable.
pub proof fn lemma_valid_path_endpoints(
    m: Map<u64, WalkableState>,
    p: Seq<GridCoordinate>,
    from: GridCoordinate,
    to: GridCoordinate,
)
    requires
        valid_path(m, p, from, to),
    ensures
        is_walkable(m, from),
        is_walkable(m, to),
{
    assert(is_walkable(m, p[0]));
    assert(is_walkable(m, p[p.len() - 1]));
}

/// Searching twice with an unchanged grid and an identical request yields
/// the same outcome, and on success paths of identical length: both results
/// are forced to be shortest paths between the same endpoints, so neither
/// can undercut the other. (The coordinates themselves may differ when
/// several shortest routes tie.)
pub proof fn lemma_repeated_search_agrees(
    m: Map<u64, WalkableState>,
    from: GridCoordinate,
    to: GridCoordinate,
    r1: Option<Seq<GridCoordinate>>,
    r2: Option<Seq<GridCoordinate>>,
)
    requires
        r1 is Some <==> reachable(m, from, to),
        r2 is Some <==> reachable(m, from, to),
        r1 matches Some(p1) ==> shortest_path(m, p1, from, to),
        r2 matches Some(p2) ==> shortest_path(m, p2, from, to),
    ensures
        r1 is Some <==> r2 is Some,
        r1 is Some && r2 is Some ==> r1.unwrap().len() == r2.unwrap().len(),
{
    if r1 is Some && r2 is Some {
        let p1 = r1.unwrap();
        let p2 = r2.unwrap();
        assert(valid_path(m, p1, from, to));
        assert(valid_path(m, p2, from, to));
        assert(p2.len() >= p1.len());
        assert(p1.len() >= p2.len());
    }
}

/// Search bookkeeping for one reached cell: the cell it was first reached
/// from and the length of that route from the origin. In breadth-first
/// order the first route is a shortest one, so neither field ever needs
/// updating.
#[derive(Clone, Copy)]
struct VisitEntry {
    prev: GridCoordinate,
    dist: usize,
}

/// Whether the search has reached cell `c`.
spec fn vis(v: Map<u64, VisitEntry>, c: GridCoordinate) -> bool {
    v.contains_key(key_of(c))
}

/// The bookkeeping entry of a reached cell.
spec fn entry_of(v: Map<u64, VisitEntry>, c: GridCoordinate) -> VisitEntry {
    v[key_of(c)]
}

/// Whether cell `c` sits somewhere on the open list.
spec fn in_open(q: Seq<GridCoordinate>, c: GridCoordinate) -> bool {
    exists|i: int| 0 <= i < q.len() && q[i] == c
}

/// No cell appears twice on the open list.
spec fn distinct_open(q: Seq<GridCoordinate>) -> bool {
    forall|i: int, j: int| 0 <= i < j < q.len() ==> (#[trigger] q[i]) != (#[trigger] q[j])
}

/// Well-formed visited-set bookkeeping: the origin is reached at distance
/// zero, every reached cell is walkable and known to the grid, and every
/// reached cell other than the origin records an adjacent reached parent one
/// step closer to the origin. Distances stay below the number of reached
/// cells, which bounds them and makes parent chains terminate.
spec fn visits_wf(
    m: Map<u64, WalkableState>,
    v: Map<u64, VisitEntry>,
    from: GridCoordinate,
) -> bool {
    &&& vis(v, from)
    &&& entry_of(v, from).dist == 0
    &&& forall|c: GridCoordinate| #[trigger] vis(v, c) ==> is_walkable(m, c)
    &&& forall|c: GridCoordinate| #[trigger] vis(v, c) ==> entry_of(v, c).dist < v.dom().len()
    &&& forall|c: GridCoordinate|
        #[trigger] vis(v, c) && c != from ==> {
            &&& vis(v, entry_of(v, c).prev)
            &&& adjacent(entry_of(v, c).prev, c)
            &&& entry_of(v, c).dist == entry_of(v, entry_of(v, c).prev).dist + 1
        }
    &&& v.dom().subset_of(m.dom())
}

/// Every cell on the open list is reached, and none appears twice.
spec fn open_wf(v: Map<u64, VisitEntry>, q: Seq<GridCoordinate>) -> bool {
    &&& forall|i: int| 0 <= i < q.len() ==> vis(v, #[trigger] q[i])
    &&& distinct_open(q)
}

/// The open list is kept in breadth-first order: recorded distances never
/// decrease along it and never spread by more than one step.
spec fn open_ordered(v: Map<u64, VisitEntry>, q: Seq<GridCoordinate>) -> bool {
    forall|i: int, j: int|
        0 <= i <= j < q.len() ==> entry_of(v, #[trigger] q[i]).dist <= entry_of(
            v,
            #[trigger] q[j],
        ).dist && entry_of(v, q[j]).dist <= entry_of(v, q[i]).dist + 1
}

/// Recorded distances are minimal: no valid path undercuts the distance at
/// which the search reached a cell.
spec fn dists_minimal(
    m: Map<u64, WalkableState>,
    v: Map<u64, VisitEntry>,
    from: GridCoordinate,
) -> bool {
    forall|c: GridCoordinate, p: Seq<GridCoordinate>|
        #[trigger] vis(v, c) && #[trigger] valid_path(m, p, from, c) ==> p.len() >= entry_of(
            v,
            c,
        ).dist + 1
}

/// Every reached cell off the open list has been fully expanded: it is not
/// the destination (popping the destination ends the search) and each of its
/// walkable neighbours has been reached. The cell `ex`, when given, is the
/// one currently being expanded and is exempt until its neighbours are done.
spec fn closed_expanded(
    m: Map<u64, WalkableState>,
    v: Map<u64, VisitEntry>,
    q: Seq<GridCoordinate>,
    to: GridCoordinate,
    ex: Option<GridCoordinate>,
) -> bool {
    forall|c: GridCoordinate|
        #[trigger] vis(v, c) && !in_open(q, c) && Some(c) != ex ==> c != to && (forall|
            d: GridCoordinate,
        |
            #[trigger] adjacent(c, d) && is_walkable(m, d) ==> vis(v, d))
}

/// Pushing onto the open list keeps every cell that was on it and adds
/// exactly the pushed cell.
proof fn lemma_in_open_push(q: Seq<GridCoordinate>, n: GridCoordinate)
    ensures
        forall|c: GridCoordinate| #[trigger] in_open(q.push(n), c) <==> (in_open(q, c) || n == c),
{
    assert forall|c: GridCoordinate|
        #[trigger] in_open(q.push(n), c) <==> (in_open(q, c) || n == c) by {
        if in_open(q, c) {
            let i = choose|i: int| 0 <= i < q.len() && q[i] == c;
            assert(q.push(n)[i] == c);
        }
        if n == c {
            assert(q.push(n)[q.len() as int] == c);
        }
        if in_open(q.push(n), c) {
            let i = choose|i: int| 0 <= i < q.push(n).len() && q.push(n)[i] == c;
            if i < q.len() {
                assert(q[i] == c);
            } else {
                assert(n == c);
            }
        }
    }
}

/// Removing position `b` from a duplicate-free open list removes exactly the
/// cell stored there, keeps the list duplicate-free, and shifts the later
/// elements down by one.
proof fn lemma_in_open_remove(q: Seq<GridCoordinate>, b: int)
    requires
        0 <= b < q.len(),
        distinct_open(q),
    ensures
        forall|c: GridCoordinate|
            #[trigger] in_open(q.remove(b), c) <==> (in_open(q, c) && c != q[b]),
        distinct_open(q.remove(b)),
        forall|i: int|
            0 <= i < q.remove(b).len() ==> #[trigger] q.remove(b)[i] == (if i < b {
                q[i]
            } else {
                q[i + 1]
            }),
{
    q.remove_ensures(b);
    let qr = q.remove(b);
    assert forall|i: int| 0 <= i < qr.len() implies #[trigger] qr[i] == (if i < b {
        q[i]
    } else {
        q[i + 1]
    }) by {
        if i < b {
            assert(qr[i] == q[i]);
        } else {
            assert(qr[i] == q[i + 1]);
        }
    }
    assert forall|c: GridCoordinate|
        #[trigger] in_open(qr, c) <==> (in_open(q, c) && c != q[b]) by {
        if in_open(qr, c) {
            let i = choose|i: int| 0 <= i < qr.len() && qr[i] == c;
            if i < b {
                assert(q[i] == c);
                assert(q[i] != q[b]);
            } else {
                assert(q[i + 1] == c);
                assert(q[i + 1] != q[b]);
            }
        }
        if in_open(q, c) && c != q[b] {
            let i = choose|i: int| 0 <= i < q.len() && q[i] == c;
            if i < b {
                assert(qr[i] == c);
            } else {
                assert(i != b);
                assert(qr[i - 1] == c);
            }
        }
    }
    assert forall|i: int, j: int| 0 <= i < j < qr.len() implies (#[trigger] qr[i]) != (
    #[trigger] qr[j]) by {
        let iq: int = if i < b { i } else { i + 1 };
        let jq: int = if j < b { j } else { j + 1 };
        assert(qr[i] == q[iq]);
        assert(qr[j] == q[jq]);
        assert(q[iq] != q[jq]);
    }
}

/// A set of reached cells that contains the origin and is closed under
/// stepping to walkable neighbours contains every cell of any valid path
/// out of the origin.
proof fn lemma_path_visited(
    m: Map<u64, WalkableState>,
    v: Map<u64, VisitEntry>,
    from: GridCoordinate,
    to: GridCoordinate,
    p: Seq<GridCoordinate>,
    i: int,
)
    requires
        vis(v, from),
        forall|c: GridCoordinate, d: GridCoordinate|
            #[trigger] vis(v, c) && #[trigger] adjacent(c, d) && is_walkable(m, d) ==> vis(v, d),
        valid_path(m, p, from, to),
        0 <= i < p.len(),
    ensures
        vis(v, p[i]),
    decreases i,
{
    if i == 0 {
        assert(p.first() == from);
    } else {
        lemma_path_visited(m, v, from, to, p, i - 1);
        assert(adjacent(p[i - 1], p[i]));
        assert(is_walkable(m, p[i]));
    }
}

/// On a path whose first cell is reached and whose last cell is not, there
/// is a first unreached cell, and it is not the first one.
proof fn lemma_first_unvisited(v: Map<u64, VisitEntry>, p: Seq<GridCoordinate>, k: int) -> (i: int)
    requires
        0 <= k < p.len(),
        !vis(v, p[p.len() - 1]),
        forall|j: int| 0 <= j < k ==> vis(v, #[trigger] p[j]),
    ensures
        k <= i < p.len(),
        !vis(v, p[i]),
        forall|j: int| 0 <= j < i ==> vis(v, #[trigger] p[j]),
    decreases p.len() - k,
{
    if !vis(v, p[k]) {
        k
    } else {
        assert(k != p.len() - 1);
        lemma_first_unvisited(v, p, k + 1)
    }
}

/// A prefix of a valid path is a valid path to the prefix's last cell.
proof fn lemma_valid_path_prefix(
    m: Map<u64, WalkableState>,
    p: Seq<GridCoordinate>,
    from: GridCoordinate,
    to: GridCoordinate,
    i: int,
)
    requires
        valid_path(m, p, from, to),
        1 <= i <= p.len(),
    ensures
        valid_path(m, p.subrange(0, i), from, p[i - 1]),
{
    let q = p.subrange(0, i);
    assert(q.len() == i);
    assert(q.first() == p[0]);
    assert(q.last() == p[i - 1]);
    assert forall|j: int| 0 <= j < q.len() implies is_walkable(m, #[trigger] q[j]) by {
        assert(q[j] == p[j]);
    }
    assert forall|j: int| 0 <= j < q.len() - 1 implies adjacent(#[trigger] q[j], q[j + 1]) by {
        assert(q[j] == p[j] && q[j + 1] == p[j + 1]);
    }
}

/// Considers the cell one step (`dx`, `dy`) away from the expanded cell `c`:
/// when that neighbour exists, is walkable and has not been reached yet, it
/// is recorded with `c` as its parent, one step farther than `c`, and
/// appended to the open list.
fn visit_neighbor(
    grid: &MeshGrid,
    visited: &mut HashMap<u64, VisitEntry>,
    open: &mut Vec<GridCoordinate>,
    c: GridCoordinate,
    d: usize,
    dx: i32,
    dy: i32,
    to: GridCoordinate,
    from: Ghost<GridCoordinate>,
)
    requires
        visits_wf(grid@, old(visited)@, from@),
        open_wf(old(visited)@, old(open)@),
        closed_expanded(grid@, old(visited)@, old(open)@, to, Some(c)),
        dists_minimal(grid@, old(visited)@, from@),
        forall|i: int|
            0 <= i < old(open)@.len() ==> d <= entry_of(old(visited)@, #[trigger] old(open)@[i]).dist
                <= d + 1,
        vis(old(visited)@, c),
        entry_of(old(visited)@, c).dist == d,
        (dx == 0 && (dy == 1 || dy == -1)) || (dy == 0 && (dx == 1 || dx == -1)),
    ensures
        visits_wf(grid@, final(visited)@, from@),
        open_wf(final(visited)@, final(open)@),
        closed_expanded(grid@, final(visited)@, final(open)@, to, Some(c)),
        dists_minimal(grid@, final(visited)@, from@),
        forall|i: int|
            0 <= i < final(open)@.len() ==> d
                <= entry_of(final(visited)@, #[trigger] final(open)@[i]).dist <= d + 1,
        forall|c2: GridCoordinate|
            #[trigger] vis(old(visited)@, c2) ==> vis(final(visited)@, c2) && entry_of(
                final(visited)@,
                c2,
            ) == entry_of(old(visited)@, c2),
        forall|c2: GridCoordinate|
            #[trigger] in_open(old(open)@, c2) ==> in_open(final(open)@, c2),
        forall|n: GridCoordinate|
            n.x as int == c.x as int + dx as int && n.y as int == c.y as int + dy as int
                && is_walkable(grid@, n) ==> vis(final(visited)@, n),
        forall|i: int| 0 <= i < old(open)@.len() ==> #[trigger] final(open)@[i] == old(open)@[i],
        (final(visited)@ == old(visited)@ && final(open)@ == old(open)@) || (final(visited)@.dom().len()
            == old(visited)@.dom().len() + 1 && final(open)@.len() == old(open)@.len() + 1
            && entry_of(final(visited)@, final(open)@.last()).dist == d + 1),
{
    let nxl: i64 = c.x as i64 + dx as i64;
    let nyl: i64 = c.y as i64 + dy as i64;
    if nxl < i32::MIN as i64 || nxl > i32::MAX as i64 || nyl < i32::MIN as i64 || nyl
        > i32::MAX as i64 {
        return ;
    }
    let n = GridCoordinate { x: nxl as i32, y: nyl as i32 };
    if !grid.walkable(n) {
        return ;
    }
    let k = cell_key(n);
    if visited.contains_key(&k) {
        return ;
    }
    let ghost m = grid@;
    let ghost v0 = visited@;
    let ghost q0 = open@;
    let nv = visited.len();
    assert(d < nv);
    visited.insert(k, VisitEntry { prev: c, dist: d + 1 });
    open.push(n);
    proof {
        let v1 = visited@;
        let q1 = open@;
        assert(v1 == v0.insert(key_of(n), VisitEntry { prev: c, dist: (d + 1) as usize }));
        lemma_in_open_push(q0, n);
        // A cell reached now was either reached before or is exactly `n`.
        assert forall|c2: GridCoordinate| #[trigger] vis(v1, c2) implies vis(v0, c2) || c2 == n by {
            if !vis(v0, c2) {
                assert(v0.dom().insert(key_of(n)).contains(key_of(c2)));
                lemma_key_of_injective(c2, n);
            }
        }
        assert forall|c2: GridCoordinate| #[trigger] vis(v0, c2) implies vis(v1, c2) && entry_of(
            v1,
            c2,
        ) == entry_of(v0, c2) by {
            assert(key_of(c2) != key_of(n));
        }
        assert(vis(v1, n));
        assert(entry_of(v1, n) == VisitEntry { prev: c, dist: (d + 1) as usize });
        assert(n != from@ && n != c);
        assert(v1.dom().len() == v0.dom().len() + 1);
        // Well-formed bookkeeping still holds.
        assert forall|c2: GridCoordinate| #[trigger] vis(v1, c2) implies is_walkable(m, c2)
            && entry_of(v1, c2).dist < v1.dom().len() by {
            if vis(v0, c2) {
            } else {
                assert(c2 == n);
            }
        }
        assert forall|c2: GridCoordinate| #[trigger] vis(v1, c2) && c2 != from@ implies {
            &&& vis(v1, entry_of(v1, c2).prev)
            &&& adjacent(entry_of(v1, c2).prev, c2)
            &&& entry_of(v1, c2).dist == entry_of(v1, entry_of(v1, c2).prev).dist + 1
        } by {
            if vis(v0, c2) {
                assert(vis(v0, entry_of(v0, c2).prev));
            } else {
                assert(c2 == n);
                assert(entry_of(v1, n).prev == c);
                assert(entry_of(v1, c) == entry_of(v0, c));
            }
        }
        assert(visits_wf(m, v1, from@));
        // The open list stays well formed.
        assert forall|i: int| 0 <= i < q1.len() implies vis(v1, #[trigger] q1[i]) by {
            if i < q0.len() {
                assert(q1[i] == q0[i]);
                assert(vis(v0, q0[i]));
            } else {
                assert(q1[i] == n);
            }
        }
        assert forall|i: int, j: int| 0 <= i < j < q1.len() implies (#[trigger] q1[i]) != (
        #[trigger] q1[j]) by {
            if j < q0.len() {
                assert(q1[i] == q0[i] && q1[j] == q0[j]);
            } else {
                assert(q1[j] == n);
                assert(vis(v0, q0[i]));
                assert(q1[i] == q0[i]);
            }
        }
        // Open-list distances stay within one step of the expanded cell.
        assert forall|i: int| 0 <= i < q1.len() implies d <= entry_of(v1, #[trigger] q1[i]).dist
            <= d + 1 by {
            if i < q0.len() {
                assert(q1[i] == q0[i]);
                assert(vis(v0, q0[i]));
                assert(entry_of(v1, q1[i]) == entry_of(v0, q0[i]));
            } else {
                assert(q1[i] == n);
            }
        }
        // Cells off the open list are still expanded, except `c`.
        assert forall|c2: GridCoordinate|
            #[trigger] vis(v1, c2) && !in_open(q1, c2) && Some(c2) != Some(c) implies c2 != to && (
        forall|d2: GridCoordinate|
            #[trigger] adjacent(c2, d2) && is_walkable(m, d2) ==> vis(v1, d2)) by {
            assert(c2 != n);
            assert(vis(v0, c2));
            assert(!in_open(q0, c2));
            assert forall|d2: GridCoordinate|
                #[trigger] adjacent(c2, d2) && is_walkable(m, d2) implies vis(v1, d2) by {
                assert(vis(v0, d2));
            }
        }
        // Distances stay minimal. Only the new cell `n` needs an argument:
        // any valid path to `n` leaves the reached region at some first
        // unreached cell, whose predecessor is either `c` or still open and
        // so lies at least `d` steps out; the path needs one more step to
        // reach that cell and at least one more to reach `n`.
        assert forall|c2: GridCoordinate, p: Seq<GridCoordinate>|
            #[trigger] vis(v1, c2) && #[trigger] valid_path(m, p, from@, c2) implies p.len()
            >= entry_of(v1, c2).dist + 1 by {
            if vis(v0, c2) {
                assert(entry_of(v1, c2) == entry_of(v0, c2));
                assert(p.len() >= entry_of(v0, c2).dist + 1);
            } else {
                assert(c2 == n);
                assert(p.first() == from@ && vis(v0, p[0]));
                assert(!vis(v0, p[p.len() - 1]));
                let i = lemma_first_unvisited(v0, p, 0);
                assert(i >= 1) by {
                    if i == 0 {
                        assert(!vis(v0, p[0]));
                    }
                }
                let prev = p[i - 1];
                assert(vis(v0, prev));
                assert(adjacent(prev, p[i]));
                assert(is_walkable(m, p[i]));
                if prev == c {
                    assert(entry_of(v0, prev).dist == d);
                } else if in_open(q0, prev) {
                    let oi = choose|oi: int| 0 <= oi < q0.len() && q0[oi] == prev;
                    assert(d <= entry_of(v0, q0[oi]).dist);
                } else {
                    // A fully expanded predecessor would already have
                    // reached the path's next cell.
                    assert(vis(v0, p[i]));
                    assert(false);
                }
                assert(entry_of(v0, prev).dist >= d);
                lemma_valid_path_prefix(m, p, from@, c2, i);
                let pre = p.subrange(0, i);
                assert(valid_path(m, pre, from@, prev));
                assert(pre.len() >= entry_of(v0, prev).dist + 1);
                assert(p.len() >= i + 1);
                assert(entry_of(v1, n).dist == d + 1);
            }
        }
    }
}

/// Rebuilds the path from the recorded parent links: walks from the
/// destination back to the origin, then reverses the walk. The result has
/// exactly one cell more than the destination's recorded distance.
fn reconstruct(
    grid: &MeshGrid,
    visited: &HashMap<u64, VisitEntry>,
    from: GridCoordinate,
    to: GridCoordinate,
) -> (r: Vec<GridCoordinate>)
    requires
        visits_wf(grid@, visited@, from),
        vis(visited@, to),
    ensures
        valid_path(grid@, r@, from, to),
        r@.len() == entry_of(visited@, to).dist + 1,
{
    let mut rev: Vec<GridCoordinate> = Vec::new();
    let mut cur = to;
    rev.push(to);
    while cur != from
        invariant
            visits_wf(grid@, visited@, from),
            vis(visited@, cur),
            rev@.len() >= 1,
            rev@.first() == to,
            rev@.last() == cur,
            rev@.len() + entry_of(visited@, cur).dist == entry_of(visited@, to).dist + 1,
            forall|i: int| 0 <= i < rev@.len() ==> is_walkable(grid@, #[trigger] rev@[i]),
            forall|i: int| 0 <= i < rev@.len() - 1 ==> adjacent(rev@[i + 1], #[trigger] rev@[i]),
        decreases entry_of(visited@, cur).dist,
    {
        let e = *visited.get(&cell_key(cur)).unwrap();
        proof {
            assert(vis(visited@, cur) && cur != from);
            assert(e == entry_of(visited@, cur));
        }
        cur = e.prev;
        rev.push(cur);
    }
    let n = rev.len();
    let mut path: Vec<GridCoordinate> = Vec::new();
    let mut i = n;
    while i > 0
        invariant
            i <= n,
            n == rev@.len(),
            path@.len() == n - i,
            forall|j: int| 0 <= j < path@.len() ==> #[trigger] path@[j] == rev@[n - 1 - j],
        decreases i,
    {
        i = i - 1;
        let x = rev[i];
        path.push(x);
    }
    proof {
        assert(path@.len() == rev@.len());
        assert(path@.first() == rev@.last());
        assert(path@.last() == rev@.first());
        assert forall|j: int| 0 <= j < path@.len() implies is_walkable(grid@, #[trigger] path@[j]) by {
            assert(path@[j] == rev@[n - 1 - j]);
        }
        assert forall|j: int| 0 <= j < path@.len() - 1 implies adjacent(
            #[trigger] path@[j],
            path@[j + 1],
        ) by {
            let k = n - 2 - j;
            assert(path@[j] == rev@[k + 1]);
            assert(path@[j + 1] == rev@[k]);
            assert(adjacent(rev@[k + 1], rev@[k]));
        }
    }
    path
}

/// Computes a shortest four-connected route from `from` to `to` on the
/// given grid snapshot, or reports that none exists.
///
/// The result is `Some` exactly when a walkable four-connected path joins
/// the two cells, and any returned path starts at `from`, ends at `to`,
/// steps only across adjacent cells, stays on walkable cells throughout,
/// and is of minimal length among all such paths. The returned path
/// includes the origin cell as its first element.
pub fn find_path(grid: &MeshGrid, from: GridCoordinate, to: GridCoordinate) -> (r: Option<
    Vec<GridCoordinate>,
>)
    ensures
        r is Some <==> reachable(grid@, from, to),
        r matches Some(p) ==> shortest_path(grid@, p@, from, to),
{
    if !grid.walkable(from) || !grid.walkable(to) {
        proof {
            if reachable(grid@, from, to) {
                let p = choose|p: Seq<GridCoordinate>| valid_path(grid@, p, from, to);
                lemma_valid_path_endpoints(grid@, p, from, to);
            }
        }
        return None;
    }
    let mut visited: HashMap<u64, VisitEntry> = HashMap::new();
    let mut open: Vec<GridCoordinate> = Vec::new();
    visited.insert(cell_key(from), VisitEntry { prev: from, dist: 0 });
    open.push(from);
    proof {
        let m = grid@;
        let v = visited@;
        let q = open@;
        assert(q[0] == from);
        assert(in_open(q, from));
        assert forall|c2: GridCoordinate| #[trigger] vis(v, c2) implies c2 == from by {
            assert(Map::<u64, VisitEntry>::empty().dom().insert(key_of(from)).contains(
                key_of(c2),
            ));
            lemma_key_of_injective(c2, from);
        }
        assert(v.dom() =~= Set::<u64>::empty().insert(key_of(from)));
        assert(v.dom().len() == 1);
        assert(visits_wf(m, v, from));
        assert(open_wf(v, q));
        assert(closed_expanded(m, v, q, to, None));
        assert(open_ordered(v, q));
        // Any valid path has at least one cell, so the origin's distance of
        // zero is minimal.
        assert(dists_minimal(m, v, from));
    }
    while open.len() > 0
        invariant
            is_walkable(grid@, from),
            is_walkable(grid@, to),
            visits_wf(grid@, visited@, from),
            open_wf(visited@, open@),
            closed_expanded(grid@, visited@, open@, to, None),
            dists_minimal(grid@, visited@, from),
            open_ordered(visited@, open@),
        decreases grid@.dom().len() - visited@.dom().len(), open.len(),
    {
        let ghost q_pre = open@;
        let c = open.remove(0);
        let ghost dd = entry_of(visited@, c).dist as int;
        proof {
            assert(q_pre[0] == c);
            assert(vis(visited@, c));
            lemma_in_open_remove(q_pre, 0);
            assert forall|i: int| 0 <= i < open@.len() implies vis(visited@, #[trigger] open@[i]) by {
                assert(open@[i] == q_pre[i + 1]);
                assert(vis(visited@, q_pre[i + 1]));
            }
            assert(open_wf(visited@, open@));
            // The popped front had the least recorded distance, so the rest
            // of the list sits between it and one step beyond.
            assert forall|i: int| 0 <= i < open@.len() implies dd <= entry_of(
                visited@,
                #[trigger] open@[i],
            ).dist <= dd + 1 by {
                assert(open@[i] == q_pre[i + 1]);
                assert(entry_of(visited@, q_pre[0]).dist <= entry_of(visited@, q_pre[i + 1]).dist
                    <= entry_of(visited@, q_pre[0]).dist + 1);
            }
            // Every closed cell except possibly `c` is still expanded.
            assert forall|c2: GridCoordinate|
                #[trigger] vis(visited@, c2) && !in_open(open@, c2) && Some(c2) != Some(c) implies
                c2 != to && (forall|d2: GridCoordinate|
                #[trigger] adjacent(c2, d2) && is_walkable(grid@, d2) ==> vis(visited@, d2)) by {
                assert(!in_open(q_pre, c2));
            }
        }
        if c == to {
            let path = reconstruct(grid, &visited, from, to);
            proof {
                assert(path@.len() == entry_of(visited@, to).dist + 1);
                assert forall|q2: Seq<GridCoordinate>|
                    #[trigger] valid_path(grid@, q2, from, to) implies q2.len() >= path@.len() by {
                    assert(vis(visited@, to));
                    assert(q2.len() >= entry_of(visited@, to).dist + 1);
                }
                assert(shortest_path(grid@, path@, from, to));
            }
            return Some(path);
        }
        let e = *visited.get(&cell_key(c)).unwrap();
        let d = e.dist;
        proof {
            assert(e == entry_of(visited@, c));
            assert(d == dd);
        }
        let ghost v0 = visited@;
        let ghost q0 = open@;
        visit_neighbor(grid, &mut visited, &mut open, c, d, 0, 1, to, Ghost(from));
        let ghost v1 = visited@;
        let ghost q1 = open@;
        proof {
            assert forall|k: int| q0.len() <= k < q1.len() implies entry_of(
                v1,
                #[trigger] q1[k],
            ).dist == d + 1 by {
                assert(k == q1.len() - 1);
            }
        }
        visit_neighbor(grid, &mut visited, &mut open, c, d, 0, -1, to, Ghost(from));
        let ghost v2 = visited@;
        let ghost q2 = open@;
        proof {
            assert forall|k: int| q0.len() <= k < q2.len() implies entry_of(
                v2,
                #[trigger] q2[k],
            ).dist == d + 1 by {
                if k < q1.len() {
                    assert(q2[k] == q1[k]);
                    assert(vis(v1, q1[k]));
                    assert(entry_of(v2, q1[k]) == entry_of(v1, q1[k]));
                } else {
                    assert(k == q2.len() - 1);
                }
            }
        }
        visit_neighbor(grid, &mut visited, &mut open, c, d, -1, 0, to, Ghost(from));
        let ghost v3 = visited@;
        let ghost q3 = open@;
        proof {
            assert forall|k: int| q0.len() <= k < q3.len() implies entry_of(
                v3,
                #[trigger] q3[k],
            ).dist == d + 1 by {
                if k < q2.len() {
                    assert(q3[k] == q2[k]);
                    assert(vis(v2, q2[k]));
                    assert(entry_of(v3, q2[k]) == entry_of(v2, q2[k]));
                } else {
                    assert(k == q3.len() - 1);
                }
            }
        }
        visit_neighbor(grid, &mut visited, &mut open, c, d, 1, 0, to, Ghost(from));
        let ghost v4 = visited@;
        let ghost q4 = open@;
        proof {
            let m = grid@;
            assert forall|k: int| q0.len() <= k < q4.len() implies entry_of(
                v4,
                #[trigger] q4[k],
            ).dist == d + 1 by {
                if k < q3.len() {
                    assert(q4[k] == q3[k]);
                    assert(vis(v3, q3[k]));
                    assert(entry_of(v4, q3[k]) == entry_of(v3, q3[k]));
                } else {
                    assert(k == q4.len() - 1);
                }
            }
            // The surviving prefix keeps its old entries.
            assert forall|k: int| 0 <= k < q0.len() implies #[trigger] q4[k] == q0[k] && entry_of(
                v4,
                q0[k],
            ) == entry_of(v0, q0[k]) by {
                assert(q1[k] == q0[k]);
                assert(q2[k] == q1[k]);
                assert(q3[k] == q2[k]);
                assert(q4[k] == q3[k]);
                assert(vis(v0, q0[k]));
            }
            // Breadth-first order survives: the old part sits in [d, d+1]
            // and everything appended sits at exactly d+1.
            assert forall|i: int, j: int| 0 <= i <= j < q4.len() implies entry_of(
                v4,
                #[trigger] q4[i],
            ).dist <= entry_of(v4, #[trigger] q4[j]).dist && entry_of(v4, q4[j]).dist <= entry_of(
                v4,
                q4[i],
            ).dist + 1 by {
                if i < q0.len() {
                    assert(d <= entry_of(v0, q0[i]).dist <= d + 1);
                }
                if j < q0.len() {
                    assert(d <= entry_of(v0, q0[j]).dist <= d + 1);
                    assert(entry_of(v0, q_pre[i + 1]).dist <= entry_of(v0, q_pre[j + 1]).dist);
                }
            }
            assert(open_ordered(v4, q4));
            // All four neighbours of `c` are reached now, so `c` itself is
            // fully expanded and the exemption can be dropped.
            assert forall|d2: GridCoordinate|
                #[trigger] adjacent(c, d2) && is_walkable(m, d2) implies vis(v4, d2) by {
                let ddx = d2.x as int - c.x as int;
                let ddy = d2.y as int - c.y as int;
                if ddx == 0 && ddy == 1 {
                    assert(vis(v1, d2));
                } else if ddx == 0 && ddy == -1 {
                    assert(vis(v2, d2));
                } else if ddx == -1 && ddy == 0 {
                    assert(vis(v3, d2));
                } else {
                    assert(ddx == 1 && ddy == 0);
                    assert(vis(v4, d2));
                }
            }
            assert forall|c2: GridCoordinate|
                #[trigger] vis(v4, c2) && !in_open(q4, c2) implies c2 != to && (forall|
                d2: GridCoordinate,
            |
                #[trigger] adjacent(c2, d2) && is_walkable(m, d2) ==> vis(v4, d2)) by {
                if c2 == c {
                    assert(c != to);
                } else {
                    assert(Some(c2) != Some(c));
                }
            }
            assert(closed_expanded(m, v4, q4, to, None));
            // Termination: either some cell was newly reached, or the open
            // list shrank by the popped entry.
            grid.lemma_dom_finite();
            lemma_len_subset(v4.dom(), m.dom());
            if v4.dom().len() == v0.dom().len() {
                assert(v4 == v0 && q4 == q0);
            } else {
                assert(v4.dom().len() > v0.dom().len());
            }
        }
    }
    proof {
        let m = grid@;
        let v = visited@;
        if reachable(m, from, to) {
            let p = choose|p: Seq<GridCoordinate>| valid_path(m, p, from, to);
            assert forall|c2: GridCoordinate, d2: GridCoordinate|
                #[trigger] vis(v, c2) && #[trigger] adjacent(c2, d2) && is_walkable(m, d2) implies
                vis(v, d2) by {
                assert(!in_open(open@, c2));
            }
            lemma_path_visited(m, v, from, to, p, p.len() - 1);
            assert(vis(v, to));
            assert(!in_open(open@, to));
            assert(false);
        }
    }
    None
}

} // verus!
