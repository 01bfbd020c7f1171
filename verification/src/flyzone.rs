//! Checks made on flight zones before a path finder uses them.
//!
//! A flight zone is a polygon given by its corners; edge `i` runs from corner
//! `i` to corner `i + 1` (the last edge closes the polygon back to corner 0).
//! Whether two edges cross is geometry; the checks here take its answers as
//! a matrix `crosses`, where `crosses[i][j]` tells whether edges `i` and `j`
//! cross; as for any two segments, the answer does not depend on the order
//! the two edges are named in, so the matrix is symmetric.
use vstd::prelude::*;

verus! {

/// Edges `i < j` of a polygon with `n` corners are distinct and share no
/// corner.
pub open spec fn non_adjacent(n: int, i: int, j: int) -> bool {
    &&& 0 <= i
    &&& i + 2 <= j < n
    &&& !(i == 0 && j == n - 1)
}

/// The matrix has one row per edge and one column per edge.
pub open spec fn is_square(m: Seq<Vec<bool>>) -> bool {
    forall|i: int| 0 <= i < m.len() ==> (#[trigger] m[i])@.len() == m.len()
}

/// The matrix can be the crossing table of a polygon: one row and one column
/// per edge, and edge `i` crosses edge `j` exactly when `j` crosses `i`, as
/// segments do.
pub open spec fn is_crossing_table(m: Seq<Vec<bool>>) -> bool {
    is_square(m) && is_symmetric(m)
}

/// Two edges that share no corner cross.
pub open spec fn self_crossing(m: Seq<Vec<bool>>) -> bool {
    exists|i: int, j: int| non_adjacent(m.len() as int, i, j) && #[trigger] m[i]@[j]
}

/// Determines whether a flight zone crosses itself: it compares every edge
/// with every edge after it that shares no corner with it.
pub fn invalid_flyzone(crosses: &Vec<Vec<bool>>) -> (r: bool)
    requires
        crosses@.len() >= 2,
        is_crossing_table(crosses@),
    ensures
        r == self_crossing(crosses@),
        r <==> exists|i: int, j: int|
            0 <= i && i + 2 <= j < crosses@.len() && !(i == 0 && j == crosses@.len() - 1)
                && #[trigger] crosses@[i]@[j],
{
    proof {
        law_crossing_pair_is_self_crossing(crosses@);
    }
    let n = crosses.len();
    let mut ab: usize = 0;
    while ab < n - 2
        invariant
            n == crosses@.len(),
            n >= 2,
            ab <= n - 2,
            is_square(crosses@),
            forall|i: int, j: int|
                0 <= i < ab && non_adjacent(n as int, i, j) ==> !#[trigger] crosses@[i]@[j],
        decreases n - 2 - ab,
    {
        let mut i: usize = 2;
        // Edge `cd` runs through the edges after `ab`, up to the last edge
        // (which shares corner 0 with edge 0, so edge 0 stops one short).
        while i < n - 1 && ab + i < n
            invariant
                n == crosses@.len(),
                n >= 2,
                ab < n - 2,
                2 <= i,
                ab + i <= n,
                is_square(crosses@),
                forall|j: int|
                    ab + 2 <= j < ab + i && j < n ==> !crosses@[ab as int]@[j],
            decreases n - 1 - i,
        {
            let cd = ab + i;
            assert(crosses@[ab as int]@.len() == n);
            if crosses[ab][cd] {
                assert(non_adjacent(n as int, ab as int, cd as int));
                return true;
            }
            i = i + 1;
        }
        assert forall|j: int| non_adjacent(n as int, ab as int, j) implies !#[trigger] crosses@[ab
            as int]@[j] by {
            if ab == 0 {
                assert(j < n - 1);
            }
        }
        ab = ab + 1;
    }
    assert forall|i: int, j: int| non_adjacent(n as int, i, j) implies !#[trigger] crosses@[i]@[j] by {
        assert(i < ab);
    }
    false
}

/// A zone crosses itself exactly when some edge `i` crosses a later edge `j`
/// with which it shares no corner (`j` at least two edges on, and not edge 0
/// with the last edge), whatever the number of edges.
pub proof fn law_crossing_pair_is_self_crossing(m: Seq<Vec<bool>>)
    ensures
        self_crossing(m) <==> exists|i: int, j: int|
            0 <= i && i + 2 <= j < m.len() && !(i == 0 && j == m.len() - 1) && #[trigger] m[i]@[j],
        forall|i: int, j: int|
            0 <= i && i + 2 <= j < m.len() && !(i == 0 && j == m.len() - 1) && #[trigger] m[i]@[j]
                ==> self_crossing(m),
{
    assert forall|i: int, j: int|
        0 <= i && i + 2 <= j < m.len() && !(i == 0 && j == m.len() - 1) && #[trigger] m[i]@[j]
            implies self_crossing(m) by {
        assert(non_adjacent(m.len() as int, i, j));
    }
    if self_crossing(m) {
        let (i, j) = choose|i: int, j: int| non_adjacent(m.len() as int, i, j) && #[trigger] m[i]@[j];
        assert(0 <= i && i + 2 <= j < m.len() && !(i == 0 && j == m.len() - 1) && m[i]@[j]);
    }
}

/// A set of flight zones in which some zone has an edge crossing an edge with
/// which it shares no corner is refused, whatever the number of corners.
pub proof fn law_crossing_zone_is_refused(zones: Seq<Vec<Vec<bool>>>, z: int, i: int, j: int)
    requires
        0 <= z < zones.len(),
        0 <= i,
        i + 2 <= j < zones[z]@.len(),
        !(i == 0 && j == zones[z]@.len() - 1),
        zones[z]@[i]@[j],
    ensures
        flyzones_verdict(zones) is Err,
{
    law_crossing_pair_is_self_crossing(zones[z]@);
    assert(self_crossing(zones[z]@));
}

/// Edges `i` and `j` of a polygon with `n` corners share a corner (or are
/// the same edge).
pub open spec fn touching(n: int, i: int, j: int) -> bool {
    ||| i == j
    ||| j == i + 1
    ||| i == j + 1
    ||| (i == 0 && j == n - 1)
    ||| (j == 0 && i == n - 1)
}

/// Whether edges cross does not depend on the order they are named in.
pub open spec fn is_symmetric(m: Seq<Vec<bool>>) -> bool {
    forall|i: int, j: int|
        0 <= i < m.len() && 0 <= j < m.len() ==> #[trigger] m[i]@[j] == #[trigger] m[j]@[i]
}

/// `m2` describes the polygon of `m` with edge `k` named `p(k)` in `m`.
pub open spec fn renamed(m: Seq<Vec<bool>>, m2: Seq<Vec<bool>>, p: spec_fn(int) -> int) -> bool {
    &&& m2.len() == m.len()
    &&& forall|i: int, j: int|
        0 <= i < m.len() && 0 <= j < m.len() ==> #[trigger] m2[i]@[j] == m[p(i)]@[p(j)]
}

/// Where edge `k` of a polygon with `n` corners came from once its corners
/// are numbered from corner `s` on.
pub open spec fn rotated_edge(n: int, s: int, k: int) -> int {
    if k + s < n {
        k + s
    } else {
        k + s - n
    }
}

/// Where edge `k` of a polygon with `n` corners came from once its corners
/// are numbered the other way round.
pub open spec fn reversed_edge(n: int, k: int) -> int {
    if k <= n - 2 {
        n - 2 - k
    } else {
        n - 1
    }
}

/// Renaming the edges by a permutation that keeps which edges touch keeps
/// whether the polygon crosses itself.
proof fn lemma_renamed(
    m: Seq<Vec<bool>>,
    m2: Seq<Vec<bool>>,
    p: spec_fn(int) -> int,
    q: spec_fn(int) -> int,
)
    requires
        is_square(m),
        is_symmetric(m),
        renamed(m, m2, p),
        forall|k: int| 0 <= k < m.len() ==> 0 <= #[trigger] p(k) < m.len(),
        forall|k: int| 0 <= k < m.len() ==> 0 <= #[trigger] q(k) < m.len() && p(q(k)) == k,
        forall|i: int, j: int|
            0 <= i < m.len() && 0 <= j < m.len() ==> touching(m.len() as int, #[trigger] p(i), #[trigger] p(j))
                == touching(m.len() as int, i, j),
    ensures
        self_crossing(m2) == self_crossing(m),
{
    let n = m.len() as int;
    if self_crossing(m2) {
        let (i, j) = choose|i: int, j: int| non_adjacent(n, i, j) && #[trigger] m2[i]@[j];
        let (a, b) = (p(i), p(j));
        assert(touching(n, a, b) == touching(n, i, j));
        assert(m[a]@[b] == m[b]@[a]);
        if a < b {
            assert(non_adjacent(n, a, b) && m[a]@[b]);
        } else {
            assert(non_adjacent(n, b, a) && m[b]@[a]);
        }
    }
    if self_crossing(m) {
        let (a, b) = choose|a: int, b: int| non_adjacent(n, a, b) && #[trigger] m[a]@[b];
        let (i, j) = (q(a), q(b));
        assert(p(i) == a && p(j) == b);
        assert(touching(n, p(i), p(j)) == touching(n, i, j));
        assert(m2[i]@[j] == m[a]@[b]);
        assert(m2[j]@[i] == m[b]@[a]);
        if i < j {
            assert(non_adjacent(n, i, j) && m2[i]@[j]);
        } else {
            assert(non_adjacent(n, j, i) && m2[j]@[i]);
        }
    }
}

/// A flight zone crosses itself whichever corner its corners are numbered
/// from: `m2` is the crossing matrix of the zone of `m` with its corners
/// numbered from corner `s` on.
pub proof fn law_rotation_keeps_crossing(m: Seq<Vec<bool>>, m2: Seq<Vec<bool>>, s: int)
    requires
        m.len() >= 3,
        is_square(m),
        is_symmetric(m),
        0 <= s < m.len(),
        renamed(m, m2, |k: int| rotated_edge(m.len() as int, s, k)),
    ensures
        self_crossing(m2) == self_crossing(m),
{
    let n = m.len() as int;
    let p = |k: int| rotated_edge(n, s, k);
    let q = |k: int| rotated_edge(n, if s == 0 { 0 } else { n - s }, k);
    assert forall|i: int, j: int|
        0 <= i < n && 0 <= j < n implies touching(n, #[trigger] p(i), #[trigger] p(j)) == touching(n, i, j) by {
    }
    lemma_renamed(m, m2, p, q);
}

/// A flight zone crosses itself whichever way round its corners are
/// numbered: `m2` is the crossing matrix of the zone of `m` with its corners
/// in the reverse order.
pub proof fn law_reversal_keeps_crossing(m: Seq<Vec<bool>>, m2: Seq<Vec<bool>>)
    requires
        m.len() >= 3,
        is_square(m),
        is_symmetric(m),
        renamed(m, m2, |k: int| reversed_edge(m.len() as int, k)),
    ensures
        self_crossing(m2) == self_crossing(m),
{
    let n = m.len() as int;
    let p = |k: int| reversed_edge(n, k);
    assert forall|i: int, j: int|
        0 <= i < n && 0 <= j < n implies touching(n, #[trigger] p(i), #[trigger] p(j)) == touching(n, i, j) by {
    }
    lemma_renamed(m, m2, p, p);
}

/// Why a set of flight zones is refused.
#[derive(Clone, Copy, Debug, PartialEq, Eq, Structural)]
pub enum FlyzoneError {
    /// No flight zone was given.
    NoFlyzone,
    /// The flight zone at this position has fewer than three corners.
    TooFewVertices(usize),
    /// The flight zone at this position crosses itself.
    SelfIntersecting(usize),
}

/// What the checks on the flight zones `zones` (one crossing matrix per zone)
/// conclude: there must be a zone, every zone needs three corners, and no
/// zone may cross itself; the first zone at fault is named.
pub open spec fn flyzones_verdict(zones: Seq<Vec<Vec<bool>>>) -> Result<(), FlyzoneError> {
    if zones.len() == 0 {
        Err(FlyzoneError::NoFlyzone)
    } else if exists|z: int| 0 <= z < zones.len() && (#[trigger] zones[z])@.len() < 3 {
        let z = choose|z: int|
            0 <= z < zones.len() && (#[trigger] zones[z])@.len() < 3 && forall|w: int|
                0 <= w < z ==> zones[w]@.len() >= 3;
        Err(FlyzoneError::TooFewVertices(z as usize))
    } else if exists|z: int| 0 <= z < zones.len() && self_crossing(#[trigger] zones[z]@) {
        let z = choose|z: int|
            0 <= z < zones.len() && self_crossing(#[trigger] zones[z]@) && forall|w: int|
                0 <= w < z ==> !self_crossing(zones[w]@);
        Err(FlyzoneError::SelfIntersecting(z as usize))
    } else {
        Ok(())
    }
}

/// Checks the flight zones a path finder is given: first that there is one
/// and that each has at least three corners, then that none crosses itself.
pub fn check_flyzones(zones: &Vec<Vec<Vec<bool>>>) -> (r: Result<(), FlyzoneError>)
    requires
        forall|z: int| 0 <= z < zones@.len() ==> is_crossing_table(#[trigger] zones@[z]@),
    ensures
        r == flyzones_verdict(zones@),
        r matches Err(FlyzoneError::TooFewVertices(z)) ==> z < zones@.len() && zones@[z as int]@.len()
            < 3 && forall|w: int| 0 <= w < z ==> zones@[w]@.len() >= 3,
        r matches Err(FlyzoneError::SelfIntersecting(z)) ==> z < zones@.len() && self_crossing(
            zones@[z as int]@,
        ) && forall|w: int| 0 <= w < z ==> !self_crossing(zones@[w]@),
        r is Ok <==> zones@.len() > 0 && forall|z: int|
            0 <= z < zones@.len() ==> (#[trigger] zones@[z])@.len() >= 3 && !self_crossing(
                zones@[z]@,
            ),
{
    if zones.len() == 0 {
        return Err(FlyzoneError::NoFlyzone);
    }
    let mut z: usize = 0;
    while z < zones.len()
        invariant
            z <= zones@.len(),
            forall|w: int| 0 <= w < z ==> (#[trigger] zones@[w])@.len() >= 3,
        decreases zones@.len() - z,
    {
        if zones[z].len() < 3 {
            assert(zones@[z as int]@.len() < 3);
            return Err(FlyzoneError::TooFewVertices(z));
        }
        z = z + 1;
    }
    let mut z: usize = 0;
    while z < zones.len()
        invariant
            z <= zones@.len(),
            zones@.len() > 0,
            forall|w: int| 0 <= w < zones@.len() ==> (#[trigger] zones@[w])@.len() >= 3,
            forall|w: int| 0 <= w < zones@.len() ==> is_crossing_table(#[trigger] zones@[w]@),
            forall|w: int| 0 <= w < z ==> !self_crossing(#[trigger] zones@[w]@),
        decreases zones@.len() - z,
    {
        assert(is_crossing_table(zones@[z as int]@));
        if invalid_flyzone(&zones[z]) {
            let ghost zz = z as int;
            assert(exists|w: int| 0 <= w < zones@.len() && self_crossing(#[trigger] zones@[w]@));
            let ghost c = choose|w: int|
                0 <= w < zones@.len() && self_crossing(#[trigger] zones@[w]@) && forall|v: int|
                    0 <= v < w ==> !self_crossing(zones@[v]@);
            assert(c == zz) by {
                if c < zz {
                    assert(!self_crossing(zones@[c]@));
                } else if c > zz {
                    assert(!self_crossing(zones@[zz]@));
                }
            }
            return Err(FlyzoneError::SelfIntersecting(z));
        }
        z = z + 1;
    }
    Ok(())
}

} // verus!
