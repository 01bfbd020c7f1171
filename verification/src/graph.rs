//! The search graph: vertices laid around obstacle nodes, linked by
//! tangent connections and by the ring of vertices around each node.
//!
//! Vertices live in an arena (`Vec<Vertex>`) and refer to one another by
//! their slot in it. Distances and costs are integers in one fixed unit of
//! length; whoever builds the graph converts the geometry into that unit.
use vstd::prelude::*;

verus! {

/// Index of the vertex a search starts from.
pub const START_VERTEX_INDEX: i32 = -1;

/// Index of every vertex that stands at the destination.
pub const END_VERTEX_INDEX: i32 = -2;

/// Index of the header vertex that opens the ring of vertices around a node.
pub const HEADER_VERTEX_INDEX: i32 = -3;

/// A connection between two nodes: the tangent from one vertex to a vertex
/// of another node, with its length.
#[derive(Clone, Copy, Debug)]
pub struct Connection {
    /// Slot of the vertex the tangent leads to.
    pub neighbor: usize,
    /// Length of the tangent.
    pub distance: u64,
    /// Starting and ending vertices must be above this altitude to take the
    /// connection.
    pub threshold: u64,
}

impl Connection {
    /// A connection to the vertex in slot `neighbor`.
    pub fn new(neighbor: usize, distance: u64, threshold: u64) -> (c: Self)
        ensures
            c.neighbor == neighbor,
            c.distance == distance,
            c.threshold == threshold,
    {
        Self { neighbor, distance, threshold }
    }
}

/// A vertex of the search graph.
#[derive(Clone, Copy, Debug)]
pub struct Vertex {
    /// Identifier of the vertex; `START_VERTEX_INDEX`, `END_VERTEX_INDEX` and
    /// `HEADER_VERTEX_INDEX` mark the special vertices.
    pub index: i32,
    /// Altitude of the vertex.
    pub altitude: u64,
    /// Cost of the best route found so far from the start.
    pub g_cost: u64,
    /// Estimated cost of a whole route through this vertex: `g_cost` plus
    /// `heuristic`.
    pub f_cost: u128,
    /// Estimated distance from this vertex to the destination.
    pub heuristic: u64,
    /// Length of the arc from this vertex to the next one around its node.
    pub neighbor_weight: u64,
    /// A sentinel vertex is never entered by a search.
    pub sentinel: bool,
    /// Slot of the vertex this one was reached from.
    pub parent: Option<usize>,
    /// Tangent leaving this vertex, if any.
    pub connection: Option<Connection>,
    /// Slot of the next vertex around the same node, if any.
    pub next: Option<usize>,
}

impl Vertex {
    /// A vertex not yet reached by a search, with the given links; it takes
    /// its index from the counter `index`, which moves on by one.
    pub fn new(
        index: &mut i32,
        altitude: u64,
        heuristic: u64,
        neighbor_weight: u64,
        sentinel: bool,
        connection: Option<Connection>,
        next: Option<usize>,
    ) -> (v: Self)
        requires
            *old(index) < i32::MAX,
        ensures
            v.index == *old(index),
            *final(index) == *old(index) + 1,
            v.altitude == altitude,
            v.g_cost == 0,
            v.f_cost == 0,
            v.heuristic == heuristic,
            v.neighbor_weight == neighbor_weight,
            v.sentinel == sentinel,
            v.parent.is_none(),
            v.connection == connection,
            v.next == next,
    {
        let v = Vertex {
            index: *index,
            altitude,
            g_cost: 0,
            f_cost: 0,
            heuristic,
            neighbor_weight,
            sentinel,
            parent: None,
            connection,
            next,
        };
        *index = *index + 1;
        v
    }

    /// Length of the arc from this vertex to the next one around its node.
    pub fn get_neighbor_weight(&self) -> (w: u64)
        ensures
            w == self.neighbor_weight,
    {
        self.neighbor_weight
    }
}

/// Every link of every vertex names a slot of the arena.
pub open spec fn links_ok(g: Seq<Vertex>) -> bool {
    forall|s: int|
        0 <= s < g.len() ==> {
            &&& (#[trigger] g[s]).next matches Some(n) ==> n < g.len()
            &&& g[s].connection matches Some(c) ==> c.neighbor < g.len()
        }
}

/// The two arenas hold the same graph: they differ at most in the costs and
/// parents that a search writes.
pub open spec fn same_graph(g0: Seq<Vertex>, g: Seq<Vertex>) -> bool {
    &&& g0.len() == g.len()
    &&& forall|s: int|
        0 <= s < g.len() ==> {
            &&& (#[trigger] g[s]).index == g0[s].index
            &&& g[s].altitude == g0[s].altitude
            &&& g[s].heuristic == g0[s].heuristic
            &&& g[s].neighbor_weight == g0[s].neighbor_weight
            &&& g[s].sentinel == g0[s].sentinel
            &&& g[s].connection == g0[s].connection
            &&& g[s].next == g0[s].next
        }
}

/// A search moves from `u` to `v` at cost `c`: along the tangent of `u`
/// when both its ends are above the tangent's threshold, to the next vertex
/// around the node, or past the node's header vertex to the one after it.
pub open spec fn step(g: Seq<Vertex>, u: int, v: int, c: int) -> bool {
    ||| g[u].connection matches Some(cn) && cn.neighbor == v && c == cn.distance
        && g[u].altitude > cn.threshold && g[v].altitude > cn.threshold
    ||| g[u].next matches Some(n) && n == v && g[v].index != HEADER_VERTEX_INDEX && c
        == g[u].neighbor_weight
    ||| g[u].next matches Some(h) && g[h as int].index == HEADER_VERTEX_INDEX && g[h as int].next
        is Some && g[h as int].next.unwrap() == v && c == g[u].neighbor_weight.saturating_add(
        g[h as int].neighbor_weight,
    )
}

/// `a + b`, capped at the largest `u64`.
pub open spec fn sat_add(a: int, b: int) -> int {
    if a + b > u64::MAX {
        u64::MAX as int
    } else {
        a + b
    }
}

/// `w` is a walk whose `i`-th step, from `w[i]` to `w[i + 1]`, costs `cs[i]`;
/// no vertex after the first is a sentinel.
pub open spec fn is_costed_walk(g: Seq<Vertex>, w: Seq<usize>, cs: Seq<int>) -> bool {
    &&& w.len() >= 1
    &&& cs.len() == w.len() - 1
    &&& forall|i: int| 0 <= i < w.len() ==> #[trigger] w[i] < g.len()
    &&& forall|i: int| 0 <= i < cs.len() ==> step(g, w[i] as int, w[i + 1] as int, #[trigger] cs[i])
    &&& forall|i: int| 1 <= i < w.len() ==> !(#[trigger] g[w[i] as int]).sentinel
}

/// Cost of a walk: the cost its first vertex starts with, plus the cost of
/// each step, capped at the largest `u64`.
pub open spec fn walk_cost(g: Seq<Vertex>, w: Seq<usize>, cs: Seq<int>) -> int
    decreases cs.len(),
{
    if cs.len() == 0 {
        g[w[0] as int].g_cost as int
    } else {
        sat_add(walk_cost(g, w.drop_last(), cs.drop_last()), cs.last())
    }
}

/// The heuristic never overestimates a step (it drops by at most the cost of
/// the step) and is zero at the destination.
pub open spec fn consistent(g: Seq<Vertex>) -> bool {
    &&& forall|u: int, v: int, c: int|
        0 <= u < g.len() && #[trigger] step(g, u, v, c) ==> g[u].heuristic <= c + g[v].heuristic
    &&& forall|v: int|
        0 <= v < g.len() && (#[trigger] g[v]).index == END_VERTEX_INDEX ==> g[v].heuristic == 0
}

/// Some step leads from `u` to `v`.
pub open spec fn steps_to(g: Seq<Vertex>, u: int, v: int) -> bool {
    exists|c: int| #[trigger] step(g, u, v, c)
}

/// `w` is a walk of the graph: each vertex after the first is entered from
/// the one before by a step, and none of them is a sentinel.
pub open spec fn is_walk(g: Seq<Vertex>, w: Seq<usize>) -> bool {
    &&& forall|i: int| 0 <= i < w.len() ==> #[trigger] w[i] < g.len()
    &&& forall|i: int|
        #![trigger w[i]]
        0 <= i < w.len() - 1 ==> steps_to(g, w[i] as int, w[i + 1] as int)
    &&& forall|i: int| 1 <= i < w.len() ==> !(#[trigger] g[w[i] as int]).sentinel
}

/// Vertex `v` can be reached by a walk that begins at one of the vertices in
/// `init`.
pub open spec fn reachable_from(g: Seq<Vertex>, init: Seq<usize>, v: usize) -> bool {
    exists|w: Seq<usize>|
        {
            &&& w.len() >= 1
            &&& init.contains(w[0])
            &&& is_walk(g, w)
            &&& #[trigger] w.last() == v
        }
}

/// Some vertex at the destination can be reached by a walk that begins at one
/// of the vertices in `init`.
pub open spec fn end_reachable(g: Seq<Vertex>, init: Seq<usize>) -> bool {
    exists|w: Seq<usize>|
        {
            &&& w.len() >= 1
            &&& init.contains(w[0])
            &&& is_walk(g, w)
            &&& #[trigger] g[w.last() as int].index == END_VERTEX_INDEX
        }
}

/// No two vertices share an index, except vertices at the destination and
/// node headers; no step leads into a header, and no search starts at one.
pub open spec fn distinct_indices(g: Seq<Vertex>, init: Seq<usize>) -> bool {
    &&& forall|s: int, t: int|
        0 <= s < g.len() && 0 <= t < g.len() && s != t && #[trigger] g[s].index
            == #[trigger] g[t].index ==> g[s].index == END_VERTEX_INDEX || g[s].index
            == HEADER_VERTEX_INDEX
    &&& forall|u: int, v: int, c: int|
        0 <= u < g.len() && #[trigger] step(g, u, v, c) ==> g[v].index != HEADER_VERTEX_INDEX
    &&& forall|i: int|
        0 <= i < init.len() ==> g[#[trigger] init[i] as int].index != HEADER_VERTEX_INDEX
}

/// Every header that some vertex names as its next one has a next vertex.
pub open spec fn headers_linked(g: Seq<Vertex>) -> bool {
    forall|s: int|
        0 <= s < g.len() ==> ((#[trigger] g[s]).next matches Some(h) ==> (g[h as int].index
            == HEADER_VERTEX_INDEX ==> g[h as int].next is Some))
}

/// The vertex after the `k`-th one of `ring` around its node: the next one in
/// `ring`, or the header after the last one.
pub open spec fn ring_next(ring: Seq<usize>, header: usize, k: int) -> usize {
    if k + 1 < ring.len() {
        ring[k + 1]
    } else {
        header
    }
}

/// Round a ring, each vertex but the last is followed by the one after it in
/// the ring, and the last one by the header.
pub proof fn law_ring_next(ring: Seq<usize>, header: usize)
    ensures
        forall|k: int| 0 <= k && k + 1 < ring.len() ==> #[trigger] ring_next(ring, header, k) == ring[k + 1],
        ring.len() >= 1 ==> ring_next(ring, header, ring.len() - 1) == header,
{
}

/// `b` is `a` with `next` as its next vertex and `w` as the length of the arc
/// to it.
pub open spec fn relinked(a: Vertex, b: Vertex, next: usize, w: u64) -> bool {
    &&& b.next == Some(next)
    &&& b.neighbor_weight == w
    &&& b.index == a.index
    &&& b.altitude == a.altitude
    &&& b.g_cost == a.g_cost
    &&& b.f_cost == a.f_cost
    &&& b.heuristic == a.heuristic
    &&& b.sentinel == a.sentinel
    &&& b.parent == a.parent
    &&& b.connection == a.connection
}

/// Closes the ring of vertices around a node, given in order round the node
/// as the slots `ring`: a new header vertex, at `altitude` and pushed at the
/// end of the arena, leads to the first vertex of `ring` along an arc of
/// length `first_arc`; each vertex of `ring` leads to the next one, and the
/// last one back to the header, `arcs[k]` being the length of the arc from
/// `ring[k]`. Returns the slot of the header.
pub fn link_ring(
    g: &mut Vec<Vertex>,
    ring: &Vec<usize>,
    arcs: &Vec<u64>,
    first_arc: u64,
    altitude: u64,
) -> (header: usize)
    requires
        ring@.len() >= 1,
        arcs@.len() == ring@.len(),
        ring@.no_duplicates(),
        forall|k: int| 0 <= k < ring@.len() ==> #[trigger] ring@[k] < old(g)@.len(),
        old(g)@.len() < usize::MAX,
    ensures
        header == old(g)@.len(),
        final(g)@.len() == old(g)@.len() + 1,
        final(g)@[header as int] == (Vertex {
            index: HEADER_VERTEX_INDEX,
            altitude,
            g_cost: 0,
            f_cost: 0,
            heuristic: 0,
            neighbor_weight: first_arc,
            sentinel: false,
            parent: None,
            connection: None,
            next: Some(ring@[0]),
        }),
        forall|k: int|
            0 <= k < ring@.len() ==> relinked(
                old(g)@[ring@[k] as int],
                #[trigger] final(g)@[ring@[k] as int],
                ring_next(ring@, header, k),
                arcs@[k],
            ),
        forall|k: int|
            0 <= k && k + 1 < ring@.len() ==> (#[trigger] final(g)@[ring@[k] as int]).next == Some(
                ring@[k + 1],
            ),
        final(g)@[ring@[ring@.len() - 1] as int].next == Some(header),
        forall|k: int|
            0 <= k < ring@.len() ==> (#[trigger] final(g)@[ring@[k] as int]).neighbor_weight
                == arcs@[k],
        forall|s: int|
            0 <= s < old(g)@.len() && !ring@.contains(s as usize) ==> #[trigger] final(g)@[s]
                == old(g)@[s],
        links_ok(old(g)@) ==> links_ok(final(g)@),
        links_ok(old(g)@) && headers_linked(old(g)@) ==> headers_linked(final(g)@),
{
    let ghost g0 = g@;
    let header = g.len();
    let mut idx = HEADER_VERTEX_INDEX;
    let hv = Vertex::new(&mut idx, altitude, 0, first_arc, false, None, Some(ring[0]));
    g.push(hv);
    let n = ring.len();
    let mut k: usize = 0;
    while k < n
        invariant
            n == ring@.len(),
            k <= n,
            arcs@.len() == n,
            ring@.no_duplicates(),
            forall|j: int| 0 <= j < n ==> #[trigger] ring@[j] < g0.len(),
            header == g0.len(),
            g@.len() == g0.len() + 1,
            g@[header as int] == hv,
            forall|j: int|
                0 <= j < k ==> relinked(
                    g0[ring@[j] as int],
                    #[trigger] g@[ring@[j] as int],
                    ring_next(ring@, header, j),
                    arcs@[j],
                ),
            forall|s: int|
                0 <= s < g0.len() && !ring@.take(k as int).contains(s as usize) ==> #[trigger] g@[s]
                    == g0[s],
        decreases n - k,
    {
        let slot = ring[k];
        let next = if k + 1 < n {
            ring[k + 1]
        } else {
            header
        };
        let mut v = g[slot];
        v.next = Some(next);
        v.neighbor_weight = arcs[k];
        proof {
            assert(!ring@.take(k as int).contains(slot)) by {
                if ring@.take(k as int).contains(slot) {
                    let j = choose|j: int| 0 <= j < k && ring@.take(k as int)[j] == slot;
                    assert(ring@[j] == ring@[k as int]);
                }
            }
            assert(g@[slot as int] == g0[slot as int]);
        }
        g.set(slot, v);
        proof {
            assert forall|j: int|
                0 <= j < k + 1 implies relinked(
                g0[ring@[j] as int],
                #[trigger] g@[ring@[j] as int],
                ring_next(ring@, header, j),
                arcs@[j],
            ) by {
                if j < k {
                    assert(ring@[j] != ring@[k as int]);
                }
            }
            assert forall|s: int|
                0 <= s < g0.len() && !ring@.take(k + 1).contains(s as usize) implies #[trigger] g@[s]
                == g0[s] by {
                assert(ring@.take(k + 1)[k as int] == slot);
                if ring@.take(k as int).contains(s as usize) {
                    let j = choose|j: int| 0 <= j < k && ring@.take(k as int)[j] == s as usize;
                    assert(ring@.take(k + 1)[j] == s as usize);
                }
            }
        }
        k = k + 1;
    }
    assert(ring@.take(n as int) =~= ring@);
    proof {
        law_ring_next(ring@, header);
        assert(relinked(g0[ring@[n - 1] as int], g@[ring@[n - 1] as int], ring_next(ring@, header, n - 1), arcs@[n - 1]));
        let g1 = g@;
        if links_ok(g0) {
            assert forall|s: int| 0 <= s < g1.len() implies {
                &&& (#[trigger] g1[s]).next matches Some(t) ==> t < g1.len()
                &&& g1[s].connection matches Some(c) ==> c.neighbor < g1.len()
            } by {
                if s != header && ring@.contains(s as usize) {
                    let j = choose|j: int| 0 <= j < n && ring@[j] == s as usize;
                    assert(relinked(g0[ring@[j] as int], g1[ring@[j] as int], ring_next(ring@, header, j), arcs@[j]));
                } else if s != header {
                    assert(g1[s] == g0[s]);
                }
            }
        }
        if links_ok(g0) && headers_linked(g0) {
            assert forall|s: int| 0 <= s < g1.len() implies ((#[trigger] g1[s]).next matches Some(t)
                ==> (g1[t as int].index == HEADER_VERTEX_INDEX ==> g1[t as int].next is Some)) by {
                if let Some(t) = g1[s].next {
                    if t == header {
                    } else if ring@.contains(t) {
                        let j = choose|j: int| 0 <= j < n && ring@[j] == t;
                        assert(relinked(g0[ring@[j] as int], g1[ring@[j] as int], ring_next(ring@, header, j), arcs@[j]));
                    } else if s == header {
                        assert(t == ring@[0]);
                        assert(ring@.contains(ring@[0]));
                    } else if ring@.contains(s as usize) {
                        let j = choose|j: int| 0 <= j < n && ring@[j] == s as usize;
                        assert(relinked(g0[ring@[j] as int], g1[ring@[j] as int], ring_next(ring@, header, j), arcs@[j]));
                        if j + 1 < n {
                            assert(ring@.contains(ring@[j + 1]));
                        }
                    } else {
                        assert(g1[s] == g0[s]);
                        assert(g1[t as int] == g0[t as int]);
                    }
                }
            }
        }
    }
    header
}

/// Every vertex at the destination that the search does not begin at starts
/// with the largest cost: no route to it is known yet.
pub open spec fn ends_unreached(g: Seq<Vertex>, init: Seq<usize>) -> bool {
    forall|v: int|
        0 <= v < g.len() && (#[trigger] g[v]).index == END_VERTEX_INDEX && !init.contains(
            v as usize,
        ) ==> g[v].g_cost == u64::MAX
}

/// A walk followed by one more step into a vertex that is no sentinel is a
/// walk.
pub proof fn lemma_walk_extend(g: Seq<Vertex>, w: Seq<usize>, v: usize, c: int)
    requires
        w.len() >= 1,
        is_walk(g, w),
        step(g, w.last() as int, v as int, c),
        !g[v as int].sentinel,
        v < g.len(),
    ensures
        is_walk(g, w.push(v)),
        w.push(v).last() == v,
        w.push(v)[0] == w[0],
{
    let w2 = w.push(v);
    assert forall|i: int|
        #![trigger w2[i]]
        0 <= i < w2.len() - 1 implies steps_to(g, w2[i] as int, w2[i + 1] as int) by {
        if i < w.len() - 1 {
            assert(w2[i] == w[i] && w2[i + 1] == w[i + 1]);
            assert(steps_to(g, w[i] as int, w[i + 1] as int));
        } else {
            assert(w2[i] == w.last());
            assert(step(g, w2[i] as int, w2[i + 1] as int, c));
        }
    }
    assert forall|i: int| 0 <= i < w2.len() implies #[trigger] w2[i] < g.len() by {
        if i < w.len() {
            assert(w2[i] == w[i]);
        }
    }
    assert forall|i: int| 1 <= i < w2.len() implies !(#[trigger] g[w2[i] as int]).sentinel by {
        if i < w.len() {
            assert(w2[i] == w[i]);
        }
    }
}

/// A vertex the search begins at is reached by the walk made of it alone.
pub proof fn lemma_walk_single(g: Seq<Vertex>, init: Seq<usize>, v: usize)
    requires
        init.contains(v),
        v < g.len(),
    ensures
        reachable_from(g, init, v),
{
    let w = seq![v];
    assert(w[0] == v);
    assert(w.last() == v);
    assert(is_walk(g, w));
}

} // verus!
