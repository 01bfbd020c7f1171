//! The A* search from the start vertices to a vertex at the destination,
//! and the walk back along parents that turns its result into a route.
use vstd::prelude::*;
use crate::graph::{
    links_ok, same_graph, step, end_reachable, distinct_indices, is_walk, steps_to, reachable_from,
    lemma_walk_extend, lemma_walk_single, sat_add, is_costed_walk, walk_cost, consistent, ends_unreached,
    headers_linked, Vertex,
    START_VERTEX_INDEX, END_VERTEX_INDEX, HEADER_VERTEX_INDEX,
};
use crate::queue::{Queue, took_least};
use std::collections::HashSet;

verus! {

/// The vertex reached from `s` by following parents `i` times; `None` once a
/// parent is missing or names no slot.
pub open spec fn parent_chain(g: Seq<Vertex>, s: usize, i: nat) -> Option<usize>
    decreases i,
{
    if i == 0 {
        Some(s)
    } else {
        match parent_chain(g, s, (i - 1) as nat) {
            Some(t) => if t < g.len() {
                g[t as int].parent
            } else {
                None
            },
            None => None,
        }
    }
}

/// Following parents `k >= 1` times from `s` passes only through slots of the
/// arena and ends at a start vertex.
pub open spec fn hits_start_at(g: Seq<Vertex>, s: usize, k: nat) -> bool {
    &&& k >= 1
    &&& forall|j: nat|
        j <= k ==> ((#[trigger] parent_chain(g, s, j)) matches Some(t) && t < g.len())
    &&& g[parent_chain(g, s, k).unwrap() as int].index == START_VERTEX_INDEX
}

/// `k` is the first count of parents after which `s` reaches a start vertex.
pub open spec fn first_start(g: Seq<Vertex>, s: usize, k: nat) -> bool {
    &&& hits_start_at(g, s, k)
    &&& forall|j: nat|
        1 <= j < k ==> g[(#[trigger] parent_chain(g, s, j)).unwrap() as int].index
            != START_VERTEX_INDEX
}

/// `r` is the route that ends at `s`: the vertices met when following parents
/// from `s` up to the first start vertex (which is left out), first to last.
pub open spec fn route_to(g: Seq<Vertex>, s: usize, r: Seq<usize>) -> bool {
    exists|k: nat|
        #![trigger first_start(g, s, k)]
        first_start(g, s, k) && r.len() == k && forall|i: int|
            0 <= i < k ==> r[i] == parent_chain(g, s, (k - 1 - i) as nat).unwrap()
}

/// Builds the route that ends at `end_vertex` by following parents back to
/// a start vertex.
pub fn generate_waypoint(g: &Vec<Vertex>, end_vertex: usize) -> (r: Vec<usize>)
    requires
        exists|k: nat| hits_start_at(g@, end_vertex, k),
    ensures
        route_to(g@, end_vertex, r@),
{
    let ghost k = choose|k: nat| hits_start_at(g@, end_vertex, k);
    let mut back: Vec<usize> = Vec::new();
    let mut cur: usize = end_vertex;
    assert(parent_chain(g@, end_vertex, 0) == Some(end_vertex));
    loop
        invariant
            hits_start_at(g@, end_vertex, k),
            back@.len() < k,
            parent_chain(g@, end_vertex, back@.len() as nat) == Some(cur),
            cur < g@.len(),
            forall|j: int|
                0 <= j < back@.len() ==> back@[j] == parent_chain(g@, end_vertex, j as nat).unwrap(),
            forall|j: nat|
                1 <= j <= back@.len() ==> g@[(#[trigger] parent_chain(
                    g@,
                    end_vertex,
                    j,
                )).unwrap() as int].index != START_VERTEX_INDEX,
        decreases k - back@.len(),
    {
        let ghost m = back@.len() as nat;
        back.push(cur);
        assert(parent_chain(g@, end_vertex, m + 1) == g@[cur as int].parent);
        assert(parent_chain(g@, end_vertex, m + 1) is Some);
        let parent = match g[cur].parent {
            Some(p) => p,
            None => {
                assert(false);
                cur
            },
        };
        cur = parent;
        if g[cur].index == START_VERTEX_INDEX {
            assert(first_start(g@, end_vertex, m + 1));
            let mut r: Vec<usize> = Vec::new();
            let mut i: usize = back.len();
            while i > 0
                invariant
                    i <= back@.len(),
                    back@.len() == m + 1,
                    r@.len() == back@.len() - i,
                    forall|j: int| 0 <= j < r@.len() ==> r@[j] == back@[back@.len() - 1 - j],
                decreases i,
            {
                i = i - 1;
                r.push(back[i]);
            }
            assert(route_to(g@, end_vertex, r@)) by {
                assert forall|i: int| 0 <= i < m + 1 implies r@[i] == parent_chain(
                    g@,
                    end_vertex,
                    (m + 1 - 1 - i) as nat,
                ).unwrap() by {
                    assert(r@[i] == back@[m - i]);
                }
            }
            return r;
        }
        assert(m + 1 < k) by {
            if m + 1 == k {
                assert(g@[parent_chain(g@, end_vertex, k).unwrap() as int].index == START_VERTEX_INDEX);
            }
        }
    }
}

/// `s` was entered from `p` by a step: `s` is no sentinel, and its cost is the
/// cost of `p` plus that of the step.
pub open spec fn expanded_from(g0: Seq<Vertex>, g: Seq<Vertex>, p: usize, s: usize) -> bool {
    &&& !g0[s as int].sentinel
    &&& exists|c: int|
        #[trigger] step(g0, p as int, s as int, c) && g[s as int].g_cost == sat_add(
            g[p as int].g_cost as int,
            c,
        )
}

/// What the search has written into vertex `s`: its parent is `start` and
/// `s` is one of the vertices the search began with, its cost left as it
/// was; or `s` was entered by a step from its parent, which was expanded
/// before `s` was (`popped` lists the expanded vertices in order).
pub open spec fn parent_ok(
    g0: Seq<Vertex>,
    g: Seq<Vertex>,
    start: usize,
    init: Seq<usize>,
    popped: Seq<usize>,
    s: usize,
) -> bool {
    &&& g[s as int].parent matches Some(p) && p < g.len()
    &&& ({
        let p = g[s as int].parent.unwrap();
        ||| (p == start && init.contains(s) && g[s as int].g_cost == g0[s as int].g_cost)
        ||| (exists|kp: int|
            0 <= kp < popped.len() && #[trigger] popped[kp] == p && (forall|ks: int|
                0 <= ks < popped.len() && popped[ks] == s ==> kp < ks) && expanded_from(
                g0,
                g,
                p,
                s,
            ))
    })
}

/// What a search leaves in vertex `v`: `v` is as it was (but perhaps for its
/// parent, set to `start` if the search began at `v`), or `v` was entered by
/// a step from its parent.
pub open spec fn reached_ok(
    g0: Seq<Vertex>,
    g: Seq<Vertex>,
    start: usize,
    init: Seq<usize>,
    v: usize,
) -> bool {
    ||| g[v as int] == g0[v as int]
    ||| (g[v as int].parent == Some(start) && init.contains(v) && g[v as int].g_cost
        == g0[v as int].g_cost)
    ||| (g[v as int].parent matches Some(u) && u < g.len() && expanded_from(g0, g, u, v))
}

/// `p` is the route a search found: the parent chain that ends at a vertex at
/// the destination, every vertex of it entered by a step from the one before,
/// the first one a vertex the search began with or entered from a start
/// vertex.
pub open spec fn found_path(
    g0: Seq<Vertex>,
    g: Seq<Vertex>,
    start: usize,
    init: Seq<usize>,
    p: Seq<usize>,
) -> bool {
    &&& p.len() >= 1
    &&& route_to(g, p.last(), p)
    &&& g0[p.last() as int].index == END_VERTEX_INDEX
    &&& forall|i: int| 0 <= i < p.len() - 1 ==> expanded_from(g0, g, #[trigger] p[i], p[i + 1])
    &&& g[p[0] as int].parent matches Some(q) && ((q == start && init.contains(p[0]) && g[p[0]
        as int].g_cost == g0[p[0] as int].g_cost) || expanded_from(g0, g, q, p[0]))
}

/// Vertex `v`, a step away from the expanded vertex `u`, needs no more
/// attention: it is a sentinel, an expanded vertex bears its index, it waits
/// in the open set, or it shares the index of `u`.
pub open spec fn covered(
    g0: Seq<Vertex>,
    open: Seq<usize>,
    closed: Set<i32>,
    u: usize,
    v: int,
) -> bool {
    ||| g0[v].sentinel
    ||| closed.contains(g0[v].index)
    ||| open_has_index(g0, open, g0[v].index)
    ||| g0[v].index == g0[u as int].index
}

/// Some vertex waiting in `open` has the index `x`.
pub open spec fn open_has_index(g0: Seq<Vertex>, open: Seq<usize>, x: i32) -> bool {
    exists|j: int| 0 <= j < open.len() && g0[#[trigger] open[j] as int].index == x
}

/// Every vertex a step away from one of the first `done` expanded vertices
/// that is no sentinel, not expanded, of another index than that vertex and
/// not closed, waits in the open set with a cost no higher than the cost
/// through that vertex.
pub open spec fn edge_bound(
    g0: Seq<Vertex>,
    g: Seq<Vertex>,
    open: Seq<usize>,
    closed: Set<i32>,
    popped: Seq<usize>,
    done: int,
) -> bool {
    forall|k: int, v: int, c: int|
        0 <= k < done && #[trigger] step(g0, popped[k] as int, v, c) && !g0[v].sentinel
            && !popped.contains(v as usize) && g0[v].index != g0[popped[k] as int].index
            && !closed.contains(g0[v].index) ==> open_has_index(g0, open, g0[v].index)
            && g[v].g_cost <= sat_add(g[popped[k] as int].g_cost as int, c)
}

/// Every step out of the first `done` expanded vertices is covered.
pub open spec fn closure(
    g0: Seq<Vertex>,
    open: Seq<usize>,
    closed: Set<i32>,
    popped: Seq<usize>,
    done: int,
) -> bool {
    forall|k: int, v: int, c: int|
        0 <= k < done && #[trigger] step(g0, popped[k] as int, v, c) ==> covered(
            g0,
            open,
            closed,
            popped[k],
            v,
        )
}

/// The state of a search over the graph `g0`, now `g`: the open set `open`,
/// the indices `closed` of the expanded vertices, and those vertices in the
/// order they were expanded, `popped`.
pub open spec fn search_inv(
    g0: Seq<Vertex>,
    g: Seq<Vertex>,
    start: usize,
    init: Seq<usize>,
    open: Seq<usize>,
    closed: Set<i32>,
    popped: Seq<usize>,
) -> bool {
    &&& same_graph(g0, g)
    &&& links_ok(g0)
    &&& headers_linked(g0)
    &&& start < g.len()
    &&& g0[start as int].index == START_VERTEX_INDEX
    &&& open.no_duplicates()
    &&& forall|i: int| 0 <= i < open.len() ==> #[trigger] open[i] < g.len()
    &&& popped.no_duplicates()
    &&& forall|i: int| 0 <= i < popped.len() ==> #[trigger] popped[i] < g.len()
    &&& forall|s: usize| #[trigger] open.contains(s) ==> !popped.contains(s)
    &&& forall|x: i32|
        #[trigger] closed.contains(x) <==> exists|k: int|
            0 <= k < popped.len() && g0[#[trigger] popped[k] as int].index == x
    &&& forall|k: int|
        0 <= k < popped.len() ==> g0[#[trigger] popped[k] as int].index != END_VERTEX_INDEX
    &&& forall|i: int|
        0 <= i < init.len() ==> #[trigger] init[i] < g.len() && (open.contains(init[i])
            || popped.contains(init[i]))
    &&& forall|s: usize|
        #![trigger open.contains(s)]
        #![trigger popped.contains(s)]
        (open.contains(s) || popped.contains(s)) ==> parent_ok(
            g0,
            g,
            start,
            init,
            popped,
            s,
        ) && reachable_from(g0, init, s)
    &&& forall|s: int|
        0 <= s < g.len() && !open.contains(s as usize) && !popped.contains(s as usize) ==> (
        #[trigger] g[s]) == g0[s]
    &&& forall|s: usize|
        #[trigger] open.contains(s) ==> g[s as int].f_cost == g[s as int].g_cost + g[
            s as int].heuristic
}

/// Offers `next`, a step of cost `dist` away from the vertex `cur` being
/// expanded, to the search: unless it shares the index of `cur`, is closed,
/// is a sentinel, or a vertex of its index waits in the open set while its own
/// cost is no higher than the one through `cur`, it takes that cost (and that cost plus its heuristic as estimate),
/// `cur` as parent, and a place in the open set.
#[verifier::rlimit(40)]
fn update_vertex(
    g: &mut Vec<Vertex>,
    open: &mut Queue,
    closed: &HashSet<i32>,
    cur: usize,
    next: usize,
    cur_g: u64,
    dist: u64,
    Ghost(g0): Ghost<Seq<Vertex>>,
    Ghost(start): Ghost<usize>,
    Ghost(init): Ghost<Seq<usize>>,
    Ghost(popped): Ghost<Seq<usize>>,
)
    requires
        search_inv(g0, old(g)@, start, init, old(open).items(), closed@, popped),
        closure(g0, old(open).items(), closed@, popped, popped.len() - 1),
        popped.len() >= 1,
        popped.last() == cur,
        cur_g == old(g)@[cur as int].g_cost,
        next < old(g)@.len(),
        step(g0, cur as int, next as int, dist as int),
        edge_bound(g0, old(g)@, old(open).items(), closed@, popped, popped.len() - 1),
    ensures
        search_inv(g0, final(g)@, start, init, final(open).items(), closed@, popped),
        closure(g0, final(open).items(), closed@, popped, popped.len() - 1),
        covered(g0, final(open).items(), closed@, cur, next as int),
        forall|x: usize| old(open).items().contains(x) ==> final(open).items().contains(x),
        final(g)@[cur as int] == old(g)@[cur as int],
        edge_bound(g0, final(g)@, final(open).items(), closed@, popped, popped.len() - 1),
        !g0[next as int].sentinel && !popped.contains(next) && g0[next as int].index
            != g0[cur as int].index && !closed@.contains(g0[next as int].index) ==> (open_has_index(
            g0,
            final(open).items(),
            g0[next as int].index,
        ) && final(g)@[next as int].g_cost <= sat_add(cur_g as int, dist as int)),
        forall|s: usize|
            #![trigger final(g)@[s as int]]
            s < old(g)@.len() && open_has_index(g0, old(open).items(), g0[s as int].index)
                ==> final(g)@[s as int].g_cost <= old(g)@[s as int].g_cost,
        forall|x: i32|
            open_has_index(g0, old(open).items(), x) ==> #[trigger] open_has_index(
                g0,
                final(open).items(),
                x,
            ),
        forall|s: usize| popped.contains(s) ==> final(g)@[s as int] == old(g)@[s as int],
        forall|s: int|
            0 <= s < old(g)@.len() && s != next ==> (#[trigger] final(g)@[s]) == old(g)@[s],
{
    broadcast use vstd::std_specs::hash::group_hash_axioms;

    if g[next].index == g[cur].index {
        return ;
    }
    let new_g = cur_g.saturating_add(dist);
    if closed.contains(&g[next].index) || g[next].sentinel || (open.contains_index(
        g,
        g[next].index,
    ) && new_g >= g[next].g_cost) {
        return ;
    }
    let ghost g1 = g@;
    let ghost open1 = open.items();
    assert(!popped.contains(next)) by {
        if popped.contains(next) {
            let k = choose|k: int| 0 <= k < popped.len() && popped[k] == next;
            assert(closed@.contains(g0[next as int].index));
        }
    }
    let mut v = g[next];
    let new_f = new_g as u128 + v.heuristic as u128;
    v.g_cost = new_g;
    v.f_cost = new_f;
    v.parent = Some(cur);
    g.set(next, v);
    open.push(next);
    assert(next != cur);
    assert(reachable_from(g0, init, next)) by {
        assert(popped.contains(cur)) by {
            assert(popped[popped.len() - 1] == cur);
        }
        assert(reachable_from(g0, init, cur));
        let w = choose|w: Seq<usize>|
            {
                &&& w.len() >= 1
                &&& init.contains(w[0])
                &&& is_walk(g0, w)
                &&& #[trigger] w.last() == cur
            };
        lemma_walk_extend(g0, w, next, dist as int);
        assert(w.push(next).last() == next);
    }
    assert(parent_ok(g0, g@, start, init, popped, next)) by {
        assert(popped[popped.len() - 1] == cur);
        assert(step(g0, cur as int, next as int, dist as int));
        assert(expanded_from(g0, g@, cur, next));
    }
    assert forall|s: usize|
        (#[trigger] open.items().contains(s) || popped.contains(s)) implies parent_ok(
        g0,
        g@,
        start,
        init,
        popped,
        s,
    ) && reachable_from(g0, init, s) by {
        if s != next {
            assert(open1.contains(s) || popped.contains(s));
            assert(parent_ok(g0, g1, start, init, popped, s));
            assert(reachable_from(g0, init, s));
            let p = g1[s as int].parent.unwrap();
            if exists|kp: int|
                0 <= kp < popped.len() && #[trigger] popped[kp] == p && (forall|ks: int|
                    0 <= ks < popped.len() && popped[ks] == s ==> kp < ks) && expanded_from(
                    g0,
                    g1,
                    p,
                    s,
                ) {
                let kp = choose|kp: int|
                    0 <= kp < popped.len() && #[trigger] popped[kp] == p && (forall|ks: int|
                        0 <= ks < popped.len() && popped[ks] == s ==> kp < ks) && expanded_from(
                        g0,
                        g1,
                        p,
                        s,
                    );
                assert(p != next);
                assert(expanded_from(g0, g@, p, s));
            }
        }
    }
    assert forall|s: int|
        0 <= s < g@.len() && !open.items().contains(s as usize) && !popped.contains(
            s as usize,
        ) implies (#[trigger] g@[s]) == g0[s] by {
        assert(s != next);
    }
    assert forall|i: int| 0 <= i < init.len() implies #[trigger] init[i] < g@.len() && (
    open.items().contains(init[i]) || popped.contains(init[i])) by {
        assert(open1.contains(init[i]) || popped.contains(init[i]));
    }
    proof {
        lemma_has_index_grows(g0, open1, open.items());
        assert(open_has_index(g0, open.items(), g0[next as int].index)) by {
            let j = choose|j: int| 0 <= j < open.items().len() && open.items()[j] == next;
            assert(g0[open.items()[j] as int].index == g0[next as int].index);
        }
        assert(open_has_index(g0, open1, g0[next as int].index) ==> new_g < g1[next as int].g_cost);
    }
    assert forall|k: int, w: int, c: int|
        0 <= k < popped.len() - 1 && #[trigger] step(g0, popped[k] as int, w, c) implies covered(
        g0,
        open.items(),
        closed@,
        popped[k],
        w,
    ) by {
        assert(covered(g0, open1, closed@, popped[k], w));
    }
    assert forall|k: int, w: int, c: int|
        0 <= k < popped.len() - 1 && #[trigger] step(g0, popped[k] as int, w, c)
            && !g0[w].sentinel && !popped.contains(w as usize) && g0[w].index != g0[popped[
            k] as int].index && !closed@.contains(g0[w].index) implies open_has_index(
        g0,
        open.items(),
        g0[w].index,
    ) && g@[w].g_cost <= sat_add(g@[popped[k] as int].g_cost as int, c) by {
        assert(popped.contains(popped[k]));
        assert(popped[k] != next);
        assert(open_has_index(g0, open1, g0[w].index));
    }
}

/// Waiting indices stay waiting when the open set grows.
proof fn lemma_has_index_grows(g0: Seq<Vertex>, o1: Seq<usize>, o2: Seq<usize>)
    requires
        forall|x: usize| #[trigger] o1.contains(x) ==> o2.contains(x),
    ensures
        forall|x: i32| #[trigger] open_has_index(g0, o1, x) ==> open_has_index(g0, o2, x),
{
    assert forall|x: i32| #[trigger] open_has_index(g0, o1, x) implies open_has_index(g0, o2, x) by {
        let j = choose|j: int| 0 <= j < o1.len() && g0[#[trigger] o1[j] as int].index == x;
        assert(o1.contains(o1[j]));
        let j2 = choose|j2: int| 0 <= j2 < o2.len() && o2[j2] == o1[j];
        assert(g0[o2[j2] as int].index == x);
    }
}

/// Following parents from `s` is following them from its parent, one step
/// behind.
proof fn lemma_chain_shift(g: Seq<Vertex>, s: usize, p: usize, j: nat)
    requires
        s < g.len(),
        g[s as int].parent == Some(p),
    ensures
        parent_chain(g, s, j + 1) == parent_chain(g, p, j),
    decreases j,
{
    assert(parent_chain(g, s, 0) == Some(s));
    if j > 0 {
        lemma_chain_shift(g, s, p, (j - 1) as nat);
        assert(parent_chain(g, s, j + 1) == match parent_chain(g, s, j) {
            Some(t) => if t < g.len() {
                g[t as int].parent
            } else {
                None
            },
            None => None,
        });
    }
}

/// A vertex the search has reached leads back, parent by parent, to a start
/// vertex.
proof fn lemma_reaches_start(
    g0: Seq<Vertex>,
    g: Seq<Vertex>,
    start: usize,
    init: Seq<usize>,
    popped: Seq<usize>,
    s: usize,
    bound: int,
)
    requires
        same_graph(g0, g),
        start < g.len(),
        g0[start as int].index == START_VERTEX_INDEX,
        popped.no_duplicates(),
        forall|k: int| 0 <= k < popped.len() ==> #[trigger] popped[k] < g.len(),
        forall|k: int|
            0 <= k < popped.len() ==> parent_ok(g0, g, start, init, popped, #[trigger] popped[k]),
        s < g.len(),
        parent_ok(g0, g, start, init, popped, s),
        forall|ks: int| 0 <= ks < popped.len() && popped[ks] == s ==> ks < bound,
        !popped.contains(s) ==> bound == popped.len() + 1,
    ensures
        exists|m: nat| hits_start_at(g, s, m),
    decreases bound,
{
    let p = g[s as int].parent.unwrap();
    if p == start && init.contains(s) && g[s as int].g_cost == g0[s as int].g_cost {
        assert(parent_chain(g, s, 0) == Some(s));
        assert(parent_chain(g, s, 1) == Some(start));
        assert forall|j: nat| j <= 1 implies ((#[trigger] parent_chain(g, s, j)) matches Some(t)
            && t < g.len()) by {
            if j == 0 {
                assert(parent_chain(g, s, 0) == Some(s));
            }
        }
        assert(hits_start_at(g, s, 1));
    } else {
        let kp = choose|kp: int|
            0 <= kp < popped.len() && #[trigger] popped[kp] == p && (forall|ks: int|
                0 <= ks < popped.len() && popped[ks] == s ==> kp < ks) && expanded_from(
                g0,
                g,
                p,
                s,
            );
        assert(kp + 1 < bound) by {
            if popped.contains(s) {
                let ks = choose|ks: int| 0 <= ks < popped.len() && popped[ks] == s;
                assert(kp < ks);
            }
        }
        assert(parent_ok(g0, g, start, init, popped, popped[kp]));
        lemma_reaches_start(g0, g, start, init, popped, p, kp + 1);
        let m = choose|m: nat| hits_start_at(g, p, m);
        assert forall|j: nat| j <= m + 1 implies ((#[trigger] parent_chain(g, s, j)) matches Some(
            t,
        ) && t < g.len()) by {
            if j == 0 {
                assert(parent_chain(g, s, 0) == Some(s));
            } else {
                lemma_chain_shift(g, s, p, (j - 1) as nat);
                assert(parent_chain(g, p, (j - 1) as nat) is Some);
            }
        }
        lemma_chain_shift(g, s, p, m);
        assert(hits_start_at(g, s, m + 1));
    }
}

/// A list of distinct slots of an arena of `n` vertices has at most `n`
/// entries.
proof fn lemma_distinct_slots(s: Seq<usize>, n: nat)
    requires
        s.no_duplicates(),
        forall|i: int| 0 <= i < s.len() ==> #[trigger] s[i] < n,
    ensures
        s.len() <= n,
{
    let t = s.map_values(|x: usize| x as int);
    assert(t.no_duplicates()) by {
        assert forall|a: int, b: int| 0 <= a < t.len() && 0 <= b < t.len() && a != b implies t[a]
            != t[b] by {
            assert(s[a] != s[b]);
        }
    }
    t.unique_seq_to_set();
    assert(t.to_set().subset_of(vstd::set_lib::set_int_range(0, n as int))) by {
        assert forall|x: int| t.to_set().contains(x) implies vstd::set_lib::set_int_range(
            0,
            n as int,
        ).contains(x) by {
            let i = choose|i: int| 0 <= i < t.len() && t[i] == x;
            assert(s[i] < n);
        }
    }
    vstd::set_lib::lemma_int_range(0, n as int);
    vstd::set_lib::lemma_len_subset(t.to_set(), vstd::set_lib::set_int_range(0, n as int));
}

/// Every vertex on the parent chain of `cur` before its first start vertex is
/// `cur` or an expanded vertex, and the search wrote it consistently.
proof fn lemma_chain_parent_ok(
    g0: Seq<Vertex>,
    g: Seq<Vertex>,
    start: usize,
    init: Seq<usize>,
    popped: Seq<usize>,
    cur: usize,
    k: nat,
    j: nat,
)
    requires
        same_graph(g0, g),
        start < g.len(),
        g0[start as int].index == START_VERTEX_INDEX,
        forall|i: int| 0 <= i < popped.len() ==> #[trigger] popped[i] < g.len(),
        forall|i: int|
            0 <= i < popped.len() ==> parent_ok(g0, g, start, init, popped, #[trigger] popped[i]),
        cur < g.len(),
        parent_ok(g0, g, start, init, popped, cur),
        first_start(g, cur, k),
        j < k,
    ensures
        parent_ok(g0, g, start, init, popped, parent_chain(g, cur, j).unwrap()),
        j >= 1 ==> expanded_from(
            g0,
            g,
            parent_chain(g, cur, j).unwrap(),
            parent_chain(g, cur, (j - 1) as nat).unwrap(),
        ),
    decreases j,
{
    assert(parent_chain(g, cur, 0) == Some(cur));
    if j >= 1 {
        let jm = (j - 1) as nat;
        lemma_chain_parent_ok(g0, g, start, init, popped, cur, k, jm);
        let c = parent_chain(g, cur, jm).unwrap();
        assert(parent_chain(g, cur, jm) is Some);
        assert(parent_chain(g, cur, j) == g[c as int].parent);
        let p = parent_chain(g, cur, j).unwrap();
        assert(g[p as int].index != START_VERTEX_INDEX);
        assert(p != start);
        let kp = choose|kp: int|
            0 <= kp < popped.len() && #[trigger] popped[kp] == p && (forall|ks: int|
                0 <= ks < popped.len() && popped[ks] == c ==> kp < ks) && expanded_from(
                g0,
                g,
                p,
                c,
            );
        assert(parent_ok(g0, g, start, init, popped, popped[kp]));
    }
}

/// Every vertex of a walk from a start vertex has been expanded, once the
/// open set runs empty.
proof fn lemma_walk_expanded(
    g0: Seq<Vertex>,
    g: Seq<Vertex>,
    start: usize,
    init: Seq<usize>,
    closed: Set<i32>,
    popped: Seq<usize>,
    w: Seq<usize>,
    i: int,
)
    requires
        search_inv(g0, g, start, init, Seq::<usize>::empty(), closed, popped),
        closure(g0, Seq::<usize>::empty(), closed, popped, popped.len() as int),
        distinct_indices(g0, init),
        w.len() >= 1,
        init.contains(w[0]),
        is_walk(g0, w),
        0 <= i < w.len(),
    ensures
        popped.contains(w[i]),
    decreases i,
{
    if i == 0 {
        let j = choose|j: int| 0 <= j < init.len() && init[j] == w[0];
        assert(Seq::<usize>::empty().contains(init[j]) || popped.contains(init[j]));
    } else {
        lemma_walk_expanded(g0, g, start, init, closed, popped, w, i - 1);
        let u = w[i - 1];
        let v = w[i];
        let k = choose|k: int| 0 <= k < popped.len() && popped[k] == u;
        assert(w[i - 1] < g0.len());
        assert(steps_to(g0, w[i - 1] as int, w[(i - 1) + 1] as int));
        let c = choose|c: int| #[trigger] step(g0, u as int, v as int, c);
        assert(covered(g0, Seq::<usize>::empty(), closed, popped[k], v as int));
        assert(!g0[v as int].sentinel);
        assert(g0[v as int].index != HEADER_VERTEX_INDEX);
        assert(v < g0.len());
        if closed.contains(g0[v as int].index) {
            let k2 = choose|k2: int|
                0 <= k2 < popped.len() && g0[#[trigger] popped[k2] as int].index
                    == g0[v as int].index;
            assert(g0[popped[k2] as int].index != END_VERTEX_INDEX);
            if popped[k2] != v {
                assert(popped[k2] < g0.len());
            }
            assert(popped[k2] == v);
        } else {
            assert(g0[v as int].index == g0[u as int].index);
            assert(g0[popped[k] as int].index != END_VERTEX_INDEX);
            if u != v {
                assert(u < g0.len());
            }
        }
    }
}

/// When the open set runs empty and the indices are distinct, no vertex at
/// the destination can be reached.
proof fn lemma_unreachable(
    g0: Seq<Vertex>,
    g: Seq<Vertex>,
    start: usize,
    init: Seq<usize>,
    closed: Set<i32>,
    popped: Seq<usize>,
)
    requires
        search_inv(g0, g, start, init, Seq::<usize>::empty(), closed, popped),
        closure(g0, Seq::<usize>::empty(), closed, popped, popped.len() as int),
        distinct_indices(g0, init),
    ensures
        !end_reachable(g0, init),
{
    if end_reachable(g0, init) {
        let w = choose|w: Seq<usize>|
            {
                &&& w.len() >= 1
                &&& init.contains(w[0])
                &&& is_walk(g0, w)
                &&& #[trigger] g0[w.last() as int].index == END_VERTEX_INDEX
            };
        lemma_walk_expanded(g0, g, start, init, closed, popped, w, w.len() - 1);
        let k = choose|k: int| 0 <= k < popped.len() && popped[k] == w.last();
        assert(g0[popped[k] as int].index != END_VERTEX_INDEX);
    }
}

/// Every vertex is as the search left it: unreached, or reached consistently.
proof fn lemma_all_reached(
    g0: Seq<Vertex>,
    g: Seq<Vertex>,
    start: usize,
    init: Seq<usize>,
    open: Seq<usize>,
    closed: Set<i32>,
    popped: Seq<usize>,
    extra: Option<usize>,
)
    requires
        search_inv(g0, g, start, init, open, closed, popped),
        extra matches Some(e) ==> e < g.len() && parent_ok(g0, g, start, init, popped, e),
    ensures
        forall|v: usize| v < g.len() ==> #[trigger] reached_ok(g0, g, start, init, v),
{
    assert forall|vu: usize| vu < g.len() implies #[trigger] reached_ok(g0, g, start, init, vu) by {
        let v = vu as int;
        if open.contains(vu) || popped.contains(vu) || extra == Some(vu) {
            assert(parent_ok(g0, g, start, init, popped, vu));
            let p = g[v].parent.unwrap();
            if !(p == start && init.contains(vu) && g[v].g_cost == g0[v].g_cost && g[v].f_cost
                == g0[v].f_cost) {
                let kp = choose|kp: int|
                    0 <= kp < popped.len() && #[trigger] popped[kp] == p && (forall|ks: int|
                        0 <= ks < popped.len() && popped[ks] == vu ==> kp < ks) && expanded_from(
                        g0,
                        g,
                        p,
                        vu,
                    );
            }
        }
    }
}

/// A step from a slot of the arena leads to a slot of the arena.
proof fn lemma_step_in_range(g: Seq<Vertex>, u: int, v: int, c: int)
    requires
        links_ok(g),
        0 <= u < g.len(),
        step(g, u, v, c),
    ensures
        0 <= v < g.len(),
{
    assert(links_ok(g));
    let gu = g[u];
    if gu.next is Some {
        assert(gu.next.unwrap() < g.len());
    }
}

/// Expanding `cur` closes it: it leaves the open set, its index joins the
/// closed ones, and it is added to the expanded vertices.
proof fn lemma_close(
    g0: Seq<Vertex>,
    g: Seq<Vertex>,
    start: usize,
    init: Seq<usize>,
    open0: Seq<usize>,
    open: Seq<usize>,
    closed0: Set<i32>,
    closed: Set<i32>,
    popped0: Seq<usize>,
    cur: usize,
)
    requires
        search_inv(g0, g, start, init, open0, closed0, popped0),
        closure(g0, open0, closed0, popped0, popped0.len() as int),
        open0.contains(cur),
        open.no_duplicates(),
        forall|j: int| 0 <= j < open.len() ==> #[trigger] open[j] < g.len(),
        forall|x: usize| #[trigger] open.contains(x) <==> (open0.contains(x) && x != cur),
        closed == closed0.insert(g0[cur as int].index),
        g0[cur as int].index != END_VERTEX_INDEX,
    ensures
        search_inv(g0, g, start, init, open, closed, popped0.push(cur)),
        closure(g0, open, closed, popped0.push(cur), popped0.len() as int),
{
    let popped = popped0.push(cur);
    assert(popped[popped.len() - 1] == cur);
    assert(!popped0.contains(cur));
    assert forall|s: usize| #[trigger] popped.contains(s) <==> (popped0.contains(s) || s == cur) by {
        if popped0.contains(s) {
            let k = choose|k: int| 0 <= k < popped0.len() && popped0[k] == s;
            assert(popped[k] == s);
        }
        if popped.contains(s) && s != cur {
            let k = choose|k: int| 0 <= k < popped.len() && popped[k] == s;
            assert(popped0[k] == s);
        }
    }
    assert forall|s: usize|
        #![trigger open.contains(s)]
        #![trigger popped.contains(s)]
        (open.contains(s) || popped.contains(s)) implies parent_ok(
        g0,
        g,
        start,
        init,
        popped,
        s,
    ) && reachable_from(g0, init, s) by {
        assert(open0.contains(s) || popped0.contains(s));
        assert(parent_ok(g0, g, start, init, popped0, s));
        assert(reachable_from(g0, init, s));
        let p = g[s as int].parent.unwrap();
        if !(p == start && init.contains(s) && g[s as int].g_cost == g0[s as int].g_cost) {
            let kp = choose|kp: int|
                0 <= kp < popped0.len() && #[trigger] popped0[kp] == p && (forall|ks: int|
                    0 <= ks < popped0.len() && popped0[ks] == s ==> kp < ks) && expanded_from(
                    g0,
                    g,
                    p,
                    s,
                );
            assert(popped[kp] == p);
            assert forall|ks: int| 0 <= ks < popped.len() && popped[ks] == s implies kp < ks by {
                if ks < popped0.len() {
                    assert(popped0[ks] == s);
                }
            }
        }
    }
    assert(popped.no_duplicates()) by {
        assert forall|a: int, b: int|
            0 <= a < popped.len() && 0 <= b < popped.len() && a != b implies popped[a]
            != popped[b] by {
            if a < popped0.len() && b == popped0.len() {
                assert(popped0.contains(popped[a]));
            }
            if b < popped0.len() && a == popped0.len() {
                assert(popped0.contains(popped[b]));
            }
        }
    }
    assert forall|x: i32| #[trigger] closed.contains(x) <==> exists|k: int|
        0 <= k < popped.len() && g0[#[trigger] popped[k] as int].index == x by {
        if closed0.contains(x) {
            let k = choose|k: int|
                0 <= k < popped0.len() && g0[#[trigger] popped0[k] as int].index == x;
            assert(popped[k] == popped0[k]);
        }
        if exists|k: int| 0 <= k < popped.len() && g0[#[trigger] popped[k] as int].index == x {
            let k = choose|k: int|
                0 <= k < popped.len() && g0[#[trigger] popped[k] as int].index == x;
            if k < popped0.len() {
                assert(popped0[k] == popped[k]);
            }
        }
    }
    assert forall|j: int| 0 <= j < init.len() implies #[trigger] init[j] < g.len() && (
    open.contains(init[j]) || popped.contains(init[j])) by {
        assert(open0.contains(init[j]) || popped0.contains(init[j]));
    }
    assert forall|k: int| 0 <= k < popped.len() implies g0[#[trigger] popped[k] as int].index
        != END_VERTEX_INDEX by {
        if k < popped0.len() {
            assert(popped0[k] == popped[k]);
        }
    }
    assert forall|i: int| 0 <= i < popped.len() implies #[trigger] popped[i] < g.len() by {
        if i < popped0.len() {
            assert(popped0[i] == popped[i]);
        }
    }
    assert forall|k: int, v: int, c: int|
        0 <= k < popped0.len() && #[trigger] step(g0, popped[k] as int, v, c) implies covered(
        g0,
        open,
        closed,
        popped[k],
        v,
    ) by {
        assert(popped[k] == popped0[k]);
        lemma_step_in_range(g0, popped[k] as int, v, c);
        assert(covered(g0, open0, closed0, popped0[k], v));
        assert(closed.contains(g0[cur as int].index));
        if closed0.contains(g0[v].index) {
            assert(closed.contains(g0[v].index));
        } else if open_has_index(g0, open0, g0[v].index) {
            lemma_has_index_after_pop(g0, open0, open, closed0, closed, cur, g0[v].index);
        }
    }
    assert forall|s: int|
        0 <= s < g.len() && !open.contains(s as usize) && !popped.contains(s as usize) implies (
        #[trigger] g[s]) == g0[s] by {
        assert(!open0.contains(s as usize));
    }
}

/// An index that waited before `cur` left the open set still waits, unless
/// it is the index of `cur`, which is now closed.
proof fn lemma_has_index_after_pop(
    g0: Seq<Vertex>,
    open0: Seq<usize>,
    open: Seq<usize>,
    closed0: Set<i32>,
    closed: Set<i32>,
    cur: usize,
    x: i32,
)
    requires
        forall|y: usize| #[trigger] open.contains(y) <==> (open0.contains(y) && y != cur),
        closed == closed0.insert(g0[cur as int].index),
        open_has_index(g0, open0, x),
    ensures
        open_has_index(g0, open, x) || closed.contains(x),
{
    let j = choose|j: int| 0 <= j < open0.len() && g0[#[trigger] open0[j] as int].index == x;
    let y = open0[j];
    if y != cur {
        assert(open0.contains(y));
        assert(open.contains(y));
        let j2 = choose|j2: int| 0 <= j2 < open.len() && open[j2] == y;
        assert(g0[open[j2] as int].index == x);
    }
}

/// After `cur` was expanded by offering the search `t1` (at cost `c1`) and
/// then `t2` (at cost `c2`), every step out of `cur` is accounted for.
proof fn lemma_expand_done(
    g0: Seq<Vertex>,
    gb: Seq<Vertex>,
    gm: Seq<Vertex>,
    gf: Seq<Vertex>,
    ob: Seq<usize>,
    om: Seq<usize>,
    of: Seq<usize>,
    closed: Set<i32>,
    popped: Seq<usize>,
    cur: usize,
    t1: int,
    c1: int,
    t2: int,
    c2: int,
)
    requires
        links_ok(g0),
        gm.len() == g0.len(),
        gb.len() == g0.len(),
        popped.len() >= 1,
        popped.last() == cur,
        cur < gb.len(),
        gm[cur as int] == gb[cur as int],
        gf[cur as int] == gb[cur as int],
        forall|v: int, c: int|
            #[trigger] step(g0, cur as int, v, c) ==> (v == t1 && c == c1) || (v == t2 && c == c2),
        t1 >= 0 ==> covered(g0, om, closed, cur, t1),
        t1 >= 0 ==> (!g0[t1].sentinel && !popped.contains(t1 as usize) && g0[t1].index
            != g0[cur as int].index && !closed.contains(g0[t1].index) ==> (open_has_index(
            g0,
            om,
            g0[t1].index,
        ) && gm[t1].g_cost <= sat_add(gb[cur as int].g_cost as int, c1))),
        t2 >= 0 ==> covered(g0, of, closed, cur, t2),
        t2 >= 0 ==> (!g0[t2].sentinel && !popped.contains(t2 as usize) && g0[t2].index
            != g0[cur as int].index && !closed.contains(g0[t2].index) ==> (open_has_index(
            g0,
            of,
            g0[t2].index,
        ) && gf[t2].g_cost <= sat_add(gb[cur as int].g_cost as int, c2))),
        forall|x: i32| #[trigger] open_has_index(g0, om, x) ==> open_has_index(g0, of, x),
        forall|x: usize|
            #![trigger gf[x as int]]
            x < gm.len() && open_has_index(g0, om, g0[x as int].index) ==> gf[x as int].g_cost
                <= gm[x as int].g_cost,
        forall|x: usize| popped.contains(x) ==> gm[x as int] == gb[x as int],
        forall|x: usize| popped.contains(x) ==> gf[x as int] == gm[x as int],
        closure(g0, of, closed, popped, popped.len() - 1),
        edge_bound(g0, gf, of, closed, popped, popped.len() - 1),
    ensures
        closure(g0, of, closed, popped, popped.len() as int),
        edge_bound(g0, gf, of, closed, popped, popped.len() as int),
{
    assert forall|k: int, v: int, c: int|
        0 <= k < popped.len() && #[trigger] step(g0, popped[k] as int, v, c) implies covered(
        g0,
        of,
        closed,
        popped[k],
        v,
    ) by {
        if k == popped.len() - 1 {
            assert(popped[k] == cur);
            if v == t1 && c == c1 {
                assert(covered(g0, om, closed, cur, v));
            } else {
                assert(covered(g0, of, closed, cur, v));
            }
        }
    }
    assert forall|k: int, v: int, c: int|
        0 <= k < popped.len() && #[trigger] step(g0, popped[k] as int, v, c) && !g0[v].sentinel
            && !popped.contains(v as usize) && g0[v].index != g0[popped[k] as int].index
            && !closed.contains(g0[v].index) implies open_has_index(g0, of, g0[v].index)
        && gf[v].g_cost <= sat_add(gf[popped[k] as int].g_cost as int, c) by {
        if k == popped.len() - 1 {
            assert(popped[k] == cur);
            lemma_step_in_range(g0, cur as int, v, c);
            if v == t1 && c == c1 {
                assert(open_has_index(g0, om, g0[v].index));
                assert(gf[v].g_cost <= gm[v].g_cost);
            }
        }
    }
}

/// Offers the search every vertex a step away from `cur`, which has just
/// been closed.
#[verifier::spinoff_prover]
fn expand_vertex(
    g: &mut Vec<Vertex>,
    open: &mut Queue,
    closed: &HashSet<i32>,
    cur: usize,
    Ghost(g0): Ghost<Seq<Vertex>>,
    Ghost(start): Ghost<usize>,
    Ghost(init): Ghost<Seq<usize>>,
    Ghost(popped): Ghost<Seq<usize>>,
)
    requires
        search_inv(g0, old(g)@, start, init, old(open).items(), closed@, popped),
        closure(g0, old(open).items(), closed@, popped, popped.len() - 1),
        edge_bound(g0, old(g)@, old(open).items(), closed@, popped, popped.len() - 1),
        popped.len() >= 1,
        popped.last() == cur,
    ensures
        search_inv(g0, final(g)@, start, init, final(open).items(), closed@, popped),
        closure(g0, final(open).items(), closed@, popped, popped.len() as int),
        edge_bound(g0, final(g)@, final(open).items(), closed@, popped, popped.len() as int),
        forall|s: usize|
            #![trigger final(g)@[s as int]]
            s < old(g)@.len() && open_has_index(g0, old(open).items(), g0[s as int].index)
                ==> final(g)@[s as int].g_cost <= old(g)@[s as int].g_cost,
        forall|x: i32|
            open_has_index(g0, old(open).items(), x) ==> #[trigger] open_has_index(
                g0,
                final(open).items(),
                x,
            ),
        forall|s: usize| popped.contains(s) ==> final(g)@[s as int] == old(g)@[s as int],
{
    let ghost gb = g@;
    let ghost ob = open.items();
    let cv = g[cur];
    let gc = cv.g_cost;
    assert(cur < g@.len());
    assert(popped.contains(cur)) by {
        assert(popped[popped.len() - 1] == cur);
    }
    let ghost mut t1: int = -1;
    let ghost mut c1: int = 0;
    if let Some(cn) = cv.connection {
        if cv.altitude > cn.threshold && g[cn.neighbor].altitude > cn.threshold {
            update_vertex(
                g,
                open,
                closed,
                cur,
                cn.neighbor,
                gc,
                cn.distance,
                Ghost(g0),
                Ghost(start),
                Ghost(init),
                Ghost(popped),
            );
            proof {
                t1 = cn.neighbor as int;
                c1 = cn.distance as int;
            }
        }
    }
    let ghost gm = g@;
    let ghost om = open.items();
    let ghost mut t2: int = -1;
    let ghost mut c2: int = 0;
    let mut weight = cv.get_neighbor_weight();
    if let Some(nx) = cv.next {
        if g[nx].index != HEADER_VERTEX_INDEX {
            update_vertex(
                g,
                open,
                closed,
                cur,
                nx,
                gc,
                weight,
                Ghost(g0),
                Ghost(start),
                Ghost(init),
                Ghost(popped),
            );
            proof {
                t2 = nx as int;
                c2 = weight as int;
            }
        } else {
            weight = weight.saturating_add(g[nx].get_neighbor_weight());
            match g[nx].next {
                Some(skip_next) => {
                    update_vertex(
                        g,
                        open,
                        closed,
                        cur,
                        skip_next,
                        gc,
                        weight,
                        Ghost(g0),
                        Ghost(start),
                        Ghost(init),
                        Ghost(popped),
                    );
                    proof {
                        t2 = skip_next as int;
                        c2 = weight as int;
                    }
                },
                None => {
                    assert(false);
                },
            }
        }
    }
    proof {
        assert forall|v: int, c: int| #[trigger] step(g0, cur as int, v, c) implies (v == t1 && c
            == c1) || (v == t2 && c == c2) by {
            assert(cv == gb[cur as int]);
        }
        lemma_expand_done(
            g0,
            gb,
            gm,
            g@,
            ob,
            om,
            open.items(),
            closed@,
            popped,
            cur,
            t1,
            c1,
            t2,
            c2,
        );
    }
}

/// The route built from the vertex at the destination that the search took
/// out of the open set is the route the search found.
proof fn lemma_found(
    g0: Seq<Vertex>,
    g: Seq<Vertex>,
    start: usize,
    init: Seq<usize>,
    open: Seq<usize>,
    closed: Set<i32>,
    popped: Seq<usize>,
    cur: usize,
    r: Seq<usize>,
)
    requires
        search_inv(g0, g, start, init, open, closed, popped),
        cur < g.len(),
        parent_ok(g0, g, start, init, popped, cur),
        g0[cur as int].index == END_VERTEX_INDEX,
        route_to(g, cur, r),
    ensures
        found_path(g0, g, start, init, r),
        is_walk(g0, r),
        forall|v: usize| v < g.len() ==> #[trigger] reached_ok(g0, g, start, init, v),
        route_cost_matches(g0, g, r),
{
    assert forall|k: int| 0 <= k < popped.len() implies parent_ok(
        g0,
        g,
        start,
        init,
        popped,
        #[trigger] popped[k],
    ) by {
        assert(popped.contains(popped[k]));
    }
    let k = choose|k: nat|
        #![trigger first_start(g, cur, k)]
        first_start(g, cur, k) && r.len() == k && forall|i: int|
            0 <= i < k ==> r[i] == parent_chain(g, cur, (k - 1 - i) as nat).unwrap();
    assert(r.last() == cur) by {
        assert(parent_chain(g, cur, 0) == Some(cur));
    }
    assert forall|i: int| 0 <= i < r.len() - 1 implies expanded_from(
        g0,
        g,
        #[trigger] r[i],
        r[i + 1],
    ) by {
        let j = (k - 2 - i) as nat;
        lemma_chain_parent_ok(g0, g, start, init, popped, cur, k, j + 1);
        assert(r[i] == parent_chain(g, cur, j + 1).unwrap());
        assert(r[i + 1] == parent_chain(g, cur, j).unwrap());
    }
    let km = (k - 1) as nat;
    lemma_chain_parent_ok(g0, g, start, init, popped, cur, k, km);
    let c0 = parent_chain(g, cur, km).unwrap();
    assert(r[0] == c0);
    assert(parent_chain(g, cur, km) is Some);
    assert(parent_chain(g, cur, k) == g[c0 as int].parent);
    let q = g[c0 as int].parent.unwrap();
    if !(q == start && init.contains(c0) && g[c0 as int].g_cost == g0[c0 as int].g_cost) {
        let kp = choose|kp: int|
            0 <= kp < popped.len() && #[trigger] popped[kp] == q && (forall|ks: int|
                0 <= ks < popped.len() && popped[ks] == c0 ==> kp < ks) && expanded_from(
                g0,
                g,
                q,
                c0,
            );
    }
    lemma_all_reached(g0, g, start, init, open, closed, popped, Some(cur));
    assert forall|i: int| 0 <= i < r.len() implies #[trigger] r[i] < g0.len() by {
        let j = (k - 1 - i) as nat;
        assert(parent_chain(g, cur, j) is Some);
    }
    assert forall|i: int|
        #![trigger r[i]]
        0 <= i < r.len() - 1 implies steps_to(g0, r[i] as int, r[i + 1] as int) by {
        assert(expanded_from(g0, g, r[i], r[i + 1]));
    }
    assert forall|i: int| 1 <= i < r.len() implies !(#[trigger] g0[r[i] as int]).sentinel by {
        assert(expanded_from(g0, g, r[i - 1], r[(i - 1) + 1]));
    }
    let cs = lemma_route_cost(g0, g, r);
    if g[r[0] as int].g_cost == g0[r[0] as int].g_cost {
        lemma_walk_cost_first(g0, g, r, cs);
    }
    reveal(route_cost_matches);
    assert(is_costed_walk(g0, r, cs));
}

/// The route `p`, found over the graph `g0` that a search left as `g`, is a
/// walk of `g0` whose cost, counted from the cost its first vertex has in `g`,
/// is the cost of its last vertex in `g`; counted from the cost its first
/// vertex had in `g0`, it is that same cost whenever the search left the
/// first vertex's cost as it was.
#[verifier::opaque]
pub open spec fn route_cost_matches(g0: Seq<Vertex>, g: Seq<Vertex>, p: Seq<usize>) -> bool {
    exists|cs: Seq<int>|
        {
            &&& #[trigger] is_costed_walk(g0, p, cs)
            &&& walk_cost(g, p, cs) == g[p.last() as int].g_cost
            &&& g[p[0] as int].g_cost == g0[p[0] as int].g_cost ==> walk_cost(g0, p, cs)
                == g[p.last() as int].g_cost
        }
}

/// Along a chain of vertices each entered from the one before, the cost of
/// each vertex is the cost of the first plus the steps up to it.
proof fn lemma_chain_cost(g0: Seq<Vertex>, g: Seq<Vertex>, p: Seq<usize>, cs: Seq<int>, j: int)
    requires
        p.len() >= 1,
        cs.len() == p.len() - 1,
        forall|i: int|
            0 <= i < cs.len() ==> g[p[i + 1] as int].g_cost == sat_add(
                g[p[i] as int].g_cost as int,
                #[trigger] cs[i],
            ),
        0 <= j < p.len(),
    ensures
        walk_cost(g, p.take(j + 1), cs.take(j)) == g[p[j] as int].g_cost,
    decreases j,
{
    if j == 0 {
        assert(p.take(1)[0] == p[0]);
    } else {
        lemma_chain_cost(g0, g, p, cs, j - 1);
        assert(p.take(j + 1).drop_last() =~= p.take(j));
        assert(cs.take(j).drop_last() =~= cs.take(j - 1));
        assert(cs.take(j).last() == cs[j - 1]);
    }
}

/// The cost of a walk depends on the graph only through the cost of its
/// first vertex.
proof fn lemma_walk_cost_first(ga: Seq<Vertex>, gb: Seq<Vertex>, w: Seq<usize>, cs: Seq<int>)
    requires
        w.len() >= 1,
        cs.len() == w.len() - 1,
        ga[w[0] as int].g_cost == gb[w[0] as int].g_cost,
    ensures
        walk_cost(ga, w, cs) == walk_cost(gb, w, cs),
    decreases cs.len(),
{
    if cs.len() > 0 {
        assert(w.drop_last()[0] == w[0]);
        lemma_walk_cost_first(ga, gb, w.drop_last(), cs.drop_last());
    }
}

/// A route each of whose vertices was entered from the one before is a walk
/// whose cost, counted from the cost of its first vertex, is the cost of its
/// last vertex.
proof fn lemma_route_cost(g0: Seq<Vertex>, g: Seq<Vertex>, p: Seq<usize>) -> (cs: Seq<int>)
    requires
        p.len() >= 1,
        forall|i: int| 0 <= i < p.len() ==> #[trigger] p[i] < g0.len(),
        forall|i: int| 0 <= i < p.len() - 1 ==> expanded_from(g0, g, #[trigger] p[i], p[i + 1]),
    ensures
        is_costed_walk(g0, p, cs),
        walk_cost(g, p, cs) == g[p.last() as int].g_cost,
{
    let cs = Seq::new(
        (p.len() - 1) as nat,
        |i: int|
            choose|c: int|
                #[trigger] step(g0, p[i] as int, p[i + 1] as int, c) && g[p[i + 1] as int].g_cost
                    == sat_add(g[p[i] as int].g_cost as int, c),
    );
    assert forall|i: int| 0 <= i < cs.len() implies step(
        g0,
        p[i] as int,
        p[i + 1] as int,
        #[trigger] cs[i],
    ) && g[p[i + 1] as int].g_cost == sat_add(g[p[i] as int].g_cost as int, cs[i]) by {
        assert(expanded_from(g0, g, p[i], p[i + 1]));
    }
    assert forall|i: int| 1 <= i < p.len() implies !(#[trigger] g0[p[i] as int]).sentinel by {
        assert(expanded_from(g0, g, p[i - 1], p[(i - 1) + 1]));
    }
    lemma_chain_cost(g0, g, p, cs, p.len() - 1);
    assert(p.take(p.len() as int) =~= p);
    assert(cs.take(p.len() - 1) =~= cs);
    cs
}

/// Every expanded vertex got the least cost of any walk to it from the
/// start vertices.
pub open spec fn pop_optimal(
    g0: Seq<Vertex>,
    g: Seq<Vertex>,
    init: Seq<usize>,
    popped: Seq<usize>,
) -> bool {
    forall|k: int, w: Seq<usize>, cs: Seq<int>|
        #![trigger is_costed_walk(g0, w, cs), popped[k]]
        0 <= k < popped.len() && is_costed_walk(g0, w, cs) && init.contains(w[0]) && w.last()
            == popped[k] ==> g[popped[k] as int].g_cost <= walk_cost(g0, w, cs)
}

/// The vertices the search begins at cost, until expanded, no more than they
/// started with.
pub open spec fn init_bound(
    g0: Seq<Vertex>,
    g: Seq<Vertex>,
    init: Seq<usize>,
    popped: Seq<usize>,
) -> bool {
    forall|i: int|
        0 <= i < init.len() && !popped.contains(#[trigger] init[i]) ==> g[init[i] as int].g_cost
            <= g0[init[i] as int].g_cost
}

/// A step costs nothing negative and leads into the arena.
proof fn lemma_step_nonneg(g: Seq<Vertex>, u: int, v: int, c: int)
    requires
        links_ok(g),
        0 <= u < g.len(),
        step(g, u, v, c),
    ensures
        c >= 0,
        0 <= v < g.len(),
{
    lemma_step_in_range(g, u, v, c);
}

/// The first `j + 1` vertices of a walk, with their steps, form a walk; its
/// cost grows from one prefix to the next by the cost of the step.
proof fn lemma_prefix(g0: Seq<Vertex>, w: Seq<usize>, cs: Seq<int>, j: int)
    requires
        is_costed_walk(g0, w, cs),
        0 <= j < w.len(),
    ensures
        is_costed_walk(g0, w.take(j + 1), cs.take(j)),
        w.take(j + 1)[0] == w[0],
        w.take(j + 1).last() == w[j],
        j == 0 ==> walk_cost(g0, w.take(j + 1), cs.take(j)) == g0[w[0] as int].g_cost,
        j > 0 ==> walk_cost(g0, w.take(j + 1), cs.take(j)) == sat_add(
            walk_cost(g0, w.take(j), cs.take(j - 1)),
            cs[j - 1],
        ),
        j == w.len() - 1 ==> walk_cost(g0, w.take(j + 1), cs.take(j)) == walk_cost(g0, w, cs),
{
    let pw = w.take(j + 1);
    let pc = cs.take(j);
    assert forall|i: int| 0 <= i < pc.len() implies step(
        g0,
        pw[i] as int,
        pw[i + 1] as int,
        #[trigger] pc[i],
    ) by {
        assert(pc[i] == cs[i]);
        assert(pw[i] == w[i] && pw[i + 1] == w[i + 1]);
    }
    assert forall|i: int| 0 <= i < pw.len() implies #[trigger] pw[i] < g0.len() by {
        assert(pw[i] == w[i]);
    }
    assert forall|i: int| 1 <= i < pw.len() implies !(#[trigger] g0[pw[i] as int]).sentinel by {
        assert(pw[i] == w[i]);
    }
    if j > 0 {
        assert(pw.drop_last() =~= w.take(j));
        assert(pc.drop_last() =~= cs.take(j - 1));
    }
    if j == w.len() - 1 {
        assert(pw =~= w);
        assert(pc =~= cs);
    }
}

/// Along a walk that costs less than the cap, the cost so far plus the
/// heuristic never exceeds the whole cost plus the heuristic at its end.
proof fn lemma_h_along(g0: Seq<Vertex>, w: Seq<usize>, cs: Seq<int>, i: int)
    requires
        links_ok(g0),
        consistent(g0),
        is_costed_walk(g0, w, cs),
        walk_cost(g0, w, cs) < u64::MAX,
        0 <= i < w.len(),
    ensures
        walk_cost(g0, w.take(i + 1), cs.take(i)) + g0[w[i] as int].heuristic <= walk_cost(
            g0,
            w,
            cs,
        ) + g0[w.last() as int].heuristic,
        walk_cost(g0, w.take(i + 1), cs.take(i)) <= walk_cost(g0, w, cs),
    decreases w.len() - i,
{
    lemma_prefix(g0, w, cs, i);
    if i < w.len() - 1 {
        lemma_h_along(g0, w, cs, i + 1);
        lemma_prefix(g0, w, cs, i + 1);
        assert(step(g0, w[i] as int, w[i + 1] as int, cs[i]));
        lemma_step_nonneg(g0, w[i] as int, w[i + 1] as int, cs[i]);
    }
}

/// A walk whose last vertex is not expanded has a first vertex that is not.
proof fn lemma_first_unpopped(popped: Seq<usize>, w: Seq<usize>, m: int)
    requires
        0 <= m < w.len(),
        !popped.contains(w[m]),
    ensures
        exists|i: int|
            0 <= i <= m && !popped.contains(#[trigger] w[i]) && forall|j: int|
                0 <= j < i ==> popped.contains(w[j]),
    decreases m,
{
    if exists|j: int| 0 <= j < m && !popped.contains(w[j]) {
        let j = choose|j: int| 0 <= j < m && !popped.contains(w[j]);
        lemma_first_unpopped(popped, w, j);
    } else {
        assert(!popped.contains(w[m]));
    }
}

/// The first vertex of a walk from the start vertices that is not expanded
/// costs no more than the walk up to it, and waits in the open set unless its
/// cost is the largest one.
proof fn lemma_open_bound(
    g0: Seq<Vertex>,
    g: Seq<Vertex>,
    start: usize,
    init: Seq<usize>,
    open: Seq<usize>,
    closed: Set<i32>,
    popped: Seq<usize>,
    w: Seq<usize>,
    cs: Seq<int>,
    i: int,
)
    requires
        search_inv(g0, g, start, init, open, closed, popped),
        edge_bound(g0, g, open, closed, popped, popped.len() as int),
        init_bound(g0, g, init, popped),
        pop_optimal(g0, g, init, popped),
        distinct_indices(g0, init),
        ends_unreached(g0, init),
        is_costed_walk(g0, w, cs),
        init.contains(w[0]),
        0 <= i < w.len(),
        !popped.contains(w[i]),
        forall|j: int| 0 <= j < i ==> popped.contains(#[trigger] w[j]),
    ensures
        open.contains(w[i]) || g[w[i] as int].g_cost == u64::MAX,
        g[w[i] as int].g_cost <= walk_cost(g0, w.take(i + 1), cs.take(i)),
{
    lemma_prefix(g0, w, cs, i);
    if i == 0 {
        let j = choose|j: int| 0 <= j < init.len() && init[j] == w[0];
        assert(open.contains(init[j]) || popped.contains(init[j]));
    } else {
        let u = w[i - 1];
        let v = w[i];
        assert(popped.contains(w[i - 1]));
        let k = choose|k: int| 0 <= k < popped.len() && popped[k] == u;
        assert(step(g0, w[i - 1] as int, w[(i - 1) + 1] as int, cs[i - 1]));
        assert(!g0[v as int].sentinel);
        assert(g0[v as int].index != HEADER_VERTEX_INDEX);
        assert(g0[popped[k] as int].index != END_VERTEX_INDEX);
        assert(g0[v as int].index != g0[u as int].index) by {
            if g0[v as int].index == g0[u as int].index {
                assert(u < g0.len() && v < g0.len());
                assert(u != v);
            }
        }
        assert(!closed.contains(g0[v as int].index)) by {
            if closed.contains(g0[v as int].index) {
                let k2 = choose|k2: int|
                    0 <= k2 < popped.len() && g0[#[trigger] popped[k2] as int].index
                        == g0[v as int].index;
                assert(g0[popped[k2] as int].index != END_VERTEX_INDEX);
                assert(popped[k2] < g0.len());
                assert(popped.contains(popped[k2]));
            }
        }
        assert(step(g0, popped[k] as int, v as int, cs[i - 1]));
        lemma_prefix(g0, w, cs, i - 1);
        assert(w.take(i).last() == popped[k]);
        assert(g[popped[k] as int].g_cost <= walk_cost(g0, w.take(i), cs.take(i - 1)));
        assert(open_has_index(g0, open, g0[v as int].index));
        if !open.contains(v) {
            let y = choose|y: int| 0 <= y < open.len() && g0[#[trigger] open[y] as int].index
                == g0[v as int].index;
            assert(open.contains(open[y]));
            assert(open[y] != v);
            assert(g0[v as int].index == END_VERTEX_INDEX);
            assert(!init.contains(v)) by {
                if init.contains(v) {
                    let j = choose|j: int| 0 <= j < init.len() && init[j] == v;
                    assert(open.contains(init[j]) || popped.contains(init[j]));
                }
            }
            assert(g[v as int] == g0[v as int]);
        }
    }
}

/// The vertex taken out of the open set costs, with its heuristic, no more
/// than any walk from the start vertices to a vertex not yet expanded, with
/// that vertex's heuristic.
proof fn lemma_pop_bound(
    g0: Seq<Vertex>,
    g: Seq<Vertex>,
    start: usize,
    init: Seq<usize>,
    open: Seq<usize>,
    closed: Set<i32>,
    popped: Seq<usize>,
    cur: usize,
    w: Seq<usize>,
    cs: Seq<int>,
)
    requires
        search_inv(g0, g, start, init, open, closed, popped),
        edge_bound(g0, g, open, closed, popped, popped.len() as int),
        init_bound(g0, g, init, popped),
        pop_optimal(g0, g, init, popped),
        distinct_indices(g0, init),
        ends_unreached(g0, init),
        consistent(g0),
        open.contains(cur),
        forall|j: int| 0 <= j < open.len() ==> g[cur as int].f_cost <= g[open[j] as int].f_cost,
        is_costed_walk(g0, w, cs),
        init.contains(w[0]),
        !popped.contains(w.last()),
        walk_cost(g0, w, cs) < u64::MAX,
    ensures
        g[cur as int].g_cost + g0[cur as int].heuristic <= walk_cost(g0, w, cs) + g0[w.last() as int].heuristic,
{
    lemma_first_unpopped(popped, w, w.len() - 1);
    let i = choose|i: int|
        0 <= i <= w.len() - 1 && !popped.contains(#[trigger] w[i]) && forall|j: int|
            0 <= j < i ==> popped.contains(w[j]);
    lemma_open_bound(g0, g, start, init, open, closed, popped, w, cs, i);
    lemma_h_along(g0, w, cs, i);
    let x = w[i];
    assert(open.contains(x));
    let jx = choose|jx: int| 0 <= jx < open.len() && open[jx] == x;
    assert(g[cur as int].f_cost <= g[x as int].f_cost);
}

/// No walk from the start vertices to a vertex at the destination costs less
/// than `cost`.
pub open spec fn best_to_end(g0: Seq<Vertex>, init: Seq<usize>, cost: int) -> bool {
    forall|w: Seq<usize>, cs: Seq<int>|
        #[trigger] is_costed_walk(g0, w, cs) && init.contains(w[0]) && g0[w.last() as int].index
            == END_VERTEX_INDEX ==> cost <= walk_cost(g0, w, cs)
}

/// The vertex taken out of the open set costs no more than any walk to it
/// from the start vertices; if it is at the destination, no more than any
/// walk to the destination.
proof fn lemma_cur_optimal(
    g0: Seq<Vertex>,
    g: Seq<Vertex>,
    start: usize,
    init: Seq<usize>,
    open: Seq<usize>,
    closed: Set<i32>,
    popped: Seq<usize>,
    cur: usize,
)
    requires
        search_inv(g0, g, start, init, open, closed, popped),
        edge_bound(g0, g, open, closed, popped, popped.len() as int),
        init_bound(g0, g, init, popped),
        pop_optimal(g0, g, init, popped),
        distinct_indices(g0, init),
        ends_unreached(g0, init),
        consistent(g0),
        open.contains(cur),
        forall|j: int| 0 <= j < open.len() ==> g[cur as int].f_cost <= g[open[j] as int].f_cost,
    ensures
        forall|w: Seq<usize>, cs: Seq<int>|
            #[trigger] is_costed_walk(g0, w, cs) && init.contains(w[0]) && w.last() == cur
                ==> g[cur as int].g_cost <= walk_cost(g0, w, cs),
        g0[cur as int].index == END_VERTEX_INDEX ==> best_to_end(
            g0,
            init,
            g[cur as int].g_cost as int,
        ),
{
    assert(!popped.contains(cur));
    assert forall|w: Seq<usize>, cs: Seq<int>|
        #[trigger] is_costed_walk(g0, w, cs) && init.contains(w[0]) && w.last() == cur implies g[cur
            as int].g_cost <= walk_cost(g0, w, cs) by {
        if walk_cost(g0, w, cs) < u64::MAX {
            lemma_pop_bound(g0, g, start, init, open, closed, popped, cur, w, cs);
        }
    }
    if g0[cur as int].index == END_VERTEX_INDEX {
        assert forall|w: Seq<usize>, cs: Seq<int>|
            #[trigger] is_costed_walk(g0, w, cs) && init.contains(w[0]) && g0[w.last() as int].index
                == END_VERTEX_INDEX implies g[cur as int].g_cost <= walk_cost(g0, w, cs) by {
            assert(w[w.len() - 1] < g0.len());
            assert(!popped.contains(w.last())) by {
                if popped.contains(w.last()) {
                    let k = choose|k: int| 0 <= k < popped.len() && popped[k] == w.last();
                    assert(g0[popped[k] as int].index != END_VERTEX_INDEX);
                }
            }
            if walk_cost(g0, w, cs) < u64::MAX {
                lemma_pop_bound(g0, g, start, init, open, closed, popped, cur, w, cs);
            }
        }
    }
}

/// Closing `cur`, whose cost is the least of any walk to it, keeps the bounds
/// on the costs the search has written.
proof fn lemma_close_opt(
    g0: Seq<Vertex>,
    g: Seq<Vertex>,
    init: Seq<usize>,
    open0: Seq<usize>,
    open: Seq<usize>,
    closed0: Set<i32>,
    closed: Set<i32>,
    popped0: Seq<usize>,
    cur: usize,
    opt: bool,
)
    requires
        edge_bound(g0, g, open0, closed0, popped0, popped0.len() as int),
        forall|x: usize| #[trigger] open.contains(x) <==> (open0.contains(x) && x != cur),
        closed == closed0.insert(g0[cur as int].index),
        init_bound(g0, g, init, popped0),
        opt ==> pop_optimal(g0, g, init, popped0),
        opt ==> forall|w: Seq<usize>, cs: Seq<int>|
            #[trigger] is_costed_walk(g0, w, cs) && init.contains(w[0]) && w.last() == cur
                ==> g[cur as int].g_cost <= walk_cost(g0, w, cs),
    ensures
        edge_bound(g0, g, open, closed, popped0.push(cur), popped0.len() as int),
        init_bound(g0, g, init, popped0.push(cur)),
        opt ==> pop_optimal(g0, g, init, popped0.push(cur)),
{
    let popped = popped0.push(cur);
    assert forall|x: usize| #[trigger] popped.contains(x) <==> (popped0.contains(x) || x == cur) by {
        if popped0.contains(x) {
            let k = choose|k: int| 0 <= k < popped0.len() && popped0[k] == x;
            assert(popped[k] == x);
        }
        if popped.contains(x) && x != cur {
            let k = choose|k: int| 0 <= k < popped.len() && popped[k] == x;
            assert(popped0[k] == x);
        }
        if x == cur {
            assert(popped[popped0.len() as int] == cur);
        }
    }
    assert forall|k: int, v: int, c: int|
        0 <= k < popped0.len() && #[trigger] step(g0, popped[k] as int, v, c) && !g0[v].sentinel
            && !popped.contains(v as usize) && g0[v].index != g0[popped[k] as int].index
            && !closed.contains(g0[v].index) implies open_has_index(g0, open, g0[v].index)
        && g[v].g_cost <= sat_add(g[popped[k] as int].g_cost as int, c) by {
        assert(popped[k] == popped0[k]);
        assert(popped0.len() < popped.len());
        lemma_has_index_after_pop(g0, open0, open, closed0, closed, cur, g0[v].index);
    }
    if opt {
        assert forall|k: int, w: Seq<usize>, cs: Seq<int>|
            #![trigger is_costed_walk(g0, w, cs), popped[k]]
            0 <= k < popped.len() && is_costed_walk(g0, w, cs) && init.contains(w[0]) && w.last()
                == popped[k] implies g[popped[k] as int].g_cost <= walk_cost(g0, w, cs) by {
            if k < popped0.len() {
                assert(popped[k] == popped0[k]);
            }
        }
    }
}

/// Finds a route from the vertices in `init` (each entered from the start
/// vertex `start`) to a vertex at the destination, with the A* algorithm.
///
/// The search first marks every vertex at the destination that it does not
/// begin at as unreached, at the largest cost (`ends_marked`). Then the open
/// set hands out vertices by least estimated cost, vertices whose index has
/// been expanded are closed, and expanding a vertex offers the search the
/// vertex its tangent leads to and the next vertex around its node (skipping
/// the node's header). A vertex offered while a vertex of its index waits is
/// taken only if the cost through the expanded vertex is lower than its own.
///
/// The estimate `f_cost` of a vertex is its cost plus its heuristic; a
/// tangent is taken only when both its ends are above its threshold. The
/// cost a walk starts with is the cost of its first vertex.
///
/// On success the result is the route to the first vertex at the destination
/// taken from the open set, as `generate_waypoint` builds it; `None` when the
/// open set runs empty first. The last vertex of the route is the one the
/// open set handed out, with an estimate no higher than that of any vertex
/// still waiting, whatever the heuristic (`last_handed_out`). The route is a
/// walk whose cost, step by step, is the cost of its last vertex. When no two
/// vertices but those at the
/// destination and node headers share an index, `None` means that no vertex
/// at the destination can be reached, and with a consistent heuristic the
/// route found costs no more than any walk from the start vertices to the
/// destination.
pub fn a_star(g: &mut Vec<Vertex>, start: usize, init: &Vec<usize>) -> (path: Option<Vec<usize>>)
    requires
        links_ok(old(g)@),
        headers_linked(old(g)@),
        start < old(g)@.len(),
        old(g)@[start as int].index == START_VERTEX_INDEX,
        forall|i: int| 0 <= i < init@.len() ==> #[trigger] init@[i] < old(g)@.len(),
    ensures
        same_graph(old(g)@, final(g)@),
        forall|v: usize|
            v < final(g)@.len() ==> #[trigger] reached_ok(
                ends_marked(old(g)@, init@),
                final(g)@,
                start,
                init@,
                v,
            ),
        path matches Some(p) ==> found_path(ends_marked(old(g)@, init@), final(g)@, start, init@, p@),
        path matches Some(p) ==> is_walk(old(g)@, p@),
        path matches Some(p) ==> route_cost_matches(ends_marked(old(g)@, init@), final(g)@, p@),
        path is None ==> ran_empty(ends_marked(old(g)@, init@), final(g)@, start, init@),
        path matches Some(p) ==> last_handed_out(
            ends_marked(old(g)@, init@),
            final(g)@,
            start,
            init@,
            p@.last(),
        ),
        path is Some ==> end_reachable(old(g)@, init@),
        path is None && distinct_indices(old(g)@, init@) ==> !end_reachable(old(g)@, init@),
        path matches Some(p) ==> (distinct_indices(old(g)@, init@) && consistent(old(g)@)
            ==> best_to_end(old(g)@, init@, final(g)@[p@.last() as int].g_cost as int)),
{
    let ghost g_in = g@;
    mark_ends_unreached(g, init);
    proof {
        lemma_marked(g_in, init@);
    }
    let path = run_search(g, start, init);
    proof {
        let gm = ends_marked(g_in, init@);
        assert(same_graph(g_in, g@)) by {
            assert forall|s: int| 0 <= s < g@.len() implies {
                &&& (#[trigger] g@[s]).index == g_in[s].index
                &&& g@[s].altitude == g_in[s].altitude
                &&& g@[s].heuristic == g_in[s].heuristic
                &&& g@[s].neighbor_weight == g_in[s].neighbor_weight
                &&& g@[s].sentinel == g_in[s].sentinel
                &&& g@[s].connection == g_in[s].connection
                &&& g@[s].next == g_in[s].next
            } by {
                assert(gm[s].index == g_in[s].index);
            }
        }
    }
    path
}

/// The vertex `v` marked unreached: the largest cost, all else as it was.
pub open spec fn marked_unreached(v: Vertex) -> Vertex {
    Vertex {
        index: v.index,
        altitude: v.altitude,
        g_cost: u64::MAX,
        f_cost: v.f_cost,
        heuristic: v.heuristic,
        neighbor_weight: v.neighbor_weight,
        sentinel: v.sentinel,
        parent: v.parent,
        connection: v.connection,
        next: v.next,
    }
}

/// The graph `g` as a search from `init` starts from it: every vertex at the
/// destination that is not in `init` marked unreached.
pub open spec fn ends_marked(g: Seq<Vertex>, init: Seq<usize>) -> Seq<Vertex> {
    Seq::new(
        g.len(),
        |s: int|
            if g[s].index == END_VERTEX_INDEX && !init.contains(s as usize) {
                marked_unreached(g[s])
            } else {
                g[s]
            },
    )
}

/// Whether `x` is one of `v`.
fn holds(v: &Vec<usize>, x: usize) -> (r: bool)
    ensures
        r == v@.contains(x),
{
    let mut i: usize = 0;
    while i < v.len()
        invariant
            i <= v@.len(),
            forall|j: int| 0 <= j < i ==> v@[j] != x,
        decreases v@.len() - i,
    {
        if v[i] == x {
            return true;
        }
        i = i + 1;
    }
    false
}

/// Marks every vertex at the destination that is not in `init` unreached.
fn mark_ends_unreached(g: &mut Vec<Vertex>, init: &Vec<usize>)
    ensures
        final(g)@ == ends_marked(old(g)@, init@),
{
    let ghost g0 = g@;
    let n = g.len();
    let mut s: usize = 0;
    while s < n
        invariant
            n == g0.len(),
            g@.len() == n,
            s <= n,
            forall|t: int| 0 <= t < s ==> #[trigger] g@[t] == ends_marked(g0, init@)[t],
            forall|t: int| s <= t < n ==> #[trigger] g@[t] == g0[t],
        decreases n - s,
    {
        if g[s].index == END_VERTEX_INDEX && !holds(init, s) {
            let mut v = g[s];
            v.g_cost = u64::MAX;
            g.set(s, v);
        }
        s = s + 1;
    }
    assert(g@ =~= ends_marked(g0, init@));
}

/// Marking the unreached destination vertices changes no step, walk or
/// index, nor the cost any walk from `init` starts with; the marked graph
/// meets what the search needs.
proof fn lemma_marked(g: Seq<Vertex>, init: Seq<usize>)
    requires
        links_ok(g),
        forall|i: int| 0 <= i < init.len() ==> #[trigger] init[i] < g.len(),
    ensures
        links_ok(ends_marked(g, init)),
        headers_linked(g) ==> headers_linked(ends_marked(g, init)),
        same_graph(g, ends_marked(g, init)),
        ends_unreached(ends_marked(g, init), init),
        forall|s: int|
            0 <= s < g.len() && init.contains(s as usize) ==> #[trigger] ends_marked(g, init)[s]
                == g[s],
        forall|w: Seq<usize>| #[trigger] is_walk(ends_marked(g, init), w) ==> is_walk(g, w),
        end_reachable(g, init) <==> end_reachable(ends_marked(g, init), init),
        distinct_indices(g, init) ==> distinct_indices(ends_marked(g, init), init),
        consistent(g) ==> consistent(ends_marked(g, init)),
        forall|cost: int|
            #[trigger] best_to_end(ends_marked(g, init), init, cost) ==> best_to_end(g, init, cost),
{
    let m = ends_marked(g, init);
    assert forall|s: int| 0 <= s < g.len() implies {
        &&& (#[trigger] m[s]).index == g[s].index
        &&& m[s].altitude == g[s].altitude
        &&& m[s].heuristic == g[s].heuristic
        &&& m[s].neighbor_weight == g[s].neighbor_weight
        &&& m[s].sentinel == g[s].sentinel
        &&& m[s].connection == g[s].connection
        &&& m[s].next == g[s].next
        &&& (init.contains(s as usize) ==> m[s] == g[s])
    } by {}
    assert forall|u: int, v: int, c: int| 0 <= u < g.len() implies #[trigger] step(g, u, v, c)
        == step(m, u, v, c) by {
        let gu = g[u];
        assert(m[u].next == gu.next && m[u].connection == gu.connection);
        if let Some(cn) = gu.connection {
            assert(cn.neighbor < g.len());
            assert(m[cn.neighbor as int].altitude == g[cn.neighbor as int].altitude);
        }
        if let Some(h) = gu.next {
            assert(h < g.len());
            assert(m[h as int].index == g[h as int].index && m[h as int].next == g[h as int].next);
            if let Some(h2) = g[h as int].next {
                assert(h2 < g.len());
            }
        }
        if 0 <= v < g.len() {
            assert(m[v].index == g[v].index && m[v].altitude == g[v].altitude);
        }
        if step(g, u, v, c) {
            lemma_step_in_range(g, u, v, c);
        }
    }
    assert(links_ok(m)) by {
        assert forall|s: int| 0 <= s < m.len() implies {
            &&& (#[trigger] m[s]).next matches Some(n) ==> n < m.len()
            &&& m[s].connection matches Some(c) ==> c.neighbor < m.len()
        } by {
            assert(m[s].next == g[s].next && m[s].connection == g[s].connection);
        }
    }
    if headers_linked(g) {
        assert forall|s: int| 0 <= s < m.len() implies ((#[trigger] m[s]).next matches Some(h)
            ==> (m[h as int].index == HEADER_VERTEX_INDEX ==> m[h as int].next is Some)) by {
            assert(m[s].next == g[s].next);
            if let Some(h) = g[s].next {
                assert(h < g.len());
                assert(m[h as int].index == g[h as int].index);
            }
        }
    }
    assert forall|w: Seq<usize>| #[trigger] is_walk(m, w) implies is_walk(g, w) by {
        assert forall|i: int|
            #![trigger w[i]]
            0 <= i < w.len() - 1 implies steps_to(g, w[i] as int, w[i + 1] as int) by {
            assert(w[i] < m.len());
            let c = choose|c: int| #[trigger] step(m, w[i] as int, w[i + 1] as int, c);
            assert(step(g, w[i] as int, w[i + 1] as int, c));
        }
        assert forall|i: int| 1 <= i < w.len() implies !(#[trigger] g[w[i] as int]).sentinel by {
            assert(w[i] < m.len());
            assert(!m[w[i] as int].sentinel);
        }
    }
    assert forall|w: Seq<usize>| #[trigger] is_walk(g, w) implies is_walk(m, w) by {
        assert forall|i: int|
            #![trigger w[i]]
            0 <= i < w.len() - 1 implies steps_to(m, w[i] as int, w[i + 1] as int) by {
            assert(w[i] < g.len());
            let c = choose|c: int| #[trigger] step(g, w[i] as int, w[i + 1] as int, c);
            assert(step(m, w[i] as int, w[i + 1] as int, c));
        }
        assert forall|i: int| 1 <= i < w.len() implies !(#[trigger] m[w[i] as int]).sentinel by {
            assert(w[i] < g.len());
            assert(!g[w[i] as int].sentinel);
        }
    }
    if end_reachable(g, init) {
        let w = choose|w: Seq<usize>|
            {
                &&& w.len() >= 1
                &&& init.contains(w[0])
                &&& is_walk(g, w)
                &&& #[trigger] g[w.last() as int].index == END_VERTEX_INDEX
            };
        assert(is_walk(m, w));
        assert(w[w.len() - 1] < g.len());
        assert(m[w.last() as int].index == END_VERTEX_INDEX);
    }
    if end_reachable(m, init) {
        let w = choose|w: Seq<usize>|
            {
                &&& w.len() >= 1
                &&& init.contains(w[0])
                &&& is_walk(m, w)
                &&& #[trigger] m[w.last() as int].index == END_VERTEX_INDEX
            };
        assert(is_walk(g, w));
        assert(w[w.len() - 1] < g.len());
        assert(g[w.last() as int].index == END_VERTEX_INDEX);
    }
    if distinct_indices(g, init) {
        assert forall|u: int, v: int, c: int|
            0 <= u < m.len() && #[trigger] step(m, u, v, c) implies m[v].index
            != HEADER_VERTEX_INDEX by {
            assert(step(g, u, v, c));
            lemma_step_in_range(g, u, v, c);
        }
        assert forall|i: int| 0 <= i < init.len() implies m[#[trigger] init[i] as int].index
            != HEADER_VERTEX_INDEX by {
            assert(g[init[i] as int].index != HEADER_VERTEX_INDEX);
        }
    }
    if consistent(g) {
        assert forall|u: int, v: int, c: int|
            0 <= u < m.len() && #[trigger] step(m, u, v, c) implies m[u].heuristic <= c
            + m[v].heuristic by {
            assert(step(g, u, v, c));
            lemma_step_in_range(g, u, v, c);
        }
    }
    assert forall|s: int|
        0 <= s < m.len() && (#[trigger] m[s]).index == END_VERTEX_INDEX && !init.contains(
            s as usize,
        ) implies m[s].g_cost == u64::MAX by {}
    assert forall|cost: int| #[trigger] best_to_end(m, init, cost) implies best_to_end(
        g,
        init,
        cost,
    ) by {
        assert forall|w: Seq<usize>, cs: Seq<int>|
            #[trigger] is_costed_walk(g, w, cs) && init.contains(w[0]) && g[w.last() as int].index
                == END_VERTEX_INDEX implies cost <= walk_cost(g, w, cs) by {
            assert forall|i: int| 0 <= i < cs.len() implies step(
                m,
                w[i] as int,
                w[i + 1] as int,
                #[trigger] cs[i],
            ) by {
                assert(w[i] < g.len());
                assert(step(g, w[i] as int, w[i + 1] as int, cs[i]));
            }
            assert forall|i: int| 1 <= i < w.len() implies !(#[trigger] m[w[i] as int]).sentinel by {
                assert(w[i] < g.len());
                assert(!g[w[i] as int].sentinel);
            }
            assert(is_costed_walk(m, w, cs));
            assert(w[w.len() - 1] < g.len());
            assert(m[w.last() as int].index == END_VERTEX_INDEX);
            assert(w[0] < g.len());
            assert(m[w[0] as int] == g[w[0] as int]);
            lemma_walk_cost_first(m, g, w, cs);
        }
    }
}

/// A state of a search over `g0`, now `g`, right as `last` is handed out:
/// `open` the vertices waiting, `closed` the indices expanded, `popped` the
/// vertices expanded in order; every step out of an expanded vertex has been
/// offered, and `last` waits with an estimate no higher than that of any
/// waiting vertex.
pub open spec fn handed_out(
    g0: Seq<Vertex>,
    g: Seq<Vertex>,
    start: usize,
    init: Seq<usize>,
    open: Seq<usize>,
    closed: Set<i32>,
    popped: Seq<usize>,
    last: usize,
) -> bool {
    &&& search_inv(g0, g, start, init, open, closed, popped)
    &&& edge_bound(g0, g, open, closed, popped, popped.len() as int)
    &&& open.contains(last)
    &&& forall|j: int| 0 <= j < open.len() ==> g[last as int].f_cost <= g[open[j] as int].f_cost
}

/// The search over `g0`, now `g`, ended by handing `last` out of its open
/// set (see `handed_out`).
pub open spec fn last_handed_out(
    g0: Seq<Vertex>,
    g: Seq<Vertex>,
    start: usize,
    init: Seq<usize>,
    last: usize,
) -> bool {
    exists|open: Seq<usize>, closed: Set<i32>, popped: Seq<usize>|
        #[trigger] handed_out(g0, g, start, init, open, closed, popped, last)
}

/// The vertex a search ends at has the least estimate of those waiting,
/// whatever the heuristic: there is an order of expanded vertices such that
/// every vertex the search wrote to and did not expand has a cost plus
/// heuristic no lower than the last vertex's, and every vertex a step away
/// from an expanded vertex, not itself expanded, not a sentinel and of an
/// index no expanded vertex has, costs no more than the expanded vertex plus
/// the step.
pub proof fn law_search_ends_at_least_estimate(
    g0: Seq<Vertex>,
    g: Seq<Vertex>,
    start: usize,
    init: Seq<usize>,
    last: usize,
)
    requires
        last_handed_out(g0, g, start, init, last),
    ensures
        exists|popped: Seq<usize>|
            {
                &&& !popped.contains(last)
                &&& forall|s: usize|
                    s < g.len() && #[trigger] g[s as int] != g0[s as int] && !popped.contains(s)
                        ==> g[last as int].g_cost + g[last as int].heuristic <= g[s as int].g_cost
                        + g[s as int].heuristic
                &&& forall|k: int, v: int, c: int|
                    0 <= k < popped.len() && #[trigger] step(g0, popped[k] as int, v, c)
                        && !g0[v].sentinel && !popped.contains(v as usize) && (forall|k2: int|
                        0 <= k2 < popped.len() ==> g0[#[trigger] popped[k2] as int].index
                            != g0[v].index) ==> g[v].g_cost <= sat_add(
                        g[popped[k] as int].g_cost as int,
                        c,
                    )
            },
{
    let (open, closed, popped) = choose|open: Seq<usize>, closed: Set<i32>, popped: Seq<usize>|
        #[trigger] handed_out(g0, g, start, init, open, closed, popped, last);
    assert(!popped.contains(last));
    assert forall|s: usize|
        s < g.len() && #[trigger] g[s as int] != g0[s as int] && !popped.contains(s) implies g[last
            as int].g_cost + g[last as int].heuristic <= g[s as int].g_cost + g[s as int].heuristic by {
        assert(open.contains(s));
        let j = choose|j: int| 0 <= j < open.len() && open[j] == s;
        assert(g[last as int].f_cost <= g[open[j] as int].f_cost);
    }
    assert forall|k: int, v: int, c: int|
        0 <= k < popped.len() && #[trigger] step(g0, popped[k] as int, v, c) && !g0[v].sentinel
            && !popped.contains(v as usize) && (forall|k2: int|
            0 <= k2 < popped.len() ==> g0[#[trigger] popped[k2] as int].index != g0[v].index)
            implies g[v].g_cost <= sat_add(g[popped[k] as int].g_cost as int, c) by {
        assert(!closed.contains(g0[v].index));
        assert(g0[v].index != g0[popped[k] as int].index);
    }
}

/// The search over `g0`, now `g`, ran its open set empty: some order of
/// expanded vertices and set of expanded indices make a state of the search
/// with nothing waiting, in which every step out of an expanded vertex has
/// been offered.
pub open spec fn ran_empty(g0: Seq<Vertex>, g: Seq<Vertex>, start: usize, init: Seq<usize>) -> bool {
    exists|closed: Set<i32>, popped: Seq<usize>|
        #[trigger] search_inv(g0, g, start, init, Seq::<usize>::empty(), closed, popped) && closure(
            g0,
            Seq::<usize>::empty(),
            closed,
            popped,
            popped.len() as int,
        )
}

/// A search that finds nothing has expanded every vertex it begins at, and
/// every step out of an expanded vertex leads to a sentinel, to a vertex of
/// the expanded vertex's own index, or to a vertex whose index some expanded
/// vertex has; no vertex it expanded is at the destination.
pub proof fn law_search_ran_empty(g0: Seq<Vertex>, g: Seq<Vertex>, start: usize, init: Seq<usize>)
    requires
        ran_empty(g0, g, start, init),
    ensures
        exists|popped: Seq<usize>|
            {
                &&& #[trigger] popped.no_duplicates()
                &&& forall|i: int| 0 <= i < init.len() ==> popped.contains(#[trigger] init[i])
                &&& forall|k: int| 0 <= k < popped.len() ==> g0[#[trigger] popped[k] as int].index
                    != END_VERTEX_INDEX
                &&& forall|k: int, v: int, c: int|
                    0 <= k < popped.len() && #[trigger] step(g0, popped[k] as int, v, c) ==> (
                    g0[v].sentinel || g0[v].index == g0[popped[k] as int].index || exists|k2: int|
                        0 <= k2 < popped.len() && g0[#[trigger] popped[k2] as int].index
                            == g0[v].index)
            },
{
    let (closed, popped) = choose|closed: Set<i32>, popped: Seq<usize>|
        #[trigger] search_inv(g0, g, start, init, Seq::<usize>::empty(), closed, popped) && closure(
            g0,
            Seq::<usize>::empty(),
            closed,
            popped,
            popped.len() as int,
        );
    assert forall|i: int| 0 <= i < init.len() implies popped.contains(#[trigger] init[i]) by {
        assert(!Seq::<usize>::empty().contains(init[i]));
    }
    assert forall|k: int, v: int, c: int|
        0 <= k < popped.len() && #[trigger] step(g0, popped[k] as int, v, c) implies (g0[v].sentinel
        || g0[v].index == g0[popped[k] as int].index || exists|k2: int|
        0 <= k2 < popped.len() && g0[#[trigger] popped[k2] as int].index == g0[v].index) by {
        assert(covered(g0, Seq::<usize>::empty(), closed, popped[k], v));
        if closed.contains(g0[v].index) {
        }
    }
}

/// The A* search itself, over a graph in which every vertex at the
/// destination that the search does not begin at is already marked
/// unreached (see `a_star`).
fn run_search(g: &mut Vec<Vertex>, start: usize, init: &Vec<usize>) -> (path: Option<Vec<usize>>)
    requires
        links_ok(old(g)@),
        headers_linked(old(g)@),
        start < old(g)@.len(),
        old(g)@[start as int].index == START_VERTEX_INDEX,
        forall|i: int| 0 <= i < init@.len() ==> #[trigger] init@[i] < old(g)@.len(),
    ensures
        same_graph(old(g)@, final(g)@),
        forall|v: usize|
            v < final(g)@.len() ==> #[trigger] reached_ok(old(g)@, final(g)@, start, init@, v),
        path matches Some(p) ==> found_path(old(g)@, final(g)@, start, init@, p@),
        path matches Some(p) ==> is_walk(old(g)@, p@),
        path is None ==> ran_empty(old(g)@, final(g)@, start, init@),
        path matches Some(p) ==> last_handed_out(old(g)@, final(g)@, start, init@, p@.last()),
        path matches Some(p) ==> route_cost_matches(old(g)@, final(g)@, p@),
        path is Some ==> end_reachable(old(g)@, init@),
        path is None && distinct_indices(old(g)@, init@) ==> !end_reachable(old(g)@, init@),
        path matches Some(p) ==> (distinct_indices(old(g)@, init@) && ends_unreached(old(g)@, init@)
            && consistent(old(g)@) ==> best_to_end(
            old(g)@,
            init@,
            final(g)@[p@.last() as int].g_cost as int,
        )),
{
    broadcast use vstd::std_specs::hash::group_hash_axioms;

    let ghost g0 = g@;
    let mut open = Queue::new();
    let mut closed: HashSet<i32> = HashSet::new();
    let ghost mut popped: Seq<usize> = Seq::empty();
    let mut i: usize = 0;
    while i < init.len()
        invariant
            i <= init@.len(),
            g0 == old(g)@,
            same_graph(g0, g@),
            links_ok(g0),
            headers_linked(g0),
            start < g@.len(),
            g0[start as int].index == START_VERTEX_INDEX,
            forall|j: int| 0 <= j < init@.len() ==> #[trigger] init@[j] < g@.len(),
            open.items().no_duplicates(),
            forall|j: int| 0 <= j < open.items().len() ==> #[trigger] open.items()[j] < g@.len(),
            forall|s: usize|
                #[trigger] open.items().contains(s) ==> g@[s as int].parent == Some(start)
                    && init@.contains(s) && g@[s as int].g_cost == g0[s as int].g_cost
                    && g@[s as int].f_cost == g@[s as int].g_cost + g@[s as int].heuristic,
            forall|s: int|
                0 <= s < g@.len() ==> (#[trigger] g@[s]).g_cost == g0[s].g_cost,
            forall|j: int| 0 <= j < i ==> open.items().contains(#[trigger] init@[j]),
            forall|s: int|
                0 <= s < g@.len() && !open.items().contains(s as usize) ==> (#[trigger] g@[s])
                    == g0[s],
            closed@ == Set::<i32>::empty(),
            popped == Seq::<usize>::empty(),
        decreases init@.len() - i,
    {
        let s = init[i];
        let mut v = g[s];
        v.parent = Some(start);
        v.f_cost = v.g_cost as u128 + v.heuristic as u128;
        g.set(s, v);
        open.push(s);
        assert(init@.contains(s)) by {
            assert(init@[i as int] == s);
        }
        i = i + 1;
    }
    assert(search_inv(g0, g@, start, init@, open.items(), closed@, popped)) by {
        assert forall|s: usize|
            #![trigger open.items().contains(s)]
            #![trigger popped.contains(s)]
            (open.items().contains(s) || popped.contains(s)) implies parent_ok(
            g0,
            g@,
            start,
            init@,
            popped,
            s,
        ) && reachable_from(g0, init@, s) by {
            assert(open.items().contains(s));
            lemma_walk_single(g0, init@, s);
        }
        assert forall|j: int| 0 <= j < init@.len() implies #[trigger] init@[j] < g@.len() && (
        open.items().contains(init@[j]) || popped.contains(init@[j])) by {
            assert(open.items().contains(init@[j]));
        }
    }
    assert(init_bound(g0, g@, init@, popped));
    loop
        invariant
            g0 == old(g)@,
            search_inv(g0, g@, start, init@, open.items(), closed@, popped),
            closure(g0, open.items(), closed@, popped, popped.len() as int),
            edge_bound(g0, g@, open.items(), closed@, popped, popped.len() as int),
            init_bound(g0, g@, init@, popped),
            distinct_indices(g0, init@) && ends_unreached(g0, init@) && consistent(g0)
                ==> pop_optimal(g0, g@, init@, popped),
        decreases g@.len() - popped.len(),
    {
        let ghost open0 = open.items();
        let ghost closed0 = closed@;
        let ghost opt = distinct_indices(g0, init@) && ends_unreached(g0, init@) && consistent(g0);
        proof {
            lemma_distinct_slots(popped, g@.len());
        }
        match open.pop(g) {
            None => {
                assert(open.items() == Seq::<usize>::empty());
                proof {
                    lemma_all_reached(g0, g@, start, init@, open.items(), closed@, popped, None);
                    if distinct_indices(g0, init@) {
                        lemma_unreachable(g0, g@, start, init@, closed@, popped);
                    }
                    assert(search_inv(g0, g@, start, init@, Seq::<usize>::empty(), closed@, popped));
                }
                return None;
            },
            Some(cur) => {
                assert(open0.contains(cur) && forall|j: int|
                    0 <= j < open0.len() ==> g@[cur as int].f_cost <= g@[open0[j] as int].f_cost)
                    by {
                    assert(took_least(g@, open0, open.items(), cur));
                }
                assert(parent_ok(g0, g@, start, init@, popped, cur));
                proof {
                    if opt {
                        lemma_cur_optimal(g0, g@, start, init@, open0, closed0, popped, cur);
                    }
                }
                if g[cur].index == END_VERTEX_INDEX {
                    proof {
                        assert forall|k: int| 0 <= k < popped.len() implies parent_ok(
                            g0,
                            g@,
                            start,
                            init@,
                            popped,
                            #[trigger] popped[k],
                        ) by {
                            assert(popped.contains(popped[k]));
                        }
                        lemma_reaches_start(
                            g0,
                            g@,
                            start,
                            init@,
                            popped,
                            cur,
                            popped.len() + 1 as int,
                        );
                    }
                    let r = generate_waypoint(g, cur);
                    proof {
                        lemma_found(g0, g@, start, init@, open0, closed@, popped, cur, r@);
                        assert(reachable_from(g0, init@, cur));
                        let w = choose|w: Seq<usize>|
                            {
                                &&& w.len() >= 1
                                &&& init@.contains(w[0])
                                &&& is_walk(g0, w)
                                &&& #[trigger] w.last() == cur
                            };
                        assert(g0[w.last() as int].index == END_VERTEX_INDEX);
                        assert(r@.last() == cur);
                        assert(handed_out(g0, g@, start, init@, open0, closed@, popped, cur));
                    }
                    return Some(r);
                }
                closed.insert(g[cur].index);
                proof {
                    lemma_close(
                        g0,
                        g@,
                        start,
                        init@,
                        open0,
                        open.items(),
                        closed0,
                        closed@,
                        popped,
                        cur,
                    );
                    lemma_close_opt(
                        g0,
                        g@,
                        init@,
                        open0,
                        open.items(),
                        closed0,
                        closed@,
                        popped,
                        cur,
                        opt,
                    );
                    popped = popped.push(cur);
                }
                let ghost g_before = g@;
                let ghost open_before = open.items();
                expand_vertex(
                    g,
                    &mut open,
                    &closed,
                    cur,
                    Ghost(g0),
                    Ghost(start),
                    Ghost(init@),
                    Ghost(popped),
                );
                proof {
                    lemma_distinct_slots(popped, g@.len());
                    assert forall|i: int|
                        0 <= i < init@.len() && !popped.contains(#[trigger] init@[i]) implies g@[init@[i]
                        as int].g_cost <= g0[init@[i] as int].g_cost by {
                        assert(open_before.contains(init@[i]) || popped.contains(init@[i]));
                    }
                    if opt {
                        assert forall|k: int, w: Seq<usize>, cs: Seq<int>|
                            #![trigger is_costed_walk(g0, w, cs), popped[k]]
                            0 <= k < popped.len() && is_costed_walk(g0, w, cs) && init@.contains(w[0])
                                && w.last() == popped[k] implies g@[popped[k] as int].g_cost
                            <= walk_cost(g0, w, cs) by {
                            assert(popped.contains(popped[k]));
                            assert(g_before[popped[k] as int].g_cost <= walk_cost(g0, w, cs));
                        }
                    }
                }
            },
        }
    }
}

} // verus!
