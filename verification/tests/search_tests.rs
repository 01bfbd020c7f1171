use pathfinder::graph::{
    link_ring, Connection, Vertex, END_VERTEX_INDEX, HEADER_VERTEX_INDEX, START_VERTEX_INDEX,
};
use pathfinder::search::{a_star, generate_waypoint};

const S: usize = 0;
const H: usize = 1;
const A: usize = 2;
const B: usize = 3;
const E: usize = 4;

fn vertex(index: i32, heuristic: u64, weight: u64, conn: Option<Connection>, next: Option<usize>) -> Vertex {
    let mut idx = index;
    Vertex::new(&mut idx, 100, heuristic, weight, false, conn, next)
}

/// A node ring header -> A -> B -> header, a start vertex, and a tangent from
/// B to the destination.
fn ring_graph(with_tangent: bool) -> Vec<Vertex> {
    let conn = if with_tangent { Some(Connection::new(E, 5, 0)) } else { None };
    vec![
        vertex(START_VERTEX_INDEX, 0, 0, None, None),
        vertex(HEADER_VERTEX_INDEX, 0, 1, None, Some(A)),
        vertex(0, 7, 3, None, Some(B)),
        vertex(1, 4, 2, conn, Some(H)),
        vertex(END_VERTEX_INDEX, 0, 0, None, None),
    ]
}

#[test]
fn a_star_follows_ring_then_tangent() {
    let mut g = ring_graph(true);
    let path = a_star(&mut g, S, &vec![A]);
    assert_eq!(path, Some(vec![A, B, E]));
    assert_eq!(g[A].parent, Some(S));
    assert_eq!(g[B].parent, Some(A));
    assert_eq!(g[E].parent, Some(B));
    assert_eq!(g[B].g_cost, 3);
    assert_eq!(g[E].g_cost, 8);
}

#[test]
fn a_star_without_tangent_finds_nothing() {
    let mut g = ring_graph(false);
    assert_eq!(a_star(&mut g, S, &vec![A]), None);
    assert_eq!(g[E].parent, None);
}

#[test]
fn a_star_never_enters_a_sentinel() {
    let mut g = ring_graph(true);
    g[E].sentinel = true;
    assert_eq!(a_star(&mut g, S, &vec![A]), None);
}

#[test]
fn a_star_skips_the_header() {
    // Start at B: the ring leads past the header back to A.
    let mut g = ring_graph(false);
    g[A].connection = Some(Connection::new(E, 1, 0));
    let path = a_star(&mut g, S, &vec![B]);
    assert_eq!(path, Some(vec![B, A, E]));
    // B -> header costs 2, header -> A costs 1.
    assert_eq!(g[A].g_cost, 3);
    assert_eq!(g[E].g_cost, 4);
    assert_eq!(g[H].parent, None);
}

#[test]
fn a_star_with_no_start_vertices() {
    let mut g = ring_graph(true);
    assert_eq!(a_star(&mut g, S, &vec![]), None);
}

#[test]
fn a_star_takes_least_estimate_first() {
    // Two destination vertices: one through a short tangent from A, one
    // reached from B; A is expanded first and its tangent wins.
    let mut g = ring_graph(true);
    g.push(vertex(END_VERTEX_INDEX, 0, 0, None, None));
    g[A].connection = Some(Connection::new(5, 1, 0));
    let path = a_star(&mut g, S, &vec![A]);
    assert_eq!(path, Some(vec![A, 5]));
    assert_eq!(g[5].g_cost, 1);
}

/// From A: around to B (3) then the tangent to E (5), total 8; or the tangent
/// from A straight to a second destination vertex, 20.
fn two_destinations() -> Vec<Vertex> {
    let mut g = ring_graph(true);
    for v in g.iter_mut() {
        v.heuristic = 0;
    }
    g.push(vertex(END_VERTEX_INDEX, 0, 0, None, None));
    g[A].connection = Some(Connection::new(5, 20, 0));
    g
}

#[test]
fn a_star_returns_the_cheapest_route() {
    let mut g = two_destinations();
    let path = a_star(&mut g, S, &vec![A]);
    assert_eq!(path, Some(vec![A, B, E]));
    assert_eq!(g[E].g_cost, 8);
    assert_eq!(g[5].g_cost, 20);
}

#[test]
fn a_star_waiting_destination_does_not_hide_a_cheaper_one() {
    // The destination vertex 5 waits at cost 20 when B is expanded; E shares
    // its index but is unreached, so the cost of 8 through B is taken.
    let mut g = two_destinations();
    g[E].g_cost = 0;
    g[5].g_cost = 0;
    let path = a_star(&mut g, S, &vec![A]);
    assert_eq!(path, Some(vec![A, B, E]));
    assert_eq!(g[E].parent, Some(B));
}

#[test]
fn a_star_marks_unreached_destinations() {
    // The destination cannot be reached: its cost is left at the largest.
    let mut g = ring_graph(false);
    assert_eq!(a_star(&mut g, S, &vec![A]), None);
    assert_eq!(g[E].g_cost, u64::MAX);
    // A destination vertex the search begins at keeps its cost.
    let mut g = ring_graph(false);
    g[E].g_cost = 6;
    assert_eq!(a_star(&mut g, S, &vec![E]), Some(vec![E]));
    assert_eq!(g[E].g_cost, 6);
}

#[test]
fn a_star_counts_the_cost_start_vertices_begin_with() {
    let mut g = ring_graph(true);
    g[A].g_cost = 10;
    assert_eq!(a_star(&mut g, S, &vec![A]), Some(vec![A, B, E]));
    assert_eq!(g[E].g_cost, 18);
}

#[test]
fn a_star_estimates_with_the_new_cost() {
    let mut g = ring_graph(true);
    let _ = a_star(&mut g, S, &vec![A]);
    assert_eq!(g[A].f_cost, 0 + 7);
    assert_eq!(g[B].f_cost, 3 + 4);
    assert_eq!(g[E].f_cost, 8 + 0);
}

#[test]
fn a_star_keeps_off_a_connection_its_ends_do_not_clear() {
    let mut g = ring_graph(false);
    g[B].connection = Some(Connection::new(E, 5, 100));
    assert_eq!(a_star(&mut g, S, &vec![A]), None);
    g[B].connection = Some(Connection::new(E, 5, 99));
    assert_eq!(a_star(&mut g, S, &vec![A]), Some(vec![A, B, E]));
    g[E].altitude = 50;
    let mut h = g.clone();
    for v in h.iter_mut() {
        v.parent = None;
    }
    assert_eq!(a_star(&mut h, S, &vec![A]), None);
}

#[test]
fn a_star_saturates_costs() {
    let mut g = ring_graph(true);
    g[B].connection = Some(Connection::new(E, u64::MAX, 0));
    let path = a_star(&mut g, S, &vec![A]);
    assert_eq!(path, Some(vec![A, B, E]));
    assert_eq!(g[E].g_cost, u64::MAX);
}

#[test]
fn generate_waypoint_walks_back_to_start() {
    let mut g = ring_graph(true);
    g[E].parent = Some(B);
    g[B].parent = Some(A);
    g[A].parent = Some(S);
    assert_eq!(generate_waypoint(&g, E), vec![A, B, E]);
    assert_eq!(generate_waypoint(&g, A), vec![A]);
}

#[test]
fn link_ring_closes_the_ring_through_a_header() {
    // Start, A, B, destination; the ring A -> B -> header -> A is linked.
    let mut g = vec![
        vertex(START_VERTEX_INDEX, 0, 0, None, None),
        vertex(0, 7, 0, None, None),
        vertex(1, 4, 0, Some(Connection::new(3, 5, 0)), None),
        vertex(END_VERTEX_INDEX, 0, 0, None, None),
    ];
    let h = link_ring(&mut g, &vec![1, 2], &vec![3, 2], 1, 100);
    assert_eq!(h, 4);
    assert_eq!(g.len(), 5);
    assert_eq!(g[h].index, HEADER_VERTEX_INDEX);
    assert_eq!(g[h].next, Some(1));
    assert_eq!(g[h].neighbor_weight, 1);
    assert_eq!(g[h].altitude, 100);
    assert_eq!(g[1].next, Some(2));
    assert_eq!(g[1].neighbor_weight, 3);
    assert_eq!(g[2].next, Some(h));
    assert_eq!(g[2].neighbor_weight, 2);
    assert_eq!(g[2].connection.map(|c| c.neighbor), Some(3));
    assert_eq!(g[0].next, None);
    assert_eq!(g[3].next, None);
    let mut from_b = g.clone();
    assert_eq!(a_star(&mut from_b, 0, &vec![2]), Some(vec![2, 3]));
    assert_eq!(a_star(&mut g, 0, &vec![1]), Some(vec![1, 2, 3]));
    assert_eq!(g[3].g_cost, 8);
}
