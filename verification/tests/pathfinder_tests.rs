use pathfinder::graph::{Connection, Vertex};
use pathfinder::pathfinder::{append_leg, Pathfinder};
use pathfinder::queue::Queue;

#[test]
fn new_pathfinder_defaults() {
    let p = Pathfinder::new();
    assert_eq!(p.get_process_time(), 10);
    assert!(!p.is_initialized());
}

#[test]
fn process_time_round_trip() {
    let mut p = Pathfinder::new();
    p.set_process_time(42);
    assert_eq!(p.get_process_time(), 42);
    p.set_process_time(u32::MAX);
    assert_eq!(p.get_process_time(), u32::MAX);
}

#[test]
fn vertices_are_numbered_in_turn() {
    let mut p = Pathfinder::new();
    let a = p.new_vertex(0, 1, 2, false, None, None);
    let b = p.new_vertex(7, 3, 4, true, Some(Connection::new(0, 9, 1)), Some(0));
    assert_eq!(b.altitude, 7);
    assert_eq!(a.index, 0);
    assert_eq!(b.index, 1);
    assert_eq!(b.heuristic, 3);
    assert_eq!(b.get_neighbor_weight(), 4);
    assert!(b.sentinel);
    assert_eq!(b.connection.unwrap().distance, 9);
    assert_eq!(b.next, Some(0));
    let mut idx = -1;
    let s = Vertex::new(&mut idx, 0, 0, 0, false, None, None);
    assert_eq!(s.index, -1);
    assert_eq!(idx, 0);
}

#[test]
fn connection_keeps_its_fields() {
    let c = Connection::new(3, 17, 5);
    assert_eq!(c.neighbor, 3);
    assert_eq!(c.distance, 17);
    assert_eq!(c.threshold, 5);
}

#[test]
fn legs_are_appended_until_one_fails() {
    let mut route = vec![1, 2];
    assert!(append_leg(&mut route, Some(vec![3, 4])));
    assert_eq!(route, vec![1, 2, 3, 4]);
    assert!(!append_leg(&mut route, None));
    assert_eq!(route, vec![1, 2, 3, 4]);
}

#[test]
fn queue_hands_out_least_f_cost_first() {
    let mut g: Vec<Vertex> = Vec::new();
    for f in [5u128, 2, 7, 2] {
        let mut idx = 0;
        let mut v = Vertex::new(&mut idx, 0, 0, 0, false, None, None);
        v.f_cost = f;
        g.push(v);
    }
    let mut q = Queue::new();
    for s in [0usize, 1, 2, 3, 1] {
        q.push(s);
    }
    assert_eq!(q.len(), 4);
    assert!(q.contains(3));
    assert_eq!(q.pop(&g), Some(1));
    assert_eq!(q.pop(&g), Some(3));
    assert_eq!(q.pop(&g), Some(0));
    assert_eq!(q.pop(&g), Some(2));
    assert_eq!(q.pop(&g), None);
    assert!(!q.contains(3));
}

#[test]
fn queue_contains_index_looks_at_the_waiting_vertices() {
    let mut g: Vec<Vertex> = Vec::new();
    for index in [4i32, -2, 9] {
        let mut idx = index;
        g.push(Vertex::new(&mut idx, 0, 0, 0, false, None, None));
    }
    let mut q = Queue::new();
    assert!(!q.contains_index(&g, -2));
    q.push(1);
    assert!(q.contains_index(&g, -2));
    assert!(!q.contains_index(&g, 4));
    q.push(0);
    assert!(q.contains_index(&g, 4));
    assert!(!q.contains_index(&g, 9));
    assert_eq!(q.pop(&g), Some(1));
    assert!(!q.contains_index(&g, -2));
}
