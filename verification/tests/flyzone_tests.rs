use pathfinder::flyzone::{check_flyzones, invalid_flyzone, FlyzoneError};
use pathfinder::pathfinder::Pathfinder;

/// Crossing matrix of a polygon with `n` edges where only the listed pairs
/// cross (both ways).
fn crossings(n: usize, pairs: &[(usize, usize)]) -> Vec<Vec<bool>> {
    let mut m = vec![vec![false; n]; n];
    for &(i, j) in pairs {
        m[i][j] = true;
        m[j][i] = true;
    }
    m
}

#[test]
fn square_flyzone_is_valid() {
    assert!(!invalid_flyzone(&crossings(4, &[])));
}

#[test]
fn bowtie_flyzone_is_invalid() {
    // Corners a, b, d, c of a square: edges b-d and c-a are the diagonals.
    assert!(invalid_flyzone(&crossings(4, &[(1, 3)])));
}

#[test]
fn adjacent_edges_are_not_compared() {
    // Edges that share a corner always touch; such answers are ignored,
    // including the closing edge against edge 0.
    assert!(!invalid_flyzone(&crossings(5, &[(0, 1), (1, 2), (0, 4), (3, 4)])));
    assert!(!invalid_flyzone(&crossings(3, &[(0, 1), (1, 2), (0, 2)])));
}

#[test]
fn far_edges_are_compared() {
    assert!(invalid_flyzone(&crossings(6, &[(0, 4)])));
    assert!(invalid_flyzone(&crossings(6, &[(2, 5)])));
    assert!(invalid_flyzone(&crossings(5, &[(1, 4)])));
}

#[test]
fn only_upper_triangle_is_read() {
    let mut m = crossings(6, &[]);
    m[4][0] = true;
    assert!(!invalid_flyzone(&m));
}

#[test]
fn no_flyzone_is_refused() {
    assert_eq!(check_flyzones(&vec![]), Err(FlyzoneError::NoFlyzone));
}

#[test]
fn empty_flyzone_is_refused() {
    assert_eq!(check_flyzones(&vec![vec![]]), Err(FlyzoneError::TooFewVertices(0)));
    assert_eq!(
        check_flyzones(&vec![crossings(4, &[(1, 3)]), crossings(2, &[])]),
        Err(FlyzoneError::TooFewVertices(1))
    );
}

#[test]
fn crossing_flyzone_is_refused() {
    assert_eq!(
        check_flyzones(&vec![crossings(4, &[]), crossings(4, &[(1, 3)]), crossings(5, &[(0, 2)])]),
        Err(FlyzoneError::SelfIntersecting(1))
    );
}

#[test]
fn valid_flyzones_pass() {
    assert_eq!(check_flyzones(&vec![crossings(3, &[]), crossings(11, &[])]), Ok(()));
}

#[test]
fn init_marks_initialized() {
    let mut p = Pathfinder::new();
    assert!(!p.is_initialized());
    let zones = vec![crossings(5, &[])];
    assert_eq!(check_flyzones(&zones), Ok(()));
    p.init(&zones);
    assert!(p.is_initialized());
}

#[test]
fn create_gives_an_initialized_pathfinder() {
    let zones = vec![crossings(4, &[])];
    assert_eq!(check_flyzones(&zones), Ok(()));
    let p = Pathfinder::create(&zones);
    assert!(p.is_initialized());
    assert_eq!(p.get_process_time(), 10);
}

/// `m` with its edges renamed: edge `k` of the result is edge `p(k)` of `m`.
fn renamed(m: &Vec<Vec<bool>>, p: impl Fn(usize) -> usize) -> Vec<Vec<bool>> {
    let n = m.len();
    (0..n).map(|i| (0..n).map(|j| m[p(i)][p(j)]).collect()).collect()
}

#[test]
fn rotating_or_reversing_a_zone_keeps_the_verdict() {
    for pairs in [vec![(1usize, 3usize)], vec![(0, 2)], vec![(0, 4)], vec![], vec![(2, 5)]] {
        let m = crossings(6, &pairs);
        let expected = invalid_flyzone(&m);
        for s in 0..6 {
            let r = renamed(&m, |k| (k + s) % 6);
            assert_eq!(invalid_flyzone(&r), expected);
        }
        let rev = renamed(&m, |k| if k <= 4 { 4 - k } else { 5 });
        assert_eq!(invalid_flyzone(&rev), expected);
    }
}

#[test]
fn create_matches_new_then_init() {
    let zones = vec![crossings(4, &[]), crossings(7, &[])];
    assert_eq!(check_flyzones(&zones), Ok(()));
    let p = Pathfinder::create(&zones);
    let mut q = Pathfinder::new();
    q.init(&zones);
    assert_eq!(p.get_process_time(), q.get_process_time());
    assert_eq!(p.is_initialized(), q.is_initialized());
    assert_eq!(p.num_vertices(), q.num_vertices());
}
