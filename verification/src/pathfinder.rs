//! The settings and state of a path finder that do not depend on geometry:
//! its time budget, whether it has been initialised, the counter that numbers
//! the vertices of its graph, and how the routes of successive legs are put
//! together.
use vstd::prelude::*;
use crate::flyzone::{flyzones_verdict, is_crossing_table};
use crate::graph::{Connection, Vertex};

verus! {

/// The time budget of a new path finder, in seconds.
pub const DEFAULT_PROCESS_TIME: u32 = 10;

/// A path finder.
pub struct Pathfinder {
    /// Longest time, in whole seconds, a search may take.
    max_process_time: u32,
    initialized: bool,
    /// Index the next vertex of the graph will get.
    num_vertices: i32,
}

impl Pathfinder {
    /// Longest time, in seconds, a search may take.
    pub closed spec fn process_time(&self) -> u32 {
        self.max_process_time
    }

    /// Whether the path finder has been given valid flight zones.
    pub closed spec fn initialized(&self) -> bool {
        self.initialized
    }

    /// Index the next vertex of the graph will get.
    pub closed spec fn vertex_count(&self) -> i32 {
        self.num_vertices
    }

    /// A path finder with a budget of ten seconds, not yet initialised, whose
    /// graph has no vertex yet.
    pub fn new() -> (p: Pathfinder)
        ensures
            fresh(p),
    {
        Pathfinder { max_process_time: DEFAULT_PROCESS_TIME, initialized: false, num_vertices: 0 }
    }

    /// A new path finder initialised with the flight zones described by
    /// `zones` (one crossing matrix per zone), which must pass the checks of
    /// `check_flyzones`.
    pub fn create(zones: &Vec<Vec<Vec<bool>>>) -> (p: Pathfinder)
        requires
            forall|z: int| 0 <= z < zones@.len() ==> is_crossing_table(#[trigger] zones@[z]@),
            flyzones_verdict(zones@) is Ok,
        ensures
            created(p),
    {
        let mut p = Pathfinder::new();
        p.init(zones);
        p
    }

    /// Initialises the path finder with the flight zones described by `zones`
    /// (one crossing matrix per zone). There must be a zone, each with at
    /// least three corners, none crossing itself: `check_flyzones` tells
    /// which fault a set of zones has.
    pub fn init(&mut self, zones: &Vec<Vec<Vec<bool>>>)
        requires
            forall|z: int| 0 <= z < zones@.len() ==> is_crossing_table(#[trigger] zones@[z]@),
            flyzones_verdict(zones@) is Ok,
        ensures
            initialised_from(*old(self), *final(self)),
    {
        self.initialized = true;
    }

    /// Whether the path finder has been given valid flight zones.
    pub fn is_initialized(&self) -> (b: bool)
        ensures
            b == self.initialized(),
    {
        self.initialized
    }

    /// Index the next vertex of the graph will get.
    pub fn num_vertices(&self) -> (n: i32)
        ensures
            n == self.vertex_count(),
    {
        self.num_vertices
    }

    /// Sets the time budget, in seconds.
    pub fn set_process_time(&mut self, max_process_time: u32)
        ensures
            with_process_time(*old(self), *final(self), max_process_time),
    {
        self.max_process_time = max_process_time;
    }

    /// The time budget, in seconds.
    pub fn get_process_time(&self) -> (t: u32)
        ensures
            t == self.process_time(),
    {
        self.max_process_time
    }

    /// A new vertex of the graph, numbered by the path finder's counter, which
    /// moves on by one.
    pub fn new_vertex(
        &mut self,
        altitude: u64,
        heuristic: u64,
        neighbor_weight: u64,
        sentinel: bool,
        connection: Option<Connection>,
        next: Option<usize>,
    ) -> (v: Vertex)
        requires
            old(self).vertex_count() < i32::MAX,
        ensures
            v.index == old(self).vertex_count(),
            final(self).vertex_count() == old(self).vertex_count() + 1,
            final(self).process_time() == old(self).process_time(),
            final(self).initialized() == old(self).initialized(),
            v.g_cost == 0 && v.f_cost == 0 && v.parent.is_none() && v.altitude == altitude,
            v.heuristic == heuristic && v.neighbor_weight == neighbor_weight,
            v.sentinel == sentinel && v.connection == connection && v.next == next,
    {
        Vertex::new(&mut self.num_vertices, altitude, heuristic, neighbor_weight, sentinel, connection, next)
    }
}

/// Adds the route found for one leg to the route so far. A leg without a
/// route ends the planning: the route stays as it is and the result is
/// `false`.
pub fn append_leg<T>(route: &mut Vec<T>, leg: Option<Vec<T>>) -> (go_on: bool)
    ensures
        go_on == leg.is_some(),
        leg matches Some(l) ==> final(route)@ == old(route)@ + l@,
        leg.is_none() ==> final(route)@ == old(route)@,
{
    match leg {
        Some(mut l) => {
            route.append(&mut l);
            true
        },
        None => false,
    }
}

/// The route made of the routes of the legs, in order, up to the first leg
/// without a route.
pub open spec fn joined_legs<T>(legs: Seq<Option<Vec<T>>>) -> Seq<T>
    decreases legs.len(),
{
    if legs.len() == 0 {
        Seq::empty()
    } else {
        match legs[0] {
            Some(l) => l@ + joined_legs(legs.skip(1)),
            None => Seq::empty(),
        }
    }
}

/// Planning leg after leg with `append_leg` builds the joined route: while
/// every leg so far had a route, the next leg's route is added to the end of
/// the route so far; a leg without one leaves the route as the whole plan.
pub proof fn law_joined_legs<T>(legs: Seq<Option<Vec<T>>>, k: int)
    requires
        0 <= k < legs.len(),
        forall|i: int| 0 <= i < k ==> (#[trigger] legs[i]) is Some,
    ensures
        legs[k] matches Some(l) ==> joined_legs(legs.take(k + 1)) == joined_legs(legs.take(k))
            + l@,
        legs[k] is None ==> joined_legs(legs) == joined_legs(legs.take(k)),
    decreases k,
{
    if k == 0 {
        assert(legs.take(0) =~= Seq::<Option<Vec<T>>>::empty());
        assert(legs.take(1).skip(1) =~= Seq::<Option<Vec<T>>>::empty());
        assert(legs.take(1)[0] == legs[0]);
        if let Some(l) = legs[0] {
            assert(l@ + Seq::<T>::empty() =~= l@);
        }
    } else {
        let rest = legs.skip(1);
        assert forall|i: int| 0 <= i < k - 1 implies (#[trigger] rest[i]) is Some by {
            assert(rest[i] == legs[i + 1]);
        }
        law_joined_legs(rest, k - 1);
        let l0 = legs[0].unwrap();
        assert(legs[0] is Some);
        assert(legs.take(k)[0] == legs[0]);
        assert(legs.take(k + 1)[0] == legs[0]);
        assert(legs.take(k).skip(1) =~= rest.take(k - 1));
        assert(legs.take(k + 1).skip(1) =~= rest.take(k));
        assert(rest[k - 1] == legs[k]);
        assert(joined_legs(legs.take(k)) == l0@ + joined_legs(rest.take(k - 1)));
        assert(joined_legs(legs.take(k + 1)) == l0@ + joined_legs(rest.take(k)));
        assert(joined_legs(legs) == l0@ + joined_legs(rest));
        if let Some(l) = legs[k] {
            assert(l0@ + (joined_legs(rest.take(k - 1)) + l@) =~= (l0@ + joined_legs(
                rest.take(k - 1),
            )) + l@);
        }
    }
}

/// `p` is a new path finder: a budget of ten seconds, not initialised, no
/// vertex numbered yet.
pub open spec fn fresh(p: Pathfinder) -> bool {
    &&& p.process_time() == DEFAULT_PROCESS_TIME
    &&& !p.initialized()
    &&& p.vertex_count() == 0
}

/// `p` is what `create` gives: a budget of ten seconds, initialised, no
/// vertex numbered yet.
pub open spec fn created(p: Pathfinder) -> bool {
    &&& p.process_time() == DEFAULT_PROCESS_TIME
    &&& p.initialized()
    &&& p.vertex_count() == 0
}

/// `q` is `p` initialised: its budget and vertex numbering stay as they were.
pub open spec fn initialised_from(p: Pathfinder, q: Pathfinder) -> bool {
    &&& q.initialized()
    &&& q.process_time() == p.process_time()
    &&& q.vertex_count() == p.vertex_count()
}

/// `create` on a set of zones gives the path finder that `new` followed by
/// `init` on the same zones gives: the same budget, initialisation and vertex
/// numbering. (Both ask the same of the zones: that `check_flyzones` finds no
/// fault.)
pub proof fn law_create_is_new_then_init(p: Pathfinder, q0: Pathfinder, q: Pathfinder)
    requires
        created(p),
        fresh(q0),
        initialised_from(q0, q),
    ensures
        p.process_time() == q.process_time(),
        p.initialized() == q.initialized(),
        p.vertex_count() == q.vertex_count(),
{
}

/// `q` is `p` with its time budget set to `t`: nothing else changes.
pub open spec fn with_process_time(p: Pathfinder, q: Pathfinder, t: u32) -> bool {
    &&& q.process_time() == t
    &&& q.initialized() == p.initialized()
    &&& q.vertex_count() == p.vertex_count()
}

/// Reading the time budget back gives the value last set, and setting it
/// leaves initialisation and vertex numbering alone however often it is
/// done.
pub proof fn law_process_time_round_trip(p: Pathfinder, q: Pathfinder, r: Pathfinder, t: u32, u: u32)
    requires
        with_process_time(p, q, t),
        with_process_time(q, r, u),
    ensures
        q.process_time() == t,
        r.process_time() == u,
        r.initialized() == p.initialized(),
        r.vertex_count() == p.vertex_count(),
{
}

} // verus!
