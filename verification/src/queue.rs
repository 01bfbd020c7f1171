//! The open set of a search: the vertices waiting to be expanded, each held
//! once, handed out by least estimated cost.
use vstd::prelude::*;
use crate::graph::Vertex;

verus! {

/// `after` is `before` without its first vertex `s` of least `f_cost`.
pub open spec fn took_least(g: Seq<Vertex>, before: Seq<usize>, after: Seq<usize>, s: usize) -> bool {
    exists|k: int|
        #![trigger before[k]]
        {
            &&& 0 <= k < before.len()
            &&& before[k] == s
            &&& after == before.remove(k)
            &&& forall|j: int|
                0 <= j < before.len() ==> g[s as int].f_cost <= g[before[j] as int].f_cost
            &&& forall|j: int| 0 <= j < k ==> g[s as int].f_cost < g[before[j] as int].f_cost
        }
}

/// Vertices waiting to be expanded, held by their slot in the arena.
///
/// Each vertex waits at most once; a vertex offered again while it waits
/// keeps its place, with the cost it was last given. Whether a vertex counts
/// as waiting goes by its index (`contains_index`): the indices of the
/// waiting vertices are the set the search consults.
pub struct Queue {
    heap: Vec<usize>,
}

impl Queue {
    /// The waiting vertices, in the order they joined.
    pub closed spec fn items(&self) -> Seq<usize> {
        self.heap@
    }

    /// An empty queue.
    pub fn new() -> (q: Queue)
        ensures
            q.items() == Seq::<usize>::empty(),
    {
        Queue { heap: Vec::new() }
    }

    /// Number of waiting vertices.
    pub fn len(&self) -> (n: usize)
        ensures
            n == self.items().len(),
    {
        self.heap.len()
    }

    /// Whether the vertex in slot `s` is waiting.
    pub fn contains(&self, s: usize) -> (r: bool)
        ensures
            r == self.items().contains(s),
    {
        let mut i: usize = 0;
        while i < self.heap.len()
            invariant
                i <= self.heap@.len(),
                forall|j: int| 0 <= j < i ==> self.heap@[j] != s,
            decreases self.heap@.len() - i,
        {
            if self.heap[i] == s {
                return true;
            }
            i = i + 1;
        }
        false
    }

    /// Whether some waiting vertex has the index `index`.
    pub fn contains_index(&self, g: &Vec<Vertex>, index: i32) -> (r: bool)
        requires
            forall|j: int| 0 <= j < self.items().len() ==> self.items()[j] < g@.len(),
        ensures
            r == exists|j: int|
                0 <= j < self.items().len() && g@[#[trigger] self.items()[j] as int].index == index,
    {
        let mut i: usize = 0;
        while i < self.heap.len()
            invariant
                i <= self.heap@.len(),
                forall|j: int| 0 <= j < self.heap@.len() ==> self.heap@[j] < g@.len(),
                forall|j: int| 0 <= j < i ==> g@[#[trigger] self.heap@[j] as int].index != index,
            decreases self.heap@.len() - i,
        {
            if g[self.heap[i]].index == index {
                return true;
            }
            i = i + 1;
        }
        false
    }

    /// Adds the vertex in slot `s`, unless it is already waiting.
    pub fn push(&mut self, s: usize)
        ensures
            final(self).items() == if old(self).items().contains(s) {
                old(self).items()
            } else {
                old(self).items().push(s)
            },
            forall|x: usize|
                #[trigger] final(self).items().contains(x) <==> (old(self).items().contains(x) || x
                    == s),
            old(self).items().no_duplicates() ==> final(self).items().no_duplicates(),
    {
        if !self.contains(s) {
            let ghost before = self.heap@;
            self.heap.push(s);
            assert(self.heap@[before.len() as int] == s);
            assert forall|x: usize| #[trigger] self.heap@.contains(x) <==> (before.contains(x) || x
                == s) by {
                if before.contains(x) {
                    let j = choose|j: int| 0 <= j < before.len() && before[j] == x;
                    assert(self.heap@[j] == x);
                }
                if self.heap@.contains(x) && x != s {
                    let j = choose|j: int| 0 <= j < self.heap@.len() && self.heap@[j] == x;
                    assert(before[j] == x);
                }
            }
        }
    }

    /// Takes out a waiting vertex of least `f_cost` (the first such to have
    /// joined); `None` when nothing waits.
    pub fn pop(&mut self, g: &Vec<Vertex>) -> (r: Option<usize>)
        requires
            forall|j: int| 0 <= j < old(self).items().len() ==> old(self).items()[j] < g@.len(),
        ensures
            old(self).items().len() == 0 ==> r.is_none() && final(self).items() == old(self).items(),
            old(self).items().len() > 0 ==> (r matches Some(s) && took_least(
                g@,
                old(self).items(),
                final(self).items(),
                s,
            )),
            old(self).items().len() > 0 && old(self).items().no_duplicates() ==> (r matches Some(s)
                && final(self).items().no_duplicates() && forall|x: usize|
                #[trigger] final(self).items().contains(x) <==> (old(self).items().contains(x) && x
                    != s)),
    {
        let n = self.heap.len();
        if n == 0 {
            return None;
        }
        let mut best: usize = 0;
        let mut i: usize = 1;
        assert(forall|j: int| 0 <= j < n ==> self.heap@[j] == old(self).items()[j]);
        while i < n
            invariant
                n == self.heap@.len(),
                self.heap@ == old(self).items(),
                forall|j: int| 0 <= j < n ==> self.heap@[j] < g@.len(),
                1 <= i <= n,
                best < i,
                forall|j: int|
                    0 <= j < i ==> g@[self.heap@[best as int] as int].f_cost <= g@[self.heap@[j]
                        as int].f_cost,
                forall|j: int|
                    0 <= j < best ==> g@[self.heap@[best as int] as int].f_cost < g@[self.heap@[j]
                        as int].f_cost,
            decreases n - i,
        {
            if g[self.heap[i]].f_cost < g[self.heap[best]].f_cost {
                best = i;
            }
            i = i + 1;
        }
        let ghost before = self.heap@;
        let s = self.heap.remove(best);
        proof {
            if before.no_duplicates() {
                assert forall|x: usize| #[trigger] self.heap@.contains(x) <==> (before.contains(x)
                    && x != s) by {
                    if before.contains(x) && x != s {
                        let j = choose|j: int| 0 <= j < before.len() && before[j] == x;
                        if j < best {
                            assert(self.heap@[j] == x);
                        } else {
                            assert(j != best);
                            assert(self.heap@[j - 1] == x);
                        }
                    }
                    if self.heap@.contains(x) {
                        let j = choose|j: int| 0 <= j < self.heap@.len() && self.heap@[j] == x;
                        if j < best {
                            assert(before[j] == x);
                        } else {
                            assert(before[j + 1] == x);
                        }
                    }
                }
                assert(self.heap@.no_duplicates()) by {
                    assert forall|a: int, b: int|
                        0 <= a < self.heap@.len() && 0 <= b < self.heap@.len() && a != b implies
                        self.heap@[a] != self.heap@[b] by {
                        let a2 = if a < best { a } else { a + 1 };
                        let b2 = if b < best { b } else { b + 1 };
                        assert(self.heap@[a] == before[a2]);
                        assert(self.heap@[b] == before[b2]);
                    }
                }
            }
        }
        Some(s)
    }
}

} // verus!
