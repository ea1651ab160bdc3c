//! Breadth-first search from a cell into the next band.

use crate::generation::voronoi::{lists, Diagram};
use crate::graph::{chain, in_range, is_walk, lemma_visit_one, linked, unvisited};
use std::collections::HashSet;
use vstd::prelude::*;

pub mod plain;
pub mod ties;

verus! {

/// A cell that a search has arrived at, and the cells that it walked through to
/// get there.
pub type Arrival = (usize, Seq<usize>);

/// Where a search may go: the adjacency of the cells, the cells that it looks
/// for, the cells that are taken, and how many cells it may walk through.
pub struct Terrain {
    pub graph: Seq<Seq<usize>>,
    pub band: Set<usize>,
    pub used: Set<usize>,
    pub max: nat,
}

/// The state of a search. `log` lists the arrivals that it walks on from, in the
/// order in which it made them; those before `head` are done.
#[verifier::ext_equal]
pub struct Search {
    pub log: Seq<Arrival>,
    pub head: nat,
    pub visited: Set<usize>,
    pub out: Seq<Arrival>,
}

impl Terrain {
    /// The search may walk through `c`.
    pub open spec fn free(self, c: usize) -> bool {
        !self.band.contains(c) && !self.used.contains(c)
    }

    /// `c` is one of the cells that the search looks for.
    pub open spec fn sought(self, c: usize) -> bool {
        self.band.contains(c) && !self.used.contains(c)
    }

    /// `path` leads from `start` to `target` through free cells, no more of them
    /// than allowed.
    pub open spec fn corridor(self, start: usize, path: Seq<usize>, target: usize) -> bool {
        &&& path.len() <= self.max
        &&& is_walk(self.graph, chain(start, path, target))
        &&& forall|i: int| 0 <= i < path.len() ==> self.free(#[trigger] path[i])
    }

    /// A search from `start` before its first step.
    pub open spec fn begin(self, start: usize) -> Search {
        Search {
            log: seq![(start, Seq::<usize>::empty())],
            head: 0,
            visited: Set::empty().insert(start),
            out: Seq::empty(),
        }
    }

    /// The search looks at `c` from the end of `path`. A cell is looked at once: a
    /// sought cell is an arrival to report, a free one is an arrival to walk on
    /// from, as long as the path may grow.
    pub open spec fn look(self, st: Search, path: Seq<usize>, c: usize) -> Search {
        if st.visited.contains(c) {
            st
        } else {
            Search {
                visited: st.visited.insert(c),
                out: if self.sought(c) {
                    st.out.push((c, path))
                } else {
                    st.out
                },
                log: if self.free(c) && path.len() < self.max {
                    st.log.push((c, path.push(c)))
                } else {
                    st.log
                },
                ..st
            }
        }
    }

    /// The search looks at each of `cells`, from the end of `path`.
    pub open spec fn look_all(self, st: Search, path: Seq<usize>, cells: Seq<usize>) -> Search
        decreases cells.len(),
    {
        if cells.len() == 0 {
            st
        } else {
            self.look(self.look_all(st, path, cells.drop_last()), path, cells.last())
        }
    }

    /// The search walks on from the oldest arrival that it is not done with.
    pub open spec fn expand(self, st: Search) -> Search {
        let (cell, path) = st.log[st.head as int];
        let seen = self.look_all(st, path, self.graph[cell as int]);
        Search { head: seen.head + 1, ..seen }
    }

    /// The search is over a graph, and stays in it.
    pub open spec fn sound(self, st: Search) -> bool {
        &&& self.graph.len() <= usize::MAX
        &&& in_range(self.graph)
        &&& st.head <= st.log.len()
        &&& forall|i: int| 0 <= i < st.log.len() ==> (#[trigger] st.log[i]).0 < self.graph.len()
    }

    /// Each step is done with one arrival, and each new arrival is a cell that was
    /// not visited before.
    pub open spec fn steps_left(self, st: Search) -> int {
        unvisited(st.visited, self.graph.len()) + st.log.len() - st.head
    }

    /// The search runs until it is done with every arrival.
    pub open spec fn run(self, st: Search) -> Search
        decreases self.steps_left(st),
        when self.sound(st)
        via Self::run_decreases
    {
        if st.head >= st.log.len() {
            st
        } else {
            self.run(self.expand(st))
        }
    }

    #[via_fn]
    proof fn run_decreases(self, st: Search) {
        if st.head < st.log.len() {
            self.lemma_expand_sound(st);
        }
    }

    /// Looking at cells of the graph keeps the search sound and brings it no
    /// further from its end.
    proof fn lemma_look_all_sound(self, st: Search, path: Seq<usize>, cells: Seq<usize>)
        requires
            self.sound(st),
            forall|k: int| 0 <= k < cells.len() ==> (#[trigger] cells[k]) < self.graph.len(),
        ensures
            self.sound(self.look_all(st, path, cells)),
            self.look_all(st, path, cells).head == st.head,
            self.steps_left(self.look_all(st, path, cells)) <= self.steps_left(st),
            st.log.len() <= self.look_all(st, path, cells).log.len(),
            st.log == self.look_all(st, path, cells).log.take(st.log.len() as int),
        decreases cells.len(),
    {
        if cells.len() > 0 {
            self.lemma_look_all_sound(st, path, cells.drop_last());
            let mid = self.look_all(st, path, cells.drop_last());
            let c = cells.last();
            if !mid.visited.contains(c) {
                lemma_visit_one(mid.visited, self.graph.len(), c);
            }
            assert(st.log =~= self.look(mid, path, c).log.take(st.log.len() as int));
        } else {
            assert(st.log =~= st.log.take(st.log.len() as int));
        }
    }

    /// A step keeps the search sound and brings it nearer to its end.
    proof fn lemma_expand_sound(self, st: Search)
        requires
            self.sound(st),
            st.head < st.log.len(),
        ensures
            self.sound(self.expand(st)),
            0 <= self.steps_left(self.expand(st)) < self.steps_left(st),
            self.expand(st).head == st.head + 1,
            st.log.len() <= self.expand(st).log.len(),
            st.log == self.expand(st).log.take(st.log.len() as int),
    {
        let (cell, path) = st.log[st.head as int];
        assert(cell < self.graph.len());
        self.lemma_look_all_sound(st, path, self.graph[cell as int]);
    }
}

/// The arrivals of a list, as values.
pub open spec fn arrivals(v: Seq<(usize, Vec<usize>)>) -> Seq<Arrival> {
    v.map_values(|a: (usize, Vec<usize>)| (a.0, a.1@))
}

/// What [`reach_into_band`] reports.
pub open spec fn reached(terrain: Terrain, start: usize) -> Seq<Arrival> {
    terrain.run(terrain.begin(start)).out
}

/// Breadth-first search from `start` for the cells of `band`, through cells that
/// are neither in `band` nor `used`, and through no more than
/// `max_intermediates` of them. Lists every cell found with the cells between
/// it and `start`, which are as few as they can be.
pub fn reach_into_band(
    diagram: &Diagram,
    start: usize,
    band: &HashSet<usize>,
    used: &HashSet<usize>,
    max_intermediates: usize,
) -> (out: Vec<(usize, Vec<usize>)>)
    requires
        in_range(diagram.graph()),
        start < diagram.neighbors@.len(),
    ensures
        arrivals(out@) == reached(
            Terrain {
                graph: diagram.graph(),
                band: band@,
                used: used@,
                max: max_intermediates as nat,
            },
            start,
        ),
{
    broadcast use vstd::std_specs::hash::group_hash_axioms;

    let ghost t = Terrain {
        graph: diagram.graph(),
        band: band@,
        used: used@,
        max: max_intermediates as nat,
    };
    let ghost mut st = t.begin(start);

    let mut out: Vec<(usize, Vec<usize>)> = Vec::new();
    let mut visited: HashSet<usize> = HashSet::new();
    visited.insert(start);
    let mut log: Vec<(usize, Vec<usize>)> = Vec::new();
    log.push((start, Vec::new()));
    let mut head: usize = 0;
    assert(arrivals(log@) =~= st.log);
    assert(arrivals(out@) =~= st.out);
    assert(t.graph.len() == diagram.neighbors.len());

    while head < log.len()
        invariant
            in_range(diagram.graph()),
            t.graph == diagram.graph(),
            t.band == band@,
            t.used == used@,
            t.max == max_intermediates,
            t.sound(st),
            st.head == head,
            head <= log.len(),
            arrivals(log@) == st.log,
            arrivals(out@) == st.out,
            visited@ == st.visited,
            t.run(st) == t.run(t.begin(start)),
        decreases t.steps_left(st),
    {
        broadcast use vstd::std_specs::hash::group_hash_axioms;

        let node = log[head].0;
        let path = log[head].1.clone();
        let ghost before = st;
        let ghost links = t.graph[node as int];
        assert(st.log[head as int] == (node, path@));
        assert(links == diagram.neighbors@[node as int]@);
        let mut k: usize = 0;
        assert(links.take(0) =~= Seq::<usize>::empty());
        while k < diagram.neighbors[node].len()
            invariant
                node < diagram.neighbors@.len(),
                links == diagram.neighbors@[node as int]@,
                k <= links.len(),
                t.band == band@,
                t.used == used@,
                t.max == max_intermediates,
                st == t.look_all(before, path@, links.take(k as int)),
                arrivals(log@) == st.log,
                arrivals(out@) == st.out,
                visited@ == st.visited,
            decreases links.len() - k,
        {
            broadcast use vstd::std_specs::hash::group_hash_axioms;

            let n = diagram.neighbors[node][k];
            proof {
                assert(links.take(k + 1).drop_last() =~= links.take(k as int));
                assert(links.take(k + 1).last() == n);
                st = t.look(st, path@, n);
            }
            k += 1;
            if visited.contains(&n) {
                continue;
            }
            visited.insert(n);
            if band.contains(&n) {
                if !used.contains(&n) {
                    out.push((n, path.clone()));
                    assert(arrivals(out@) =~= st.out);
                }
                continue;
            }
            if used.contains(&n) {
                continue;
            }
            if path.len() >= max_intermediates {
                continue;
            }
            let mut next = path.clone();
            next.push(n);
            log.push((n, next));
            assert(arrivals(log@) =~= st.log);
        }
        proof {
            assert(links.take(links.len() as int) =~= links);
            t.lemma_expand_sound(before);
            st = t.expand(before);
        }
        head += 1;
    }
    out
}

impl Terrain {
    /// The cells that an arrival at the end of `path` has behind it.
    spec fn trail(self, start: usize, path: Seq<usize>) -> Seq<usize> {
        seq![start] + path
    }

    /// An arrival is reached from `start` through free cells.
    spec fn arrival_ok(self, start: usize, st: Search, a: Arrival) -> bool {
        &&& a.1.len() <= self.max
        &&& is_walk(self.graph, self.trail(start, a.1))
        &&& self.trail(start, a.1).last() == a.0
        &&& forall|i: int| 0 <= i < a.1.len() ==> self.free(#[trigger] a.1[i])
    }

    /// `c` was first looked at from arrival `i`, and the search kept what it had
    /// to keep of it.
    spec fn settled(self, st: Search, c: usize, i: int) -> bool {
        &&& self.sought(c) ==> st.out.contains((c, st.log[i].1))
        &&& self.free(c) && st.log[i].1.len() < self.max ==> st.log.contains(
            (c, st.log[i].1.push(c)),
        )
    }

    /// `c` was settled by arrival `upto` or an earlier one.
    spec fn settled_by(self, st: Search, c: usize, upto: int) -> bool {
        exists|i: int| 0 <= i <= upto && #[trigger] self.settled(st, c, i)
    }

    /// A reported arrival: a sought cell at the end of a corridor.
    spec fn report_ok(self, start: usize, a: Arrival) -> bool {
        &&& self.sought(a.0)
        &&& a.0 != start
        &&& self.corridor(start, a.1, a.0)
    }

    /// What holds while the search looks around from arrival `cur`.
    spec fn ordered(self, start: usize, st: Search, cur: int) -> bool {
        &&& self.sound(st)
        &&& start < self.graph.len()
        &&& st.log.len() > 0
        &&& -1 <= cur < st.log.len()
        &&& st.log[0] == (start, Seq::<usize>::empty())
        &&& st.visited.contains(start)
        &&& forall|i: int| 0 <= i < st.log.len() ==> self.arrival_ok(start, st, #[trigger] st.log[i])
        &&& forall|i: int, j: int|
            0 <= i <= j < st.log.len() ==> (#[trigger] st.log[i]).1.len() <= (
            #[trigger] st.log[j]).1.len()
        &&& forall|j: int|
            0 <= j < st.log.len() ==> (#[trigger] st.log[j]).1.len() <= if cur < 0 {
                0
            } else {
                st.log[cur].1.len() + 1
            }
        &&& forall|k: int|
            0 <= k < st.out.len() ==> self.report_ok(start, #[trigger] st.out[k])
                && st.visited.contains(st.out[k].0)
        &&& forall|k: int, l: int|
            0 <= k < l < st.out.len() ==> (#[trigger] st.out[k]).0 != (#[trigger] st.out[l]).0
        &&& forall|c: usize| #[trigger]
            st.visited.contains(c) && c != start ==> self.settled_by(st, c, cur)
    }

    /// Every neighbour of the arrivals that the search is done with is settled.
    spec fn closed(self, start: usize, st: Search, upto: int) -> bool {
        forall|i: int, k: int|
            0 <= i < upto && 0 <= k < self.graph[st.log[i].0 as int].len() ==> {
                let c = #[trigger] self.graph[st.log[i].0 as int][k];
                c == start || self.settled_by(st, c, i)
            }
    }

    /// What is settled stays settled as the lists grow.
    proof fn lemma_settled_grows(self, st: Search, next: Search, c: usize, upto: int)
        requires
            self.settled_by(st, c, upto),
            upto < st.log.len() <= next.log.len(),
            forall|i: int| 0 <= i < st.log.len() ==> st.log[i] == #[trigger] next.log[i],
            st.out.len() <= next.out.len(),
            forall|i: int| 0 <= i < st.out.len() ==> st.out[i] == #[trigger] next.out[i],
        ensures
            self.settled_by(next, c, upto),
    {
        let i = choose|i: int| 0 <= i <= upto && #[trigger] self.settled(st, c, i);
        assert(next.log[i] == st.log[i]);
        if self.sought(c) {
            let a = (c, st.log[i].1);
            let k = choose|k: int| 0 <= k < st.out.len() && st.out[k] == a;
            assert(next.out[k] == a);
        }
        if self.free(c) && st.log[i].1.len() < self.max {
            let a = (c, st.log[i].1.push(c));
            let k = choose|k: int| 0 <= k < st.log.len() && st.log[k] == a;
            assert(next.log[k] == a);
        }
        assert(self.settled(next, c, i));
    }

    /// Looking at a neighbour of arrival `cur` keeps the order and settles that
    /// neighbour.
    proof fn lemma_look_ordered(self, start: usize, st: Search, cur: int, c: usize)
        requires
            self.ordered(start, st, cur),
            0 <= cur,
            c < self.graph.len(),
            linked(self.graph, st.log[cur].0, c),
        ensures
            ({
                let next = self.look(st, st.log[cur].1, c);
                &&& self.ordered(start, next, cur)
                &&& c == start || self.settled_by(next, c, cur)
                &&& st.log.len() <= next.log.len()
                &&& forall|i: int| 0 <= i < st.log.len() ==> st.log[i] == #[trigger] next.log[i]
                &&& st.out.len() <= next.out.len()
                &&& forall|i: int| 0 <= i < st.out.len() ==> st.out[i] == #[trigger] next.out[i]
            }),
    {
        let (from, path) = st.log[cur];
        let next = self.look(st, path, c);
        if !st.visited.contains(c) {
            let trail = self.trail(start, path);
            let longer = trail.push(c);
            assert(self.arrival_ok(start, st, st.log[cur]));
            assert(is_walk(self.graph, longer)) by {
                assert forall|i: int| 0 <= i < longer.len() - 1 implies #[trigger] linked(
                    self.graph,
                    longer[i],
                    longer[i + 1],
                ) by {
                    if i < trail.len() - 1 {
                        assert(linked(self.graph, trail[i], trail[i + 1]));
                    }
                }
            }
            assert(chain(start, path, c) =~= longer);
            assert(self.trail(start, path.push(c)) =~= longer);
            let a = (c, path.push(c));
            assert forall|i: int| 0 <= i < next.log.len() implies self.arrival_ok(
                start,
                next,
                #[trigger] next.log[i],
            ) by {
                if i < st.log.len() {
                    assert(self.arrival_ok(start, st, st.log[i]));
                } else {
                    assert(next.log[i] == a);
                }
            }
            if self.sought(c) {
                assert(next.out[next.out.len() - 1] == (c, path));
            }
            if self.free(c) && path.len() < self.max {
                assert(next.log[next.log.len() - 1] == a);
            }
            assert(next.log[cur] == st.log[cur]);
            assert(self.settled(next, c, cur));
            assert forall|v: usize| #[trigger]
                next.visited.contains(v) && v != start implies self.settled_by(next, v, cur) by {
                if v != c {
                    self.lemma_settled_grows(st, next, v, cur);
                }
            }
            lemma_visit_one(st.visited, self.graph.len(), c);
        }
    }

    /// Looking at all neighbours of arrival `cur` keeps the order and settles
    /// them.
    proof fn lemma_look_all_ordered(self, start: usize, st: Search, cur: int, cells: Seq<usize>)
        requires
            self.ordered(start, st, cur),
            0 <= cur,
            forall|k: int|
                0 <= k < cells.len() ==> (#[trigger] cells[k]) < self.graph.len() && linked(
                    self.graph,
                    st.log[cur].0,
                    cells[k],
                ),
        ensures
            ({
                let next = self.look_all(st, st.log[cur].1, cells);
                &&& self.ordered(start, next, cur)
                &&& forall|k: int|
                    0 <= k < cells.len() ==> (#[trigger] cells[k]) == start || self.settled_by(
                        next,
                        cells[k],
                        cur,
                    )
                &&& st.log.len() <= next.log.len()
                &&& forall|i: int| 0 <= i < st.log.len() ==> st.log[i] == #[trigger] next.log[i]
                &&& st.out.len() <= next.out.len()
                &&& forall|i: int| 0 <= i < st.out.len() ==> st.out[i] == #[trigger] next.out[i]
            }),
        decreases cells.len(),
    {
        if cells.len() > 0 {
            let less = cells.drop_last();
            assert forall|k: int| 0 <= k < less.len() implies (#[trigger] less[k])
                < self.graph.len() && linked(self.graph, st.log[cur].0, less[k]) by {
                assert(less[k] == cells[k]);
            }
            self.lemma_look_all_ordered(start, st, cur, less);
            let mid = self.look_all(st, st.log[cur].1, less);
            assert(mid.log[cur] == st.log[cur]);
            self.lemma_look_ordered(start, mid, cur, cells.last());
            let next = self.look(mid, mid.log[cur].1, cells.last());
            assert forall|k: int| 0 <= k < cells.len() implies (#[trigger] cells[k]) == start
                || self.settled_by(next, cells[k], cur) by {
                if k < less.len() {
                    assert(less[k] == cells[k]);
                    if cells[k] != start {
                        self.lemma_settled_grows(mid, next, cells[k], cur);
                    }
                }
            }
        }
    }

    /// A step keeps the order, and settles the neighbours of one more arrival.
    proof fn lemma_step_ordered(self, start: usize, st: Search)
        requires
            self.ordered(start, st, st.head - 1),
            self.closed(start, st, st.head as int),
            st.head < st.log.len(),
        ensures
            self.ordered(start, self.expand(st), st.head as int),
            self.closed(start, self.expand(st), (st.head + 1) as int),
            self.expand(st).head == st.head + 1,
    {
        let cur = st.head as int;
        let (cell, path) = st.log[cur];
        let cells = self.graph[cell as int];
        assert forall|c: usize| #[trigger]
            st.visited.contains(c) && c != start implies self.settled_by(st, c, cur) by {
            let i = choose|i: int| 0 <= i <= cur - 1 && #[trigger] self.settled(st, c, i);
            assert(self.settled(st, c, i));
        }
        if cur > 0 {
            assert(st.log[cur - 1].1.len() <= st.log[cur].1.len());
        }
        assert(self.ordered(start, st, cur));
        assert forall|k: int| 0 <= k < cells.len() implies (#[trigger] cells[k])
            < self.graph.len() && linked(self.graph, cell, cells[k]) by {
            assert(self.graph[cell as int][k] < self.graph.len());
        }
        self.lemma_look_all_ordered(start, st, cur, cells);
        let seen = self.look_all(st, path, cells);
        let next = self.expand(st);
        self.lemma_expand_sound(st);
        assert(seen.log == next.log && seen.out == next.out && seen.visited == next.visited);
        assert forall|c: usize, upto: int| self.settled_by(seen, c, upto) implies
            #[trigger] self.settled_by(next, c, upto) by {
            let i = choose|i: int| 0 <= i <= upto && #[trigger] self.settled(seen, c, i);
            assert(self.settled(next, c, i));
        }
        assert(self.ordered(start, next, next.head - 1)) by {
            assert forall|i: int| 0 <= i < next.log.len() implies self.arrival_ok(
                start,
                next,
                #[trigger] next.log[i],
            ) by {
                assert(self.arrival_ok(start, seen, seen.log[i]));
            }
        }
        assert forall|i: int, k: int|
            0 <= i < next.head && 0 <= k < self.graph[next.log[i].0 as int].len() implies {
            let c = #[trigger] self.graph[next.log[i].0 as int][k];
            c == start || self.settled_by(next, c, i)
        } by {
            assert(next.log[i] == st.log[i]);
            let c = self.graph[next.log[i].0 as int][k];
            if i < st.head {
                assert(c == self.graph[st.log[i].0 as int][k]);
                if c != start {
                    self.lemma_settled_grows(st, next, c, i);
                }
            } else {
                assert(c == cells[k]);
            }
        }
    }

    /// The whole search keeps the order, and ends with every arrival's neighbours
    /// settled.
    proof fn lemma_run_ordered(self, start: usize, st: Search)
        requires
            self.ordered(start, st, st.head - 1),
            self.closed(start, st, st.head as int),
        ensures
            ({
                let end = self.run(st);
                &&& end.head == end.log.len()
                &&& self.ordered(start, end, end.head - 1)
                &&& self.closed(start, end, end.head as int)
            }),
        decreases self.steps_left(st),
    {
        if st.head < st.log.len() {
            self.lemma_expand_sound(st);
            self.lemma_step_ordered(start, st);
            self.lemma_run_ordered(start, self.expand(st));
        }
    }

    /// A walk of free cells leads to arrivals only, none of them later than it.
    proof fn lemma_walk_arrives(
        self,
        start: usize,
        st: Search,
        path: Seq<usize>,
        target: usize,
        j: int,
    ) -> (i: int)
        requires
            st.head == st.log.len(),
            self.ordered(start, st, st.head - 1),
            self.closed(start, st, st.head as int),
            self.corridor(start, path, target),
            0 <= j <= path.len(),
        ensures
            0 <= i < st.log.len(),
            st.log[i].0 == self.trail(start, path)[j],
            st.log[i].1.len() <= j,
        decreases j,
    {
        if j == 0 {
            0
        } else {
            let i = self.lemma_walk_arrives(start, st, path, target, j - 1);
            let whole = chain(start, path, target);
            let u = whole[j - 1];
            let v = whole[j];
            assert(u == self.trail(start, path)[j - 1]);
            assert(v == self.trail(start, path)[j] && v == path[j - 1]);
            assert(linked(self.graph, whole[j - 1], whole[j - 1 + 1]));
            let k = choose|k: int|
                0 <= k < self.graph[u as int].len() && self.graph[u as int][k] == v;
            assert(self.graph[st.log[i].0 as int][k] == v);
            if v == start {
                0
            } else {
                let d = choose|d: int| 0 <= d <= i && #[trigger] self.settled(st, v, d);
                assert(st.log[d].1.len() <= st.log[i].1.len());
                assert(self.free(path[j - 1]));
                let a = (v, st.log[d].1.push(v));
                choose|l: int| 0 <= l < st.log.len() && st.log[l] == a
            }
        }
    }
}

/// What a search reports: sought cells only, none of them twice, each with a
/// corridor to it; and every sought cell that a corridor leads to, with a
/// corridor that is no longer.
pub proof fn law_reached_is_shortest(terrain: Terrain, start: usize)
    requires
        in_range(terrain.graph),
        terrain.graph.len() <= usize::MAX,
        start < terrain.graph.len(),
    ensures
        forall|k: int|
            0 <= k < reached(terrain, start).len() ==> {
                let (target, path) = #[trigger] reached(terrain, start)[k];
                &&& terrain.sought(target)
                &&& target != start
                &&& terrain.corridor(start, path, target)
            },
        forall|k: int, l: int|
            0 <= k < l < reached(terrain, start).len() ==> (#[trigger] reached(
                terrain,
                start,
            )[k]).0 != (#[trigger] reached(terrain, start)[l]).0,
        forall|path: Seq<usize>, target: usize| #[trigger]
            terrain.corridor(start, path, target) && terrain.sought(target) && target != start
                ==> exists|k: int|
                0 <= k < reached(terrain, start).len() && (#[trigger] reached(
                    terrain,
                    start,
                )[k]).0 == target && reached(terrain, start)[k].1.len() <= path.len(),
{
    let st = terrain.begin(start);
    let trail = terrain.trail(start, Seq::<usize>::empty());
    assert(trail =~= seq![start]);
    assert(terrain.arrival_ok(start, st, st.log[0]));
    assert(terrain.ordered(start, st, -1));
    terrain.lemma_run_ordered(start, st);
    let end = terrain.run(st);
    assert forall|k: int| 0 <= k < reached(terrain, start).len() implies {
        let (target, path) = #[trigger] reached(terrain, start)[k];
        &&& terrain.sought(target)
        &&& target != start
        &&& terrain.corridor(start, path, target)
    } by {
        assert(terrain.report_ok(start, end.out[k]));
    }
    assert forall|path: Seq<usize>, target: usize| #[trigger]
        terrain.corridor(start, path, target) && terrain.sought(target) && target
            != start implies exists|k: int|
        0 <= k < reached(terrain, start).len() && (#[trigger] reached(terrain, start)[k]).0
            == target && reached(terrain, start)[k].1.len() <= path.len() by {
        let n = path.len() as int;
        let i = terrain.lemma_walk_arrives(start, end, path, target, n);
        let whole = chain(start, path, target);
        assert(whole[n] == terrain.trail(start, path)[n]);
        assert(whole[n + 1] == target);
        assert(linked(terrain.graph, whole[n], whole[n + 1]));
        let u = whole[n];
        let k = choose|k: int|
            0 <= k < terrain.graph[u as int].len() && terrain.graph[u as int][k] == target;
        assert(terrain.graph[end.log[i].0 as int][k] == target);
        let d = choose|d: int| 0 <= d <= i && #[trigger] terrain.settled(end, target, d);
        assert(end.log[d].1.len() <= end.log[i].1.len());
        let a = (target, end.log[d].1);
        let l = choose|l: int| 0 <= l < end.out.len() && end.out[l] == a;
        assert(reached(terrain, start)[l].0 == target);
    }
}

/// A corridor that a search reports repeats no cell.
pub proof fn law_reached_repeats_no_cell(terrain: Terrain, start: usize, k: int)
    requires
        in_range(terrain.graph),
        terrain.graph.len() <= usize::MAX,
        start < terrain.graph.len(),
        0 <= k < reached(terrain, start).len(),
    ensures
        reached(terrain, start)[k].1.no_duplicates(),
{
    law_reached_is_shortest(terrain, start);
    let (target, path) = reached(terrain, start)[k];
    assert(terrain.corridor(start, path, target));
    assert forall|i: int, j: int| 0 <= i < j < path.len() implies path[i] != path[j] by {
        if path[i] == path[j] {
            let cut = path.take(i + 1) + path.skip(j + 1);
            lemma_cut(terrain, start, path, target, i, j);
            let l = choose|l: int|
                0 <= l < reached(terrain, start).len() && (#[trigger] reached(
                    terrain,
                    start,
                )[l]).0 == target && reached(terrain, start)[l].1.len() <= cut.len();
            assert(l == k);
        }
    }
}

/// What lies between two visits of a cell can be cut out of a corridor.
proof fn lemma_cut(
    terrain: Terrain,
    start: usize,
    path: Seq<usize>,
    target: usize,
    i: int,
    j: int,
)
    requires
        terrain.corridor(start, path, target),
        0 <= i < j < path.len(),
        path[i] == path[j],
    ensures
        terrain.corridor(start, path.take(i + 1) + path.skip(j + 1), target),
{
    let cut = path.take(i + 1) + path.skip(j + 1);
    let old = chain(start, path, target);
    let new = chain(start, cut, target);
    assert forall|x: int| 0 <= x < new.len() implies (#[trigger] new[x]) < terrain.graph.len() by {
        if x <= i + 1 {
            assert(new[x] == old[x]);
        } else {
            assert(new[x] == old[x + (j - i)]);
        }
    }
    assert forall|x: int| 0 <= x < new.len() - 1 implies #[trigger] linked(
        terrain.graph,
        new[x],
        new[x + 1],
    ) by {
        if x <= i {
            assert(new[x] == old[x] && new[x + 1] == old[x + 1]);
            assert(linked(terrain.graph, old[x], old[x + 1]));
        } else {
            let y = x + (j - i);
            assert(new[x] == old[y] && new[x + 1] == old[y + 1]);
            assert(linked(terrain.graph, old[y], old[y + 1]));
        }
    }
    assert forall|x: int| 0 <= x < cut.len() implies terrain.free(#[trigger] cut[x]) by {
        if x <= i {
            assert(cut[x] == path[x]);
        } else {
            assert(cut[x] == path[x + (j - i)]);
        }
    }
}

} // verus!
