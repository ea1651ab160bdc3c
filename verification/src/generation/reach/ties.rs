//! Which of several shortest paths a search reports.

use super::plain::{comes_before, leads_to, lemma_walks};
use super::{law_reached_is_shortest, reached, Search, Terrain};
use crate::graph::{chain, in_range, linked};
use vstd::prelude::*;

verus! {

/// Where two paths from `start` part for the first time, `p` goes to a cell that is
/// listed before the one that `q` goes to.
pub open spec fn turns_first(
    graph: Seq<Seq<usize>>,
    start: usize,
    p: Seq<usize>,
    q: Seq<usize>,
) -> bool {
    exists|x: int|
        0 <= x < p.len() && x < q.len() && p.take(x) == q.take(x) && comes_before(
            graph[if x == 0 {
                start
            } else {
                p[x - 1]
            } as int],
            #[trigger] p[x],
            q[x],
        )
}

proof fn lemma_place(
    graph: Seq<Seq<usize>>,
    start: usize,
    p: Seq<usize>,
    q: Seq<usize>,
) -> (x: int)
    requires
        turns_first(graph, start, p, q),
    ensures
        0 <= x < p.len(),
        x < q.len(),
        p.take(x) == q.take(x),
        forall|y: int| 0 <= y < x ==> #[trigger] p[y] == q[y],
        comes_before(
            graph[if x == 0 {
                start
            } else {
                p[x - 1]
            } as int],
            p[x],
            q[x],
        ),
{
    let x = choose|x: int|
        0 <= x < p.len() && x < q.len() && p.take(x) == q.take(x) && comes_before(
            graph[if x == 0 {
                start
            } else {
                p[x - 1]
            } as int],
            #[trigger] p[x],
            q[x],
        );
    assert forall|y: int| 0 <= y < x implies #[trigger] p[y] == q[y] by {
        assert(p.take(x)[y] == q.take(x)[y]);
    }
    x
}

proof fn lemma_before_twice(cells: Seq<usize>, x: usize, y: usize, z: usize)
    requires
        comes_before(cells, x, y),
        comes_before(cells, y, z),
    ensures
        comes_before(cells, x, z),
{
    let a = choose|a: int|
        0 <= a < cells.len() && #[trigger] cells[a] == x && forall|b: int|
            0 <= b <= a ==> #[trigger] cells[b] != y;
    let c = choose|c: int|
        0 <= c < cells.len() && #[trigger] cells[c] == y && forall|b: int|
            0 <= b <= c ==> #[trigger] cells[b] != z;
    assert(a < c);
    assert(cells[a] == x);
}

proof fn lemma_turns_twice(
    graph: Seq<Seq<usize>>,
    start: usize,
    p: Seq<usize>,
    q: Seq<usize>,
    r: Seq<usize>,
)
    requires
        turns_first(graph, start, p, q),
        turns_first(graph, start, q, r),
    ensures
        turns_first(graph, start, p, r),
{
    let x = lemma_place(graph, start, p, q);
    let y = lemma_place(graph, start, q, r);
    let z = if x < y {
        x
    } else {
        y
    };
    assert(p.take(z) =~= r.take(z)) by {
        assert forall|w: int| 0 <= w < z implies p[w] == r[w] by {
            assert(p[w] == q[w] && q[w] == r[w]);
        }
    }
    if z > 0 {
        assert(p[z - 1] == q[z - 1]);
    }
    if x < y {
        assert(q[x] == r[x]);
    } else if y < x {
        assert(p[y] == q[y]);
    } else {
        let cells = graph[if z == 0 {
            start
        } else {
            p[z - 1]
        } as int];
        lemma_before_twice(cells, p[z], q[z], r[z]);
    }
}

proof fn lemma_turns_lift(graph: Seq<Seq<usize>>, start: usize, p: Seq<usize>, q: Seq<usize>)
    requires
        p.len() > 0,
        q.len() > 0,
        turns_first(graph, start, p.drop_last(), q.drop_last()),
    ensures
        turns_first(graph, start, p, q),
{
    let x = lemma_place(graph, start, p.drop_last(), q.drop_last());
    assert(p.take(x) =~= p.drop_last().take(x));
    assert(q.take(x) =~= q.drop_last().take(x));
    assert(p[x] == p.drop_last()[x] && q[x] == q.drop_last()[x]);
}

impl Terrain {
    /// Of two arrivals with paths of the same length, the earlier one turns off first.
    spec fn lined(self, start: usize, st: Search) -> bool {
        forall|a: int, b: int|
            0 <= a < b < st.log.len() && (#[trigger] st.log[a]).1.len() == (
            #[trigger] st.log[b]).1.len() ==> turns_first(
                self.graph,
                start,
                st.log[a].1,
                st.log[b].1,
            )
    }

    /// Arrivals that are one step further than arrival `cur` come from an earlier one, or
    /// from it, by one of the first `k` of its neighbours.
    spec fn born(self, st: Search, cur: int, k: int) -> bool {
        forall|b: int|
            0 <= b < st.log.len() && (#[trigger] st.log[b]).1.len() == st.log[cur].1.len() + 1
                ==> self.child(st, cur, k, b)
    }

    spec fn child(self, st: Search, cur: int, k: int, b: int) -> bool {
        ||| exists|p: int| 0 <= p < cur && (#[trigger] st.log[p]).1 == st.log[b].1.drop_last()
        ||| st.log[b].1.drop_last() == st.log[cur].1 && exists|x: int|
            0 <= x < k && #[trigger] self.graph[st.log[cur].0 as int][x] == st.log[b].1.last()
    }

    proof fn lemma_look_all_lined(self, start: usize, st: Search, cur: int, k: int)
        requires
            self.sound(st),
            0 <= cur < st.log.len(),
            self.arrival_ok(start, st, st.log[cur]),
            0 <= k <= self.graph[st.log[cur].0 as int].len(),
            self.graph[st.log[cur].0 as int].no_duplicates(),
            self.lined(start, st),
            self.born(st, cur, 0),
        ensures
            ({
                let cells = self.graph[st.log[cur].0 as int];
                let now = self.look_all(st, st.log[cur].1, cells.take(k));
                &&& now.log.len() >= st.log.len()
                &&& forall|i: int| 0 <= i < st.log.len() ==> #[trigger] now.log[i] == st.log[i]
                &&& self.lined(start, now)
                &&& self.born(now, cur, k)
            }),
        decreases k,
    {
        let (cell, path) = st.log[cur];
        let cells = self.graph[cell as int];
        if k > 0 {
            let m = k - 1;
            self.lemma_look_all_lined(start, st, cur, m);
            assert(cells.take(k).drop_last() =~= cells.take(m));
            let c = cells[m];
            assert(cells.take(k).last() == c);
            let mid = self.look_all(st, path, cells.take(m));
            let now = self.look(mid, path, c);
            let n = mid.log.len() as int;
            let fresh = path.push(c);
            assert(mid.log[cur] == st.log[cur]);
            assert(now.log[cur] == st.log[cur]);
            assert(fresh.drop_last() =~= path);
            assert forall|a: int, b: int|
                0 <= a < b < now.log.len() && (#[trigger] now.log[a]).1.len() == (
                #[trigger] now.log[b]).1.len() implies turns_first(
                self.graph,
                start,
                now.log[a].1,
                now.log[b].1,
            ) by {
                assert(now.log[a] == mid.log[a]);
                if b < n {
                    assert(now.log[b] == mid.log[b]);
                } else {
                    assert(now.log[b].1 == fresh);
                    assert(self.child(mid, cur, m, a));
                    let p = mid.log[a].1;
                    if exists|e: int| 0 <= e < cur && (#[trigger] mid.log[e]).1 == p.drop_last() {
                        let e = choose|e: int|
                            0 <= e < cur && (#[trigger] mid.log[e]).1 == p.drop_last();
                        assert(turns_first(self.graph, start, mid.log[e].1, mid.log[cur].1));
                        lemma_turns_lift(self.graph, start, p, fresh);
                    } else {
                        let x = choose|x: int| 0 <= x < m && #[trigger] cells[x] == p.last();
                        assert forall|y: int| 0 <= y <= x implies #[trigger] cells[y] != c by {}
                        assert(comes_before(cells, p.last(), c));
                        let z = path.len() as int;
                        assert(p.take(z) =~= p.drop_last());
                        assert(fresh.take(z) =~= path);
                        assert(p[z] == p.last() && fresh[z] == c);
                        let trail = self.trail(start, path);
                        assert(trail.last() == cell);
                        if z > 0 {
                            assert(trail.last() == path[z - 1]);
                            assert(p[z - 1] == p.drop_last()[z - 1]);
                        }
                    }
                }
            }
            assert forall|b: int|
                0 <= b < now.log.len() && (#[trigger] now.log[b]).1.len() == now.log[cur].1.len()
                    + 1 implies self.child(now, cur, k, b) by {
                if b < n {
                    assert(now.log[b] == mid.log[b]);
                    assert(self.child(mid, cur, m, b));
                    if exists|e: int|
                        0 <= e < cur && (#[trigger] mid.log[e]).1 == mid.log[b].1.drop_last() {
                        let e = choose|e: int|
                            0 <= e < cur && (#[trigger] mid.log[e]).1 == mid.log[b].1.drop_last();
                        assert(now.log[e] == mid.log[e]);
                    } else {
                        let x = choose|x: int|
                            0 <= x < m && #[trigger] cells[x] == mid.log[b].1.last();
                        assert(cells[x] == now.log[b].1.last());
                    }
                } else {
                    assert(cells[m] == now.log[b].1.last());
                }
            }
        } else {
            assert(cells.take(0) =~= Seq::<usize>::empty());
        }
    }

    proof fn lemma_run_lined(self, start: usize, st: Search)
        requires
            self.ordered(start, st, st.head - 1),
            self.closed(start, st, st.head as int),
            forall|c: int| 0 <= c < self.graph.len() ==> (#[trigger] self.graph[c]).no_duplicates(),
            self.lined(start, st),
            st.head < st.log.len() ==> self.born(st, st.head as int, 0),
        ensures
            self.lined(start, self.run(st)),
        decreases self.steps_left(st),
    {
        if st.head < st.log.len() {
            let cur = st.head as int;
            let (cell, path) = st.log[cur];
            let cells = self.graph[cell as int];
            assert(self.arrival_ok(start, st, st.log[cur]));
            self.lemma_look_all_lined(start, st, cur, cells.len() as int);
            assert(cells.take(cells.len() as int) =~= cells);
            self.lemma_expand_sound(st);
            self.lemma_step_ordered(start, st);
            let next = self.expand(st);
            let seen = self.look_all(st, path, cells);
            assert(next.log == seen.log);
            assert(next.log[cur] == st.log[cur]);
            if next.head < next.log.len() {
                assert forall|b: int|
                    0 <= b < next.log.len() && (#[trigger] next.log[b]).1.len()
                        == next.log[cur + 1].1.len() + 1 implies self.child(
                    next,
                    cur + 1,
                    0,
                    b,
                ) by {
                    assert(next.log[cur].1.len() <= next.log[cur + 1].1.len());
                    assert(next.log[b].1.len() <= next.log[cur].1.len() + 1);
                    assert(self.child(seen, cur, cells.len() as int, b));
                    if exists|e: int|
                        0 <= e < cur && (#[trigger] seen.log[e]).1 == seen.log[b].1.drop_last() {
                        let e = choose|e: int|
                            0 <= e < cur && (#[trigger] seen.log[e]).1 == seen.log[b].1.drop_last();
                        assert(next.log[e].1 == next.log[b].1.drop_last());
                    } else {
                        assert(next.log[cur].1 == next.log[b].1.drop_last());
                    }
                }
            }
            self.lemma_run_lined(start, next);
        }
    }

    /// A walk of free cells leads to an arrival with a path that is shorter, the same, or
    /// turns off first.
    proof fn lemma_walk_is_not_first(
        self,
        start: usize,
        st: Search,
        path: Seq<usize>,
        target: usize,
        j: int,
    ) -> (i: int)
        requires
            st.head == st.log.len(),
            self.ordered(start, st, st.head - 1),
            self.closed(start, st, st.head as int),
            self.lined(start, st),
            self.corridor(start, path, target),
            0 <= j <= path.len(),
        ensures
            0 <= i < st.log.len(),
            st.log[i].0 == self.trail(start, path)[j],
            st.log[i].1.len() <= j,
            st.log[i].1.len() == j ==> st.log[i].1 == path.take(j) || turns_first(
                self.graph,
                start,
                st.log[i].1,
                path.take(j),
            ),
        decreases j,
    {
        if j == 0 {
            assert(st.log[0].1 =~= path.take(0));
            0
        } else {
            let i = self.lemma_walk_is_not_first(start, st, path, target, j - 1);
            let whole = chain(start, path, target);
            let u = whole[j - 1];
            let v = whole[j];
            assert(u == self.trail(start, path)[j - 1]);
            assert(v == self.trail(start, path)[j] && v == path[j - 1]);
            assert(linked(self.graph, whole[j - 1], whole[j - 1 + 1]));
            let k = choose|k: int|
                0 <= k < self.graph[u as int].len() && self.graph[u as int][k] == v;
            assert(self.graph[st.log[i].0 as int][k] == v);
            if v == start {
                0
            } else {
                let d = choose|d: int| 0 <= d <= i && #[trigger] self.settled(st, v, d);
                assert(st.log[d].1.len() <= st.log[i].1.len());
                assert(self.free(path[j - 1]));
                let a = (v, st.log[d].1.push(v));
                let l = choose|l: int| 0 <= l < st.log.len() && st.log[l] == a;
                let now = st.log[l].1;
                let goal = path.take(j);
                let short = path.take(j - 1);
                assert(goal.drop_last() =~= short);
                assert(now.drop_last() =~= st.log[d].1);
                if now.len() == j {
                    if d < i {
                        assert(turns_first(self.graph, start, st.log[d].1, st.log[i].1));
                        if st.log[i].1 != short {
                            lemma_turns_twice(
                                self.graph,
                                start,
                                st.log[d].1,
                                st.log[i].1,
                                short,
                            );
                        }
                    }
                    if st.log[d].1 == short {
                        assert(now =~= goal);
                    } else {
                        lemma_turns_lift(self.graph, start, now, goal);
                    }
                }
                l
            }
        }
    }
}

/// Of several shortest paths to a cell, a search reports the one that turns off first:
/// where another one parts from it, the path reported goes to the cell that is listed
/// first.
pub proof fn law_a_search_reports_the_path_that_turns_first(
    t: Terrain,
    start: usize,
    k: int,
    path: Seq<usize>,
)
    requires
        in_range(t.graph),
        t.graph.len() <= usize::MAX,
        start < t.graph.len(),
        forall|c: int| 0 <= c < t.graph.len() ==> (#[trigger] t.graph[c]).no_duplicates(),
        0 <= k < reached(t, start).len(),
        leads_to(t, start, path, reached(t, start)[k].0),
        path.len() == reached(t, start)[k].1.len(),
        path != reached(t, start)[k].1,
    ensures
        turns_first(t.graph, start, reached(t, start)[k].1, path),
{
    let (target, found) = reached(t, start)[k];
    law_reached_is_shortest(t, start);
    let st = t.begin(start);
    let trail = t.trail(start, Seq::<usize>::empty());
    assert(trail =~= seq![start]);
    assert(t.arrival_ok(start, st, st.log[0]));
    assert(t.ordered(start, st, -1));
    t.lemma_run_ordered(start, st);
    t.lemma_run_lined(start, st);
    let end = t.run(st);
    lemma_walks(t.graph, start, path, target);
    assert forall|x: int| 0 <= x < path.len() implies t.free(#[trigger] path[x]) by {}
    assert(t.corridor(start, path, target));
    let j = path.len() as int;
    let i = t.lemma_walk_is_not_first(start, end, path, target, j);
    assert(path.take(j) =~= path);
    let whole = chain(start, path, target);
    assert(whole[j] == t.trail(start, path)[j]);
    assert(linked(t.graph, whole[j], whole[j + 1]));
    let u = whole[j];
    let e = choose|e: int| 0 <= e < t.graph[u as int].len() && t.graph[u as int][e] == target;
    assert(t.graph[end.log[i].0 as int][e] == target);
    assert(t.sought(target) && target != start);
    let d = choose|d: int| 0 <= d <= i && #[trigger] t.settled(end, target, d);
    assert(end.log[d].1.len() <= end.log[i].1.len());
    let a = (target, end.log[d].1);
    let l = choose|l: int| 0 <= l < end.out.len() && end.out[l] == a;
    assert(l == k) by {
        if l < k {
            assert(reached(t, start)[l].0 != reached(t, start)[k].0);
        }
        if k < l {
            assert(reached(t, start)[k].0 != reached(t, start)[l].0);
        }
    }
    assert(found == end.log[d].1);
    if d < i {
        assert(turns_first(t.graph, start, end.log[d].1, end.log[i].1));
        if end.log[i].1 != path {
            lemma_turns_twice(t.graph, start, found, end.log[i].1, path);
        }
    }
}

} // verus!
