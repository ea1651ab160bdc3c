//! What a search reports, told by the lists of neighbours and the sets that it is
//! given.

use super::{law_reached_is_shortest, reached, Search, Terrain};
use crate::graph::{chain, in_range, is_walk, linked};
use crate::sequences::lemma_push_contains;
use vstd::prelude::*;

verus! {

/// The cell after `x` steps of a walk from `start` through `path` to `target`.
pub open spec fn after(start: usize, path: Seq<usize>, target: usize, x: int) -> usize {
    if x == 0 {
        start
    } else if x <= path.len() {
        path[x - 1]
    } else {
        target
    }
}

/// Each step of a walk from `start` through `path` to `target` goes to a cell that is
/// listed as a neighbour.
pub open spec fn walks(
    graph: Seq<Seq<usize>>,
    start: usize,
    path: Seq<usize>,
    target: usize,
) -> bool {
    &&& forall|x: int| 0 <= x <= path.len() + 1 ==> #[trigger] after(start, path, target, x)
        < graph.len()
    &&& forall|x: int|
        0 <= x <= path.len() ==> graph[#[trigger] after(start, path, target, x) as int].contains(
            after(start, path, target, x + 1),
        )
}

/// A walk, told step by step.
pub(crate) proof fn lemma_walks(
    graph: Seq<Seq<usize>>,
    start: usize,
    path: Seq<usize>,
    target: usize,
)
    ensures
        is_walk(graph, chain(start, path, target)) <==> walks(graph, start, path, target),
{
    let whole = chain(start, path, target);
    assert(whole.len() == path.len() + 2);
    assert forall|x: int| 0 <= x < whole.len() implies whole[x] == #[trigger] after(
        start,
        path,
        target,
        x,
    ) by {}
    if is_walk(graph, whole) {
        assert forall|x: int| 0 <= x <= path.len() + 1 implies #[trigger] after(
            start,
            path,
            target,
            x,
        ) < graph.len() by {
            assert(whole[x] < graph.len());
        }
        assert forall|x: int| 0 <= x <= path.len() implies graph[#[trigger] after(
            start,
            path,
            target,
            x,
        ) as int].contains(after(start, path, target, x + 1)) by {
            assert(linked(graph, whole[x], whole[x + 1]));
            assert(whole[x + 1] == after(start, path, target, x + 1));
        }
    }
    if walks(graph, start, path, target) {
        assert forall|x: int| 0 <= x < whole.len() implies (#[trigger] whole[x]) < graph.len() by {
            assert(after(start, path, target, x) < graph.len());
        }
        assert forall|x: int| 0 <= x < whole.len() - 1 implies #[trigger] linked(
            graph,
            whole[x],
            whole[x + 1],
        ) by {
            assert(graph[after(start, path, target, x) as int].contains(
                after(start, path, target, x + 1),
            ));
            assert(whole[x + 1] == after(start, path, target, x + 1));
        }
    }
}

/// The path leads from `start` to `target` by neighbours, through at most `max` cells
/// that are neither in the band nor used.
pub open spec fn leads_to(t: Terrain, start: usize, path: Seq<usize>, target: usize) -> bool {
    &&& path.len() <= t.max
    &&& walks(t.graph, start, path, target)
    &&& forall|x: int|
        0 <= x < path.len() ==> !t.band.contains(#[trigger] path[x]) && !t.used.contains(path[x])
}

/// A search reports exactly the cells of the band that are not used and to which a
/// path leads, each once and with a shortest path.
pub proof fn law_a_search_reports_what_can_be_reached(t: Terrain, start: usize, target: usize)
    requires
        in_range(t.graph),
        t.graph.len() <= usize::MAX,
        start < t.graph.len(),
    ensures
        (exists|k: int| 0 <= k < reached(t, start).len() && (#[trigger] reached(t, start)[k]).0
            == target) <==> t.band.contains(target) && !t.used.contains(target) && target != start
            && exists|path: Seq<usize>| leads_to(t, start, path, target),
        forall|k: int|
            0 <= k < reached(t, start).len() && (#[trigger] reached(t, start)[k]).0 == target ==> {
                &&& leads_to(t, start, reached(t, start)[k].1, target)
                &&& forall|path: Seq<usize>| #[trigger]
                    leads_to(t, start, path, target) ==> reached(t, start)[k].1.len() <= path.len()
                &&& forall|l: int|
                    0 <= l < reached(t, start).len() && (#[trigger] reached(t, start)[l]).0
                        == target ==> k == l
            },
{
    law_reached_is_shortest(t, start);
    let out = reached(t, start);
    assert forall|path: Seq<usize>| #[trigger] leads_to(t, start, path, target) implies t.corridor(
        start,
        path,
        target,
    ) by {
        lemma_walks(t.graph, start, path, target);
    }
    assert forall|k: int| 0 <= k < out.len() && (#[trigger] out[k]).0 == target implies leads_to(
        t,
        start,
        out[k].1,
        target,
    ) && t.sought(target) && target != start by {
        let (c, path) = out[k];
        assert(t.corridor(start, path, c));
        lemma_walks(t.graph, start, path, target);
        assert forall|x: int| 0 <= x < path.len() implies !t.band.contains(#[trigger] path[x])
            && !t.used.contains(path[x]) by {
            assert(t.free(path[x]));
        }
    }
    assert forall|k: int, l: int|
        0 <= k < out.len() && 0 <= l < out.len() && (#[trigger] out[k]).0 == target && (
        #[trigger] out[l]).0 == target implies k == l by {
        if k < l {
            assert(out[k].0 != out[l].0);
        }
        if l < k {
            assert(out[l].0 != out[k].0);
        }
    }
    assert forall|k: int, path: Seq<usize>|
        0 <= k < out.len() && (#[trigger] out[k]).0 == target && #[trigger] leads_to(
            t,
            start,
            path,
            target,
        ) implies out[k].1.len() <= path.len() by {
        assert(t.corridor(start, path, target));
        assert(t.sought(target) && target != start);
        let l = choose|l: int|
            0 <= l < out.len() && (#[trigger] out[l]).0 == target && out[l].1.len() <= path.len();
        assert(k == l);
    }
    if t.band.contains(target) && !t.used.contains(target) && target != start && exists|
        path: Seq<usize>,
    | leads_to(t, start, path, target) {
        let path = choose|path: Seq<usize>| leads_to(t, start, path, target);
        assert(t.corridor(start, path, target));
        assert(t.sought(target));
    }
}

impl Terrain {
    /// Reports come in the order of their lengths, none longer than `len`.
    spec fn rising(self, st: Search, len: nat) -> bool {
        &&& forall|k: int, l: int|
            0 <= k <= l < st.out.len() ==> (#[trigger] st.out[k]).1.len() <= (
            #[trigger] st.out[l]).1.len()
        &&& forall|k: int| 0 <= k < st.out.len() ==> (#[trigger] st.out[k]).1.len() <= len
    }

    proof fn lemma_look_all_rising(self, st: Search, path: Seq<usize>, cells: Seq<usize>)
        requires
            self.rising(st, path.len()),
        ensures
            self.rising(self.look_all(st, path, cells), path.len()),
        decreases cells.len(),
    {
        if cells.len() > 0 {
            self.lemma_look_all_rising(st, path, cells.drop_last());
        }
    }

    proof fn lemma_run_rising(self, start: usize, st: Search)
        requires
            self.ordered(start, st, st.head - 1),
            self.closed(start, st, st.head as int),
            st.head < st.log.len() ==> self.rising(st, st.log[st.head as int].1.len()),
            st.head >= st.log.len() ==> self.rising(st, self.max),
        ensures
            self.rising(self.run(st), self.max),
        decreases self.steps_left(st),
    {
        if st.head < st.log.len() {
            let cur = st.head as int;
            let (cell, path) = st.log[cur];
            self.lemma_expand_sound(st);
            self.lemma_look_all_rising(st, path, self.graph[cell as int]);
            let next = self.expand(st);
            self.lemma_step_ordered(start, st);
            assert(next.log[cur] == st.log[cur]) by {
                assert(next.log.take(st.log.len() as int)[cur] == next.log[cur]);
            }
            if next.head < next.log.len() {
                assert(next.log[cur].1.len() <= next.log[cur + 1].1.len());
            } else {
                assert(self.arrival_ok(start, next, next.log[cur]));
            }
            self.lemma_run_rising(start, next);
        }
    }

    /// The reports with an empty path come from the neighbours of the start, in order.
    proof fn lemma_first_look(self, st: Search, cells: Seq<usize>)
        requires
            st.out.len() == 0,
        ensures
            ({
                let now = self.look_all(st, Seq::empty(), cells);
                &&& forall|c: usize| #[trigger] cells.contains(c) ==> now.visited.contains(c)
                &&& forall|k: int|
                    0 <= k < now.out.len() ==> cells.contains((#[trigger] now.out[k]).0)
                &&& forall|k: int, l: int|
                    0 <= k < l < now.out.len() ==> comes_before(
                        cells,
                        (#[trigger] now.out[k]).0,
                        (#[trigger] now.out[l]).0,
                    )
            }),
        decreases cells.len(),
    {
        if cells.len() > 0 {
            let less = cells.drop_last();
            let c = cells.last();
            self.lemma_first_look(st, less);
            let mid = self.look_all(st, Seq::empty(), less);
            let now = self.look_all(st, Seq::empty(), cells);
            assert(cells =~= less.push(c));
            assert forall|x: usize| #[trigger] cells.contains(x) implies now.visited.contains(x) by {
                lemma_push_contains(less, c, x);
            }
            assert forall|k: int| 0 <= k < now.out.len() implies cells.contains(
                (#[trigger] now.out[k]).0,
            ) by {
                lemma_push_contains(less, c, now.out[k].0);
                if k < mid.out.len() {
                    assert(now.out[k] == mid.out[k]);
                }
            }
            assert forall|k: int, l: int| 0 <= k < l < now.out.len() implies comes_before(
                cells,
                (#[trigger] now.out[k]).0,
                (#[trigger] now.out[l]).0,
            ) by {
                assert(now.out[k] == mid.out[k]);
                let x = now.out[k].0;
                let y = now.out[l].0;
                if l < mid.out.len() {
                    assert(now.out[l] == mid.out[l]);
                    assert(comes_before(less, x, y));
                    let a = choose|a: int|
                        0 <= a < less.len() && #[trigger] less[a] == x && forall|b: int|
                            0 <= b <= a ==> #[trigger] less[b] != y;
                    assert(cells[a] == x);
                    assert forall|b: int| 0 <= b <= a implies #[trigger] cells[b] != y by {
                        assert(less[b] == cells[b]);
                    }
                } else {
                    assert(y == c);
                    assert(!mid.visited.contains(c));
                    assert(less.contains(mid.out[k].0));
                    let a = choose|a: int| 0 <= a < less.len() && less[a] == x;
                    assert(cells[a] == x);
                    assert forall|b: int| 0 <= b <= a implies #[trigger] cells[b] != y by {
                        assert(less[b] == cells[b]);
                        if cells[b] == c {
                            assert(less.contains(c));
                        }
                    }
                }
            }
        }
    }

    /// What is reported later has a path.
    proof fn lemma_look_all_adds(self, st: Search, path: Seq<usize>, cells: Seq<usize>)
        requires
            path.len() > 0,
        ensures
            ({
                let now = self.look_all(st, path, cells);
                &&& st.out.len() <= now.out.len()
                &&& forall|k: int| 0 <= k < st.out.len() ==> #[trigger] now.out[k] == st.out[k]
                &&& forall|k: int|
                    st.out.len() <= k < now.out.len() ==> (#[trigger] now.out[k]).1.len() > 0
                &&& st.log.len() <= now.log.len()
                &&& forall|k: int|
                    st.log.len() <= k < now.log.len() ==> (#[trigger] now.log[k]).1.len() > 0
                &&& forall|k: int| 0 <= k < st.log.len() ==> #[trigger] now.log[k] == st.log[k]
            }),
        decreases cells.len(),
    {
        if cells.len() > 0 {
            self.lemma_look_all_adds(st, path, cells.drop_last());
        }
    }

    proof fn lemma_look_all_logs(self, st: Search, cells: Seq<usize>)
        ensures
            ({
                let now = self.look_all(st, Seq::empty(), cells);
                &&& st.log.len() <= now.log.len()
                &&& forall|k: int|
                    st.log.len() <= k < now.log.len() ==> (#[trigger] now.log[k]).1.len() > 0
            }),
        decreases cells.len(),
    {
        if cells.len() > 0 {
            self.lemma_look_all_logs(st, cells.drop_last());
        }
    }

    proof fn lemma_run_adds(self, st: Search)
        requires
            self.sound(st),
            st.head > 0,
            forall|k: int| 1 <= k < st.log.len() ==> (#[trigger] st.log[k]).1.len() > 0,
        ensures
            ({
                let end = self.run(st);
                &&& st.out.len() <= end.out.len()
                &&& forall|k: int| 0 <= k < st.out.len() ==> #[trigger] end.out[k] == st.out[k]
                &&& forall|k: int|
                    st.out.len() <= k < end.out.len() ==> (#[trigger] end.out[k]).1.len() > 0
            }),
        decreases self.steps_left(st),
    {
        if st.head < st.log.len() {
            let (cell, path) = st.log[st.head as int];
            self.lemma_expand_sound(st);
            self.lemma_look_all_adds(st, path, self.graph[cell as int]);
            let next = self.expand(st);
            assert forall|k: int| 1 <= k < next.log.len() implies (#[trigger] next.log[k]).1.len()
                > 0 by {
                if k < st.log.len() {
                    assert(next.log[k] == st.log[k]);
                }
            }
            self.lemma_run_adds(next);
        }
    }
}

/// `x` is listed before the first place of `y`.
pub open spec fn comes_before(cells: Seq<usize>, x: usize, y: usize) -> bool {
    exists|a: int|
        0 <= a < cells.len() && #[trigger] cells[a] == x && forall|b: int|
            0 <= b <= a ==> #[trigger] cells[b] != y
}

/// A search reports what is near first: no report comes before one with a shorter
/// path, and those without any cell between come in the order in which they are
/// listed as neighbours of the start.
pub proof fn law_a_search_reports_what_is_near_first(t: Terrain, start: usize, k: int, l: int)
    requires
        in_range(t.graph),
        t.graph.len() <= usize::MAX,
        start < t.graph.len(),
        0 <= k < l < reached(t, start).len(),
    ensures
        reached(t, start)[k].1.len() <= reached(t, start)[l].1.len(),
        reached(t, start)[l].1.len() == 0 ==> comes_before(
            t.graph[start as int],
            reached(t, start)[k].0,
            reached(t, start)[l].0,
        ),
{
    let st = t.begin(start);
    let trail = t.trail(start, Seq::<usize>::empty());
    assert(trail =~= seq![start]);
    assert(t.arrival_ok(start, st, st.log[0]));
    assert(t.ordered(start, st, -1));
    t.lemma_run_rising(start, st);
    let cells = t.graph[start as int];
    t.lemma_expand_sound(st);
    let next = t.expand(st);
    assert(st.log[0].1 == Seq::<usize>::empty());
    t.lemma_first_look(st, cells);
    t.lemma_look_all_logs(st, cells);
    t.lemma_run_adds(next);
    let end = t.run(st);
    assert(end == t.run(next));
    if reached(t, start)[l].1.len() == 0 {
        assert(l < next.out.len());
        assert(end.out[l] == next.out[l]);
        assert(end.out[k] == next.out[k]);
    }
}

} // verus!
