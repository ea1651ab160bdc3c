//! Stretches corridors after the selection.
//!
//! The selection prefers targets at the desired distance, so most corridors arrive
//! here with a fitting length. Where a corridor is shorter than what was drawn for
//! it, a longer one is looked for through cells that nothing uses yet. A corridor
//! that is long enough already, or that cannot be made longer, is left as it is.

use crate::generation::crossing::{arrival_lists, Route};
use crate::generation::selection::{
    law_every_stop_is_connected, law_selection_keeps_cells_apart, law_selection_matches_layout,
    take_cells, walked, Chosen, Plan, Selection,
};
use crate::generation::voronoi::{lists, Diagram};
use crate::graph::{chain, in_range, is_walk, linked};
use std::collections::HashSet;
use vstd::prelude::*;

pub mod room;

verus! {

/// A search for a corridor of a given length between two cells.
pub struct Detour {
    pub graph: Seq<Seq<usize>>,
    pub from: usize,
    pub to: usize,
    pub used: Set<usize>,
}

impl Detour {
    /// The last cell of a path that starts at `from`.
    pub open spec fn tip(self, path: Seq<usize>) -> usize {
        if path.len() == 0 {
            self.from
        } else {
            path.last()
        }
    }

    /// The path may go on through `c`.
    pub open spec fn open_to(self, path: Seq<usize>, c: usize) -> bool {
        &&& c != self.from
        &&& c != self.to
        &&& !self.used.contains(c)
        &&& !path.contains(c)
    }

    /// The path made longer by each of `cells` that it may go on through.
    pub open spec fn onward(self, path: Seq<usize>, cells: Seq<usize>) -> Seq<Seq<usize>>
        decreases cells.len(),
    {
        if cells.len() == 0 {
            Seq::empty()
        } else {
            let before = self.onward(path, cells.drop_last());
            if self.open_to(path, cells.last()) {
                before.push(path.push(cells.last()))
            } else {
                before
            }
        }
    }

    /// The paths of a layer, each made longer by one cell.
    pub open spec fn spread(self, layer: Seq<Seq<usize>>) -> Seq<Seq<usize>>
        decreases layer.len(),
    {
        if layer.len() == 0 {
            Seq::empty()
        } else {
            self.spread(layer.drop_last()) + self.onward(
                layer.last(),
                self.graph[self.tip(layer.last()) as int],
            )
        }
    }

    /// All paths of `len` cells from `from` through open cells, in the order in which
    /// a breadth-first search meets them.
    pub open spec fn layer(self, len: nat) -> Seq<Seq<usize>>
        decreases len,
    {
        if len == 0 {
            seq![Seq::empty()]
        } else {
            self.spread(self.layer((len - 1) as nat))
        }
    }

    /// The path ends beside `to`.
    pub open spec fn arrives(self, path: Seq<usize>) -> bool {
        self.from != self.to && linked(self.graph, self.tip(path), self.to)
    }

    /// The first path of a layer that ends beside `to`.
    pub open spec fn first(self, layer: Seq<Seq<usize>>) -> Option<Seq<usize>>
        decreases layer.len(),
    {
        if layer.len() == 0 {
            None
        } else {
            match self.first(layer.drop_last()) {
                Some(path) => Some(path),
                None => if self.arrives(layer.last()) {
                    Some(layer.last())
                } else {
                    None
                },
            }
        }
    }

    /// The first path to `to` with at least `low` and fewer than `high` cells.
    pub open spec fn between(self, low: nat, high: nat) -> Option<Seq<usize>>
        decreases high,
    {
        if high <= low {
            None
        } else {
            match self.between(low, (high - 1) as nat) {
                Some(path) => Some(path),
                None => self.first(self.layer((high - 1) as nat)),
            }
        }
    }

    /// The first path whose length is within one cell of `desired`, and not zero.
    pub open spec fn found(self, desired: nat) -> Option<Seq<usize>> {
        self.between(least(desired), desired + 2)
    }

    /// `path` leads from `from` to `to` through cells that are not used, none of them
    /// twice.
    pub open spec fn corridor(self, path: Seq<usize>) -> bool {
        &&& self.from != self.to
        &&& is_walk(self.graph, chain(self.from, path, self.to))
        &&& path.no_duplicates()
        &&& forall|i: int|
            0 <= i < path.len() ==> (#[trigger] path[i]) != self.from && path[i] != self.to
                && !self.used.contains(path[i])
    }

    /// A path that a search can be at.
    spec fn trail(self, path: Seq<usize>) -> bool {
        &&& is_walk(self.graph, seq![self.from] + path)
        &&& path.no_duplicates()
        &&& forall|i: int|
            0 <= i < path.len() ==> (#[trigger] path[i]) != self.from && path[i] != self.to
                && !self.used.contains(path[i])
    }

    proof fn lemma_onward(self, path: Seq<usize>, cells: Seq<usize>, p: Seq<usize>)
        ensures
            self.onward(path, cells).contains(p) <==> (p.len() == path.len() + 1 && p.drop_last()
                == path && cells.contains(p.last()) && self.open_to(path, p.last())),
        decreases cells.len(),
    {
        if cells.len() > 0 {
            let before = self.onward(path, cells.drop_last());
            let c = cells.last();
            self.lemma_onward(path, cells.drop_last(), p);
            assert(cells =~= cells.drop_last().push(c));
            assert(forall|x: usize|
                cells.contains(x) <==> cells.drop_last().contains(x) || x == c) by {
                assert forall|x: usize| cells.contains(x) implies cells.drop_last().contains(x) || x
                    == c by {
                    let i = choose|i: int| 0 <= i < cells.len() && cells[i] == x;
                    if i < cells.len() - 1 {
                        assert(cells.drop_last()[i] == x);
                    }
                }
                assert forall|x: usize| cells.drop_last().contains(x) || x == c implies cells.contains(
                    x,
                ) by {
                    if cells.drop_last().contains(x) {
                        let i = choose|i: int|
                            0 <= i < cells.drop_last().len() && cells.drop_last()[i] == x;
                        assert(cells[i] == x);
                    } else {
                        assert(cells[cells.len() - 1] == x);
                    }
                }
            }
            assert(path.push(c).drop_last() =~= path);
            if self.open_to(path, c) {
                let now = before.push(path.push(c));
                if now.contains(p) {
                    let i = choose|i: int| 0 <= i < now.len() && now[i] == p;
                    if i < before.len() {
                        assert(before[i] == p);
                    }
                }
                if before.contains(p) {
                    let i = choose|i: int| 0 <= i < before.len() && before[i] == p;
                    assert(now[i] == p);
                }
                if p.len() == path.len() + 1 && p.drop_last() == path && p.last() == c {
                    assert(p =~= path.push(c));
                    assert(now[now.len() - 1] == p);
                }
            }
        }
    }

    proof fn lemma_spread(self, layer: Seq<Seq<usize>>, p: Seq<usize>)
        ensures
            self.spread(layer).contains(p) <==> (p.len() > 0 && layer.contains(p.drop_last())
                && self.graph[self.tip(p.drop_last()) as int].contains(p.last()) && self.open_to(
                p.drop_last(),
                p.last(),
            )),
        decreases layer.len(),
    {
        if layer.len() > 0 {
            let rest = layer.drop_last();
            let last = layer.last();
            let tail = self.onward(last, self.graph[self.tip(last) as int]);
            self.lemma_spread(rest, p);
            self.lemma_onward(last, self.graph[self.tip(last) as int], p);
            let head = self.spread(rest);
            let all = head + tail;
            assert(all.contains(p) <==> head.contains(p) || tail.contains(p)) by {
                if all.contains(p) {
                    let i = choose|i: int| 0 <= i < all.len() && all[i] == p;
                    if i < head.len() {
                        assert(head[i] == p);
                    } else {
                        assert(tail[i - head.len()] == p);
                    }
                }
                if head.contains(p) {
                    let i = choose|i: int| 0 <= i < head.len() && head[i] == p;
                    assert(all[i] == p);
                }
                if tail.contains(p) {
                    let i = choose|i: int| 0 <= i < tail.len() && tail[i] == p;
                    assert(all[head.len() + i] == p);
                }
            }
            let q = p.drop_last();
            assert(layer.contains(q) <==> rest.contains(q) || q == last) by {
                if layer.contains(q) {
                    let i = choose|i: int| 0 <= i < layer.len() && layer[i] == q;
                    if i < rest.len() {
                        assert(rest[i] == q);
                    }
                }
                if rest.contains(q) {
                    let i = choose|i: int| 0 <= i < rest.len() && rest[i] == q;
                    assert(layer[i] == q);
                }
                if q == last {
                    assert(layer[layer.len() - 1] == q);
                }
            }
        }
    }

    proof fn lemma_trail(self, p: Seq<usize>)
        requires
            in_range(self.graph),
            p.len() > 0,
        ensures
            self.trail(p) <==> (self.trail(p.drop_last()) && self.graph[self.tip(
                p.drop_last(),
            ) as int].contains(p.last()) && self.open_to(p.drop_last(), p.last())),
    {
        let q = p.drop_last();
        let long = seq![self.from] + p;
        let short = seq![self.from] + q;
        assert(long.drop_last() =~= short);
        assert(long.last() == p.last());
        assert(short.last() == self.tip(q));
        assert(long[long.len() - 2] == self.tip(q));
        if self.trail(p) {
            assert forall|i: int| 0 <= i < short.len() implies (#[trigger] short[i])
                < self.graph.len() by {
                assert(long[i] == short[i]);
            }
            assert forall|i: int| 0 <= i < short.len() - 1 implies #[trigger] linked(
                self.graph,
                short[i],
                short[i + 1],
            ) by {
                assert(linked(self.graph, long[i], long[i + 1]));
            }
            let e = long.len() - 2;
            assert(linked(self.graph, long[e], long[e + 1]));
            assert forall|i: int| 0 <= i < q.len() implies (#[trigger] q[i]) != self.from && q[i]
                != self.to && !self.used.contains(q[i]) by {
                assert(p[i] == q[i]);
            }
            assert(p[p.len() - 1] == p.last());
            if q.contains(p.last()) {
                let i = choose|i: int| 0 <= i < q.len() && q[i] == p.last();
                assert(p[i] == p[p.len() - 1]);
            }
        }
        if self.trail(q) && self.graph[self.tip(q) as int].contains(p.last()) && self.open_to(
            q,
            p.last(),
        ) {
            assert(self.tip(q) < self.graph.len()) by {
                assert(short[short.len() - 1] == self.tip(q));
            }
            let k = choose|k: int|
                0 <= k < self.graph[self.tip(q) as int].len() && self.graph[self.tip(q) as int][k]
                    == p.last();
            assert(self.graph[self.tip(q) as int][k] < self.graph.len());
            assert forall|i: int| 0 <= i < long.len() implies (#[trigger] long[i])
                < self.graph.len() by {
                if i < short.len() {
                    assert(short[i] == long[i]);
                }
            }
            assert forall|i: int| 0 <= i < long.len() - 1 implies #[trigger] linked(
                self.graph,
                long[i],
                long[i + 1],
            ) by {
                if i < short.len() - 1 {
                    assert(linked(self.graph, short[i], short[i + 1]));
                }
            }
            assert forall|i: int, j: int|
                0 <= i < p.len() && 0 <= j < p.len() && i != j implies p[i] != p[j] by {
                if i < q.len() && j < q.len() {
                    assert(q[i] != q[j]);
                } else if i < q.len() {
                    assert(q.contains(q[i]));
                } else {
                    assert(q.contains(q[j]));
                }
            }
            assert forall|i: int| 0 <= i < p.len() implies (#[trigger] p[i]) != self.from && p[i]
                != self.to && !self.used.contains(p[i]) by {
                if i < q.len() {
                    assert(q[i] == p[i]);
                }
            }
        }
    }

    /// A layer holds the paths of its length, all of them and nothing else.
    proof fn lemma_layer(self, len: nat, p: Seq<usize>)
        requires
            in_range(self.graph),
            self.from < self.graph.len(),
        ensures
            self.layer(len).contains(p) <==> (p.len() == len && self.trail(p)),
        decreases len,
    {
        if len == 0 {
            let layer = self.layer(0);
            assert(layer[0] == Seq::<usize>::empty());
            if p.len() == 0 {
                assert(p =~= Seq::empty());
                assert(layer[0] == p);
                let start = seq![self.from] + p;
                assert(start[0] == self.from);
            }
        } else {
            self.lemma_spread(self.layer((len - 1) as nat), p);
            if p.len() > 0 {
                self.lemma_layer((len - 1) as nat, p.drop_last());
                self.lemma_trail(p);
            }
        }
    }

    proof fn lemma_corridor(self, p: Seq<usize>)
        requires
            in_range(self.graph),
        ensures
            self.corridor(p) ==> self.trail(p) && self.arrives(p),
            self.trail(p) && self.arrives(p) && self.to < self.graph.len() ==> self.corridor(p),
    {
        let whole = chain(self.from, p, self.to);
        let start = seq![self.from] + p;
        assert(whole =~= start.push(self.to));
        assert(start.last() == self.tip(p));
        if self.corridor(p) {
            assert forall|i: int| 0 <= i < start.len() implies (#[trigger] start[i])
                < self.graph.len() by {
                assert(whole[i] == start[i]);
            }
            assert forall|i: int| 0 <= i < start.len() - 1 implies #[trigger] linked(
                self.graph,
                start[i],
                start[i + 1],
            ) by {
                assert(linked(self.graph, whole[i], whole[i + 1]));
            }
            let e = whole.len() - 2;
            assert(linked(self.graph, whole[e], whole[e + 1]));
        }
        if self.trail(p) && self.arrives(p) && self.to < self.graph.len() {
            assert forall|i: int| 0 <= i < whole.len() implies (#[trigger] whole[i])
                < self.graph.len() by {
                if i < start.len() {
                    assert(start[i] == whole[i]);
                }
            }
            assert forall|i: int| 0 <= i < whole.len() - 1 implies #[trigger] linked(
                self.graph,
                whole[i],
                whole[i + 1],
            ) by {
                if i < start.len() - 1 {
                    assert(linked(self.graph, start[i], start[i + 1]));
                }
            }
        }
    }

    proof fn lemma_first(self, layer: Seq<Seq<usize>>)
        ensures
            match self.first(layer) {
                Some(p) => layer.contains(p) && self.arrives(p),
                None => forall|p: Seq<usize>| #[trigger] layer.contains(p) ==> !self.arrives(p),
            },
        decreases layer.len(),
    {
        if layer.len() > 0 {
            let rest = layer.drop_last();
            self.lemma_first(rest);
            assert(layer[layer.len() - 1] == layer.last());
            match self.first(layer) {
                Some(p) => {
                    if rest.contains(p) {
                        let i = choose|i: int| 0 <= i < rest.len() && rest[i] == p;
                        assert(layer[i] == p);
                    }
                },
                None => {
                    assert forall|p: Seq<usize>| #[trigger]
                        layer.contains(p) implies !self.arrives(p) by {
                        let i = choose|i: int| 0 <= i < layer.len() && layer[i] == p;
                        if i < rest.len() {
                            assert(rest[i] == p);
                            assert(rest.contains(p));
                        }
                    }
                },
            }
        }
    }

    proof fn lemma_between(self, low: nat, high: nat)
        requires
            in_range(self.graph),
            self.from < self.graph.len(),
            self.to < self.graph.len(),
        ensures
            match self.between(low, high) {
                Some(p) => {
                    &&& self.corridor(p)
                    &&& low <= p.len() < high
                    &&& forall|q: Seq<usize>| #[trigger]
                        self.corridor(q) && q.len() >= low ==> q.len() >= p.len()
                },
                None => forall|q: Seq<usize>| #[trigger]
                    self.corridor(q) ==> q.len() < low || q.len() >= high,
            },
        decreases high,
    {
        if high > low {
            let len = (high - 1) as nat;
            self.lemma_between(low, len);
            self.lemma_first(self.layer(len));
            match self.between(low, len) {
                Some(p) => {},
                None => {
                    if let Some(p) = self.first(self.layer(len)) {
                        self.lemma_layer(len, p);
                        self.lemma_corridor(p);
                    } else {
                        assert forall|q: Seq<usize>| #[trigger] self.corridor(q) implies q.len()
                            < low || q.len() >= high by {
                            self.lemma_layer(len, q);
                            self.lemma_corridor(q);
                        }
                    }
                },
            }
        }
    }
}

/// The least number of cells that counts as close to `desired`.
pub open spec fn least(desired: nat) -> nat {
    if desired <= 2 {
        1
    } else {
        (desired - 1) as nat
    }
}

/// A search finds a path if and only if there is one that fits: its length is within
/// one cell of what is desired, and not zero. What it finds is a corridor, and of
/// those that fit a shortest one.
pub proof fn law_found_is_closest(detour: Detour, desired: nat)
    requires
        in_range(detour.graph),
        detour.from < detour.graph.len(),
        detour.to < detour.graph.len(),
    ensures
        match detour.found(desired) {
            Some(p) => {
                &&& detour.corridor(p)
                &&& least(desired) <= p.len() <= desired + 1
                &&& forall|q: Seq<usize>| #[trigger]
                    detour.corridor(q) && q.len() >= least(desired) ==> q.len() >= p.len()
            },
            None => forall|q: Seq<usize>| #[trigger]
                detour.corridor(q) ==> q.len() < least(desired) || q.len() > desired + 1,
        },
{
    detour.lemma_between(least(desired), desired + 2);
}

/// The paths of a layer made longer by one cell.
fn spread(diagram: &Diagram, layer: &Vec<Vec<usize>>, from: usize, to: usize, used: &HashSet<usize>) -> (r:
    Vec<Vec<usize>>)
    requires
        in_range(diagram.graph()),
        forall|i: int|
            #![trigger layer@[i]]
            0 <= i < layer@.len() ==> (Detour {
                graph: diagram.graph(),
                from,
                to,
                used: used@,
            }).tip(layer@[i]@) < diagram.neighbors@.len(),
    ensures
        lists(r@) == (Detour { graph: diagram.graph(), from, to, used: used@ }).spread(
            lists(layer@),
        ),
{
    broadcast use vstd::std_specs::hash::group_hash_axioms;

    let ghost d = Detour { graph: diagram.graph(), from, to, used: used@ };
    let ghost paths = lists(layer@);
    let mut next: Vec<Vec<usize>> = Vec::new();
    let mut i: usize = 0;
    assert(lists(next@) =~= d.spread(paths.take(0)));
    while i < layer.len()
        invariant
            in_range(diagram.graph()),
            d == (Detour { graph: diagram.graph(), from, to, used: used@ }),
            paths == lists(layer@),
            i <= layer@.len(),
            forall|i: int|
                #![trigger layer@[i]]
                0 <= i < layer@.len() ==> d.tip(layer@[i]@) < diagram.neighbors@.len(),
            lists(next@) == d.spread(paths.take(i as int)),
        decreases layer@.len() - i,
    {
        let path = &layer[i];
        let node: usize = if path.len() == 0 {
            from
        } else {
            path[path.len() - 1]
        };
        assert(node == d.tip(path@));
        let cells = &diagram.neighbors[node];
        let ghost before = lists(next@);
        let mut k: usize = 0;
        assert(before + d.onward(path@, cells@.take(0)) =~= before);
        while k < cells.len()
            invariant
                d == (Detour { graph: diagram.graph(), from, to, used: used@ }),
                k <= cells@.len(),
                lists(next@) == before + d.onward(path@, cells@.take(k as int)),
            decreases cells@.len() - k,
        {
            broadcast use vstd::std_specs::hash::group_hash_axioms;

            let c = cells[k];
            let ghost so_far = next@;
            proof {
                assert(cells@.take(k + 1).drop_last() =~= cells@.take(k as int));
            }
            if c != from && c != to && !used.contains(&c) && !holds(path, c) {
                let mut longer = path.clone();
                assert(longer@ =~= path@);
                longer.push(c);
                next.push(longer);
                assert(lists(next@) =~= lists(so_far).push(path@.push(c)));
                assert(lists(next@) =~= before + d.onward(path@, cells@.take(k + 1)));
            }
            k += 1;
        }
        proof {
            assert(cells@.take(k as int) =~= cells@);
            assert(paths.take(i + 1).drop_last() =~= paths.take(i as int));
            assert(paths.take(i + 1).last() == path@);
            assert(d.graph[node as int] == cells@);
        }
        i += 1;
    }
    assert(paths.take(i as int) =~= paths);
    next
}

/// Whether `c` is on the path.
fn holds(path: &Vec<usize>, c: usize) -> (r: bool)
    ensures
        r == path@.contains(c),
{
    let mut i: usize = 0;
    while i < path.len()
        invariant
            i <= path@.len(),
            forall|j: int| 0 <= j < i ==> path@[j] != c,
        decreases path@.len() - i,
    {
        if path[i] == c {
            return true;
        }
        i += 1;
    }
    false
}

/// The place of the first path of a layer that ends beside `to`.
fn first_arrival(
    diagram: &Diagram,
    layer: &Vec<Vec<usize>>,
    from: usize,
    to: usize,
    Ghost(d): Ghost<Detour>,
) -> (r: Option<usize>)
    requires
        in_range(diagram.graph()),
        d.graph == diagram.graph(),
        d.from == from,
        d.to == to,
        forall|i: int|
            #![trigger layer@[i]]
            0 <= i < layer@.len() ==> d.tip(layer@[i]@) < diagram.neighbors@.len(),
    ensures
        match r {
            Some(i) => i < layer@.len() && d.first(lists(layer@)) == Some(layer@[i as int]@),
            None => d.first(lists(layer@)) is None,
        },
{
    let ghost paths = lists(layer@);
    let mut i: usize = 0;
    while i < layer.len()
        invariant
            in_range(diagram.graph()),
            d.graph == diagram.graph(),
            d.from == from,
            d.to == to,
            paths == lists(layer@),
            i <= layer@.len(),
            forall|i: int|
                #![trigger layer@[i]]
                0 <= i < layer@.len() ==> d.tip(layer@[i]@) < diagram.neighbors@.len(),
            d.first(paths.take(i as int)) is None,
        decreases layer@.len() - i,
    {
        let path = &layer[i];
        let node: usize = if path.len() == 0 {
            from
        } else {
            path[path.len() - 1]
        };
        proof {
            assert(paths.take(i + 1).drop_last() =~= paths.take(i as int));
            assert(paths.take(i + 1).last() == path@);
            assert(d.graph[node as int] == diagram.neighbors@[node as int]@);
        }
        if from != to && holds(&diagram.neighbors[node], to) {
            proof {
                d.lemma_first_stays(paths, i + 1);
            }
            return Some(i);
        }
        i += 1;
    }
    assert(paths.take(i as int) =~= paths);
    None
}

impl Detour {
    /// What is first in the front part of a layer is first in the layer.
    proof fn lemma_first_stays(self, layer: Seq<Seq<usize>>, n: int)
        requires
            0 <= n <= layer.len(),
            self.first(layer.take(n)) is Some,
        ensures
            self.first(layer) == self.first(layer.take(n)),
        decreases layer.len(),
    {
        if n < layer.len() {
            assert(layer.drop_last().take(n) =~= layer.take(n));
            self.lemma_first_stays(layer.drop_last(), n);
        } else {
            assert(layer.take(n) =~= layer);
        }
    }

    /// The paths of a layer end in cells of the graph.
    proof fn lemma_tips(self, len: nat)
        requires
            in_range(self.graph),
            self.from < self.graph.len(),
        ensures
            forall|i: int|
                #![trigger self.layer(len)[i]]
                0 <= i < self.layer(len).len() ==> self.tip(self.layer(len)[i]) < self.graph.len(),
    {
        assert forall|i: int|
            #![trigger self.layer(len)[i]]
            0 <= i < self.layer(len).len() implies self.tip(self.layer(len)[i])
            < self.graph.len() by {
            let p = self.layer(len)[i];
            assert(self.layer(len).contains(p));
            self.lemma_layer(len, p);
            let start = seq![self.from] + p;
            assert(start[start.len() - 1] == self.tip(p));
        }
    }
}

/// Looks for a corridor of about `desired` cells from `from` to `to` through cells
/// that are not used.
pub fn find_path_with_target_length(
    diagram: &Diagram,
    from: usize,
    to: usize,
    desired: usize,
    used: &HashSet<usize>,
) -> (r: Option<Vec<usize>>)
    requires
        in_range(diagram.graph()),
        from < diagram.neighbors@.len(),
        desired < usize::MAX,
    ensures
        match r {
            Some(path) => (Detour { graph: diagram.graph(), from, to, used: used@ }).found(
                desired as nat,
            ) == Some(path@),
            None => (Detour { graph: diagram.graph(), from, to, used: used@ }).found(
                desired as nat,
            ) is None,
        },
{
    let ghost d = Detour { graph: diagram.graph(), from, to, used: used@ };
    let min_len: usize = if desired <= 2 {
        1
    } else {
        desired - 1
    };
    let max_len: usize = desired + 1;
    let mut layer: Vec<Vec<usize>> = Vec::new();
    layer.push(Vec::new());
    let mut len: usize = 0;
    assert(lists(layer@) =~= d.layer(0));
    loop
        invariant
            in_range(diagram.graph()),
            d == (Detour { graph: diagram.graph(), from, to, used: used@ }),
            from < diagram.neighbors@.len(),
            desired < usize::MAX,
            min_len == least(desired as nat),
            max_len == desired + 1,
            len <= max_len,
            min_len <= max_len,
            lists(layer@) == d.layer(len as nat),
            d.between(min_len as nat, len as nat) is None,
        decreases max_len - len,
    {
        proof {
            d.lemma_tips(len as nat);
            assert forall|i: int|
                #![trigger layer@[i]]
                0 <= i < layer@.len() implies d.tip(layer@[i]@) < diagram.neighbors@.len() by {
                assert(d.layer(len as nat)[i] == layer@[i]@);
            }
        }
        if len >= min_len {
            if let Some(i) = first_arrival(diagram, &layer, from, to, Ghost(d)) {
                let path = layer[i].clone();
                assert(path@ =~= layer@[i as int]@);
                proof {
                    d.lemma_between_stays(min_len as nat, (len + 1) as nat, (max_len + 1) as nat);
                }
                return Some(path);
            }
        }
        if len == max_len {
            return None;
        }
        if layer.len() == 0 {
            proof {
                d.lemma_nothing_follows(min_len as nat, len as nat, (max_len + 1) as nat);
            }
            return None;
        }
        layer = spread(diagram, &layer, from, to, used);
        len += 1;
    }
}

impl Detour {
    /// Where there is no path of `len` cells there is no longer one.
    proof fn lemma_nothing_follows(self, low: nat, len: nat, high: nat)
        requires
            self.layer(len).len() == 0,
            self.between(low, len) is None,
        ensures
            len <= high ==> self.between(low, high) is None,
            len < high ==> self.layer((high - 1) as nat).len() == 0,
        decreases high,
    {
        if len < high {
            self.lemma_nothing_follows(low, len, (high - 1) as nat);
        }
    }

    /// The first path of a range is first in a wider one.
    proof fn lemma_between_stays(self, low: nat, high: nat, wider: nat)
        requires
            high <= wider,
            self.between(low, high) is Some,
        ensures
            self.between(low, wider) == self.between(low, high),
        decreases wider,
    {
        if high < wider {
            self.lemma_between_stays(low, high, (wider - 1) as nat);
        }
    }
}

/// `c` is a stop of one of the first `n` stages.
pub open spec fn is_stop(chosen: Chosen, n: nat, c: usize) -> bool {
    exists|s: int| 0 <= s < n && (#[trigger] chosen.levels[s]).contains(c)
}

/// `c` is within a corridor out of one of the first `n` stages.
pub open spec fn is_crossed(chosen: Chosen, n: nat, c: usize) -> bool {
    exists|s: int| 0 <= s < n && walked(#[trigger] chosen.connections[s]).contains(c)
}

/// The cells that a selection uses.
pub open spec fn taken(chosen: Chosen) -> Set<usize> {
    Set::new(
        |c: usize|
            is_stop(chosen, chosen.levels.len(), c) || is_crossed(
                chosen,
                chosen.connections.len(),
                c,
            ),
    )
}

/// The connections of a selection while they are stretched, and the cells in use.
#[verifier::ext_equal]
pub struct Refit {
    pub connections: Seq<Seq<Seq<Route>>>,
    pub used: Set<usize>,
}

/// What connections are stretched with: the cells, the stages, and the length that
/// was drawn for each connection.
pub struct Stretch {
    pub graph: Seq<Seq<usize>>,
    pub levels: Seq<Seq<usize>>,
    pub wants: Seq<Seq<Seq<usize>>>,
}

impl Stretch {
    /// The search for a longer corridor.
    pub open spec fn detour(self, r: Refit, s: int, i: int, k: int) -> Detour {
        let (target, path) = r.connections[s][i][k];
        Detour {
            graph: self.graph,
            from: self.levels[s][i],
            to: self.levels[s + 1][target as int],
            used: r.used.difference(path.to_set()),
        }
    }

    /// The corridor that a connection gets.
    pub open spec fn corridor(self, r: Refit, s: int, i: int, k: int) -> Seq<usize> {
        let path = r.connections[s][i][k].1;
        let want = self.wants[s][i][k] as nat;
        if want <= path.len() {
            path
        } else {
            match self.detour(r, s, i, k).found(want) {
                Some(p) => if p.len() > path.len() {
                    p
                } else {
                    path
                },
                None => path,
            }
        }
    }

    /// One connection stretched.
    pub open spec fn fit(self, r: Refit, s: int, i: int, k: int) -> Refit {
        let (target, path) = r.connections[s][i][k];
        let now = self.corridor(r, s, i, k);
        Refit {
            connections: r.connections.update(
                s,
                r.connections[s].update(i, r.connections[s][i].update(k, (target, now))),
            ),
            used: if self.wants[s][i][k] <= path.len() {
                r.used
            } else {
                r.used.difference(path.to_set()).union(now.to_set())
            },
        }
    }

    /// The first `count` connections of a cell stretched.
    pub open spec fn fit_cell(self, r: Refit, s: int, i: int, count: nat) -> Refit
        decreases count,
    {
        if count == 0 {
            r
        } else {
            self.fit(self.fit_cell(r, s, i, (count - 1) as nat), s, i, count - 1)
        }
    }

    /// The connections of the first `count` cells of a stage stretched.
    pub open spec fn fit_stage(self, r: Refit, s: int, count: nat) -> Refit
        decreases count,
    {
        if count == 0 {
            r
        } else {
            self.fit_cell(
                self.fit_stage(r, s, (count - 1) as nat),
                s,
                count - 1,
                self.wants[s][count - 1].len(),
            )
        }
    }

    /// The connections of the first `count` stages stretched.
    pub open spec fn fit_stages(self, r: Refit, count: nat) -> Refit
        decreases count,
    {
        if count == 0 {
            r
        } else {
            self.fit_stage(
                self.fit_stages(r, (count - 1) as nat),
                count - 1,
                self.wants[count - 1].len(),
            )
        }
    }

    /// A selection with all its connections stretched.
    pub open spec fn inflated(self, chosen: Chosen) -> Chosen {
        Chosen {
            levels: chosen.levels,
            connections: self.fit_stages(
                Refit { connections: chosen.connections, used: taken(chosen) },
                chosen.connections.len(),
            ).connections,
        }
    }

    /// There is one length for each connection.
    pub open spec fn matches(self, chosen: Chosen) -> bool {
        &&& self.wants.len() == chosen.connections.len()
        &&& forall|s: int|
            0 <= s < self.wants.len() ==> (#[trigger] self.wants[s]).len()
                == chosen.connections[s].len()
        &&& forall|s: int, i: int|
            0 <= s < self.wants.len() && 0 <= i < self.wants[s].len() ==> (
            #[trigger] self.wants[s][i]).len() == chosen.connections[s][i].len()
    }

    /// The stretched connections go where those of `start` go, are not shorter, still
    /// walk from neighbour to neighbour if those did, and still lead through no stop.
    spec fn keeps(self, start: Chosen, r: Refit) -> bool {
        &&& r.connections.len() == start.connections.len()
        &&& forall|s: int|
            0 <= s < start.connections.len() ==> (#[trigger] r.connections[s]).len()
                == start.connections[s].len()
        &&& forall|s: int, i: int|
            0 <= s < start.connections.len() && 0 <= i < start.connections[s].len() ==> (
            #[trigger] r.connections[s][i]).len() == start.connections[s][i].len()
        &&& forall|s: int, i: int, k: int| #[trigger]
            start.has_route(s, i, k) ==> self.kept(start, r, s, i, k)
        &&& start.apart() ==> forall|s: int, i: int|
            0 <= s < start.levels.len() && 0 <= i < start.levels[s].len() ==> r.used.contains(
                #[trigger] start.levels[s][i],
            )
    }

    spec fn kept(self, start: Chosen, r: Refit, s: int, i: int, k: int) -> bool {
        let (target, path) = r.connections[s][i][k];
        &&& target == start.route(s, i, k).0
        &&& stretched(start.route(s, i, k).1, path, self.wants[s][i][k] as nat)
        &&& start.simple() ==> path.no_duplicates()
        &&& start.linked(self.graph) ==> is_walk(
            self.graph,
            chain(start.levels[s][i], path, start.levels[s + 1][target as int]),
        )
        &&& start.apart() ==> forall|t: int, j: int|
            0 <= t < start.levels.len() && 0 <= j < start.levels[t].len() ==> !path.contains(
                #[trigger] start.levels[t][j],
            )
    }

    proof fn lemma_fit(self, start: Chosen, r: Refit, s: int, i: int, k: int)
        requires
            in_range(self.graph),
            start.addressed(self.graph.len()),
            start.levels == self.levels,
            start.has_route(s, i, k),
            self.keeps(start, r),
        ensures
            self.keeps(start, self.fit(r, s, i, k)),
    {
        let next = self.fit(r, s, i, k);
        let (target, path) = r.connections[s][i][k];
        let want = self.wants[s][i][k] as nat;
        let d = self.detour(r, s, i, k);
        let now = self.corridor(r, s, i, k);
        assert(self.kept(start, r, s, i, k));
        assert(self.levels[s][i] < self.graph.len());
        assert(start.route(s, i, k).0 < start.levels[s + 1].len());
        assert(self.levels[s + 1][target as int] < self.graph.len());
        law_found_is_closest(d, want);
        assert(next.connections[s][i][k] == (target, now));
        assert forall|t: int, j: int|
            start.apart() && 0 <= t < start.levels.len() && 0 <= j
                < start.levels[t].len() implies next.used.contains(
            #[trigger] start.levels[t][j],
        ) && !now.contains(start.levels[t][j]) by {
            let c = start.levels[t][j];
            assert(r.used.contains(c));
            assert(!path.contains(c));
            if now != path && now.contains(c) {
                let a = choose|a: int| 0 <= a < now.len() && now[a] == c;
                assert(d.corridor(now));
                assert(!d.used.contains(now[a]));
            }
        }
        assert(self.kept(start, next, s, i, k));
        assert forall|s2: int, i2: int, k2: int| #[trigger]
            start.has_route(s2, i2, k2) implies self.kept(start, next, s2, i2, k2) by {
            assert(self.kept(start, r, s2, i2, k2));
            if !(s2 == s && i2 == i && k2 == k) {
                assert(next.connections[s2][i2][k2] == r.connections[s2][i2][k2]);
            }
        }
        assert forall|s2: int| 0 <= s2 < start.connections.len() implies (
        #[trigger] next.connections[s2]).len() == start.connections[s2].len() by {
            assert(r.connections[s2].len() == start.connections[s2].len());
        }
        assert forall|s2: int, i2: int|
            0 <= s2 < start.connections.len() && 0 <= i2 < start.connections[s2].len() implies (
        #[trigger] next.connections[s2][i2]).len() == start.connections[s2][i2].len() by {
            assert(r.connections[s2][i2].len() == start.connections[s2][i2].len());
        }
    }

    proof fn lemma_fit_cell(self, start: Chosen, r: Refit, s: int, i: int, count: nat)
        requires
            in_range(self.graph),
            start.addressed(self.graph.len()),
            start.levels == self.levels,
            0 <= s < start.connections.len(),
            0 <= i < start.connections[s].len(),
            count <= start.connections[s][i].len(),
            self.keeps(start, r),
        ensures
            self.keeps(start, self.fit_cell(r, s, i, count)),
        decreases count,
    {
        if count > 0 {
            self.lemma_fit_cell(start, r, s, i, (count - 1) as nat);
            assert(start.has_route(s, i, count - 1));
            self.lemma_fit(start, self.fit_cell(r, s, i, (count - 1) as nat), s, i, count - 1);
        }
    }

    proof fn lemma_fit_stage(self, start: Chosen, r: Refit, s: int, count: nat)
        requires
            in_range(self.graph),
            start.addressed(self.graph.len()),
            start.levels == self.levels,
            self.matches(start),
            0 <= s < start.connections.len(),
            count <= start.connections[s].len(),
            self.keeps(start, r),
        ensures
            self.keeps(start, self.fit_stage(r, s, count)),
        decreases count,
    {
        if count > 0 {
            self.lemma_fit_stage(start, r, s, (count - 1) as nat);
            assert(self.wants[s].len() == start.connections[s].len());
            assert(self.wants[s][count - 1].len() == start.connections[s][count - 1].len());
            self.lemma_fit_cell(
                start,
                self.fit_stage(r, s, (count - 1) as nat),
                s,
                count - 1,
                self.wants[s][count - 1].len(),
            );
        }
    }

    proof fn lemma_fit_stages(self, start: Chosen, count: nat)
        requires
            in_range(self.graph),
            start.addressed(self.graph.len()),
            start.levels == self.levels,
            self.matches(start),
            count <= start.connections.len(),
        ensures
            self.keeps(
                start,
                self.fit_stages(
                    Refit { connections: start.connections, used: taken(start) },
                    count,
                ),
            ),
        decreases count,
    {
        let r = Refit { connections: start.connections, used: taken(start) };
        if count > 0 {
            self.lemma_fit_stages(start, (count - 1) as nat);
            assert(self.wants[count - 1].len() == start.connections[count - 1].len());
            self.lemma_fit_stage(
                start,
                self.fit_stages(r, (count - 1) as nat),
                count - 1,
                self.wants[count - 1].len(),
            );
        } else {
            assert forall|s: int, i: int, k: int| #[trigger]
                start.has_route(s, i, k) implies self.kept(start, r, s, i, k) by {
                assert(start.linked(self.graph) ==> is_walk(self.graph, start.visits(s, i, k)));
            }
            assert forall|s: int, i: int|
                0 <= s < start.levels.len() && 0 <= i < start.levels[s].len() implies r.used.contains(
                #[trigger] start.levels[s][i],
            ) by {
                assert(start.levels[s].contains(start.levels[s][i]));
            }
        }
    }
}

/// A corridor is left as it is, or it falls short of what is wanted and becomes longer:
/// to a length within one cell of that.
pub open spec fn stretched(was: Seq<usize>, now: Seq<usize>, want: nat) -> bool {
    now == was || (was.len() < want && was.len() < now.len() && least(want) <= now.len() <= want
        + 1)
}

/// Inflating a selection keeps its stops and what is connected with what. A corridor
/// that does not become longer is left as it is. Connections that walk from neighbour
/// to neighbour still do, stops that lead on or are led to still do and are, and
/// corridors that lead through no stop or repeat no cell still do so.
pub proof fn law_inflating_keeps_connections(stretch: Stretch, chosen: Chosen)
    requires
        in_range(stretch.graph),
        chosen.addressed(stretch.graph.len()),
        stretch.levels == chosen.levels,
        stretch.matches(chosen),
    ensures
        ({
            let now = stretch.inflated(chosen);
            &&& now.levels == chosen.levels
            &&& forall|s: int, i: int, k: int| #[trigger]
                now.has_route(s, i, k) <==> chosen.has_route(s, i, k)
            &&& forall|s: int, i: int, k: int| #[trigger]
                chosen.has_route(s, i, k) ==> now.route(s, i, k).0 == chosen.route(s, i, k).0
                    && stretched(
                    chosen.route(s, i, k).1,
                    now.route(s, i, k).1,
                    stretch.wants[s][i][k] as nat,
                )
            &&& now.addressed(stretch.graph.len())
            &&& chosen.linked(stretch.graph) ==> now.linked(stretch.graph)
            &&& chosen.leads_on() ==> now.leads_on()
            &&& chosen.led_to() ==> now.led_to()
            &&& chosen.apart() ==> now.apart()
            &&& chosen.simple() ==> now.simple()
        }),
{
    let now = stretch.inflated(chosen);
    let r = stretch.fit_stages(
        Refit { connections: chosen.connections, used: taken(chosen) },
        chosen.connections.len(),
    );
    stretch.lemma_fit_stages(chosen, chosen.connections.len());
    assert forall|s: int, i: int, k: int| #[trigger] now.has_route(s, i, k) <==> chosen.has_route(
        s,
        i,
        k,
    ) by {
        if 0 <= s < chosen.connections.len() {
            assert(r.connections[s].len() == chosen.connections[s].len());
            if 0 <= i < chosen.connections[s].len() {
                assert(r.connections[s][i].len() == chosen.connections[s][i].len());
            }
        }
    }
    assert forall|s: int, i: int, k: int| #[trigger] chosen.has_route(s, i, k) implies stretch.kept(
        chosen,
        r,
        s,
        i,
        k,
    ) && now.has_route(s, i, k) by {}
    assert forall|s: int, i: int, k: int| #[trigger] now.has_route(s, i, k) implies now.route(
        s,
        i,
        k,
    ).0 < now.levels[s + 1].len() by {
        assert(chosen.has_route(s, i, k));
        assert(stretch.kept(chosen, r, s, i, k));
    }
    assert forall|s: int| 0 <= s < now.connections.len() implies (
    #[trigger] now.connections[s]).len() == now.levels[s].len() by {
        assert(chosen.connections[s].len() == chosen.levels[s].len());
    }
    if chosen.linked(stretch.graph) {
        assert forall|s: int, i: int, k: int| #[trigger] now.has_route(s, i, k) implies is_walk(
            stretch.graph,
            now.visits(s, i, k),
        ) by {
            assert(chosen.has_route(s, i, k));
            assert(stretch.kept(chosen, r, s, i, k));
        }
    }
    if chosen.leads_on() {
        assert forall|s: int, i: int|
            0 <= s < now.connections.len() && 0 <= i < now.connections[s].len() implies (
        #[trigger] now.connections[s][i]).len() > 0 by {
            assert(chosen.connections[s][i].len() > 0);
        }
    }
    if chosen.led_to() {
        assert forall|s: int, j: int|
            0 <= s < now.connections.len() && 0 <= j < now.levels[s
                + 1].len() implies #[trigger] now.is_target(s, j) by {
            assert(chosen.is_target(s, j));
            let (i, k) = choose|i: int, k: int| #[trigger]
                chosen.has_route(s, i, k) && chosen.route(s, i, k).0 == j;
            assert(stretch.kept(chosen, r, s, i, k));
            assert(now.has_route(s, i, k));
        }
    }
    if chosen.apart() {
        assert forall|s: int, i: int, k: int, t: int, j: int|
            #![trigger now.has_route(s, i, k), now.levels[t][j]]
            now.has_route(s, i, k) && 0 <= t < now.levels.len() && 0 <= j
                < now.levels[t].len() implies !now.route(s, i, k).1.contains(now.levels[t][j]) by {
            assert(chosen.has_route(s, i, k));
            assert(stretch.kept(chosen, r, s, i, k));
            assert(!r.connections[s][i][k].1.contains(chosen.levels[t][j]));
        }
    }
}

/// The lengths that are wanted, as values.
pub open spec fn length_lists(v: Seq<Vec<Vec<usize>>>) -> Seq<Seq<Seq<usize>>> {
    v.map_values(|stage: Vec<Vec<usize>>| lists(stage@))
}

/// Adds the cells of a path to those in use.
fn occupy(used: &mut HashSet<usize>, path: &Vec<usize>)
    ensures
        final(used)@ == old(used)@.union(path@.to_set()),
{
    broadcast use vstd::std_specs::hash::group_hash_axioms;

    let ghost start = used@;
    let mut k: usize = 0;
    assert(used@ =~= start.union(path@.take(0).to_set()));
    while k < path.len()
        invariant
            k <= path@.len(),
            used@ == start.union(path@.take(k as int).to_set()),
        decreases path@.len() - k,
    {
        broadcast use vstd::std_specs::hash::group_hash_axioms;

        used.insert(path[k]);
        proof {
            lemma_take_set(path@, k as int);
            assert(used@ =~= start.union(path@.take(k + 1).to_set()));
        }
        k += 1;
    }
    assert(path@.take(k as int) =~= path@);
}

/// Removes the cells of a path from those in use.
fn release(used: &mut HashSet<usize>, path: &Vec<usize>)
    ensures
        final(used)@ == old(used)@.difference(path@.to_set()),
{
    broadcast use vstd::std_specs::hash::group_hash_axioms;

    let ghost start = used@;
    let mut k: usize = 0;
    assert(used@ =~= start.difference(path@.take(0).to_set()));
    while k < path.len()
        invariant
            k <= path@.len(),
            used@ == start.difference(path@.take(k as int).to_set()),
        decreases path@.len() - k,
    {
        broadcast use vstd::std_specs::hash::group_hash_axioms;

        used.remove(&path[k]);
        proof {
            lemma_take_set(path@, k as int);
            assert(used@ =~= start.difference(path@.take(k + 1).to_set()));
        }
        k += 1;
    }
    assert(path@.take(k as int) =~= path@);
}

proof fn lemma_take_set(s: Seq<usize>, k: int)
    requires
        0 <= k < s.len(),
    ensures
        s.take(k + 1).to_set() == s.take(k).to_set().insert(s[k]),
{
    let long = s.take(k + 1);
    let short = s.take(k);
    assert forall|c: usize| long.to_set().contains(c) <==> short.to_set().insert(s[k]).contains(c) by {
        if long.contains(c) {
            let i = choose|i: int| 0 <= i < long.len() && long[i] == c;
            if i < k {
                assert(short[i] == c);
            }
        }
        if short.contains(c) {
            let i = choose|i: int| 0 <= i < short.len() && short[i] == c;
            assert(long[i] == c);
        }
        assert(long[k] == s[k]);
    }
    assert(long.to_set() =~= short.to_set().insert(s[k]));
}

/// The cells of all stages and corridors.
fn taken_cells(selection: &Selection) -> (used: HashSet<usize>)
    ensures
        used@ == taken(selection@),
{
    broadcast use vstd::std_specs::hash::group_hash_axioms;

    let ghost chosen = selection@;
    let mut used: HashSet<usize> = HashSet::new();
    let mut s: usize = 0;
    while s < selection.levels.len()
        invariant
            chosen == selection@,
            s <= selection.levels@.len(),
            forall|c: usize| #[trigger] used@.contains(c) <==> is_stop(chosen, s as nat, c),
        decreases selection.levels@.len() - s,
    {
        let ghost before = used@;
        occupy(&mut used, &selection.levels[s]);
        assert forall|c: usize| #[trigger] used@.contains(c) <==> is_stop(
            chosen,
            (s + 1) as nat,
            c,
        ) by {
            assert(before.contains(c) <==> is_stop(chosen, s as nat, c));
            assert(chosen.levels[s as int] == selection.levels@[s as int]@);
            if is_stop(chosen, (s + 1) as nat, c) && !is_stop(chosen, s as nat, c) {
                assert(chosen.levels[s as int].contains(c));
            }
        }
        s += 1;
    }
    let ghost stops = used@;
    let none: Vec<usize> = Vec::new();
    let mut s: usize = 0;
    while s < selection.connections.len()
        invariant
            chosen == selection@,
            none@ == Seq::<usize>::empty(),
            s <= selection.connections@.len(),
            forall|c: usize| #[trigger]
                used@.contains(c) <==> stops.contains(c) || is_crossed(chosen, s as nat, c),
        decreases selection.connections@.len() - s,
    {
        let ghost before = used@;
        take_cells(&mut used, &none, &selection.connections[s]);
        assert forall|c: usize| #[trigger] used@.contains(c) <==> stops.contains(c) || is_crossed(
            chosen,
            (s + 1) as nat,
            c,
        ) by {
            assert(before.contains(c) <==> stops.contains(c) || is_crossed(chosen, s as nat, c));
            assert(chosen.connections[s as int] == arrival_lists(
                selection.connections@[s as int]@,
            ));
            assert(!none@.contains(c));
            if is_crossed(chosen, (s + 1) as nat, c) && !is_crossed(chosen, s as nat, c) {
                assert(walked(chosen.connections[s as int]).contains(c));
            }
        }
        s += 1;
    }
    assert(used@ =~= taken(selection@));
    used
}

/// Replaces the corridor of one connection.
fn set_corridor(selection: &mut Selection, s: usize, i: usize, k: usize, path: Vec<usize>)
    requires
        old(selection)@.has_route(s as int, i as int, k as int),
    ensures
        final(selection)@.levels == old(selection)@.levels,
        final(selection)@.connections == ({
            let was = old(selection)@.connections;
            was.update(
                s as int,
                was[s as int].update(
                    i as int,
                    was[s as int][i as int].update(
                        k as int,
                        (was[s as int][i as int][k as int].0, path@),
                    ),
                ),
            )
        }),
{
    let target = selection.connections[s][i][k].0;
    selection.connections[s][i][k] = (target, path);
    proof {
        let was = old(selection)@.connections;
        let now = selection@.connections;
        assert(now[s as int][i as int] =~= was[s as int][i as int].update(
            k as int,
            (target, path@),
        ));
        assert(now[s as int] =~= was[s as int].update(i as int, now[s as int][i as int]));
        assert(now =~= was.update(s as int, now[s as int]));
    }
}

/// Stretches one connection.
fn fit(
    diagram: &Diagram,
    selection: &mut Selection,
    used: &mut HashSet<usize>,
    s: usize,
    i: usize,
    k: usize,
    want: usize,
    Ghost(stretch): Ghost<Stretch>,
)
    requires
        in_range(diagram.graph()),
        stretch.graph == diagram.graph(),
        stretch.levels == old(selection)@.levels,
        stretch.wants[s as int][i as int][k as int] == want,
        want < usize::MAX,
        old(selection)@.has_route(s as int, i as int, k as int),
        s + 1 < old(selection)@.levels.len(),
        i < old(selection)@.levels[s as int].len(),
        old(selection)@.route(s as int, i as int, k as int).0 < old(selection)@.levels[s + 1].len(),
        old(selection)@.levels[s as int][i as int] < diagram.neighbors@.len(),
    ensures
        final(selection)@.levels == old(selection)@.levels,
        (Refit { connections: final(selection)@.connections, used: final(used)@ }) == stretch.fit(
            Refit { connections: old(selection)@.connections, used: old(used)@ },
            s as int,
            i as int,
            k as int,
        ),
{
    let ghost r = Refit { connections: selection@.connections, used: used@ };
    let ghost was = selection@.connections;
    let existing = selection.connections[s][i][k].1.len();
    if want <= existing {
        proof {
            let row = was[s as int][i as int];
            assert(row.update(k as int, row[k as int]) =~= row);
            assert(was[s as int].update(i as int, row) =~= was[s as int]);
            assert(was.update(s as int, was[s as int]) =~= was);
        }
        return;
    }
    let target = selection.connections[s][i][k].0;
    let from = selection.levels[s][i];
    assert(selection.levels@.len() == selection.levels.len());
    let to = selection.levels[s + 1][target];
    let path = selection.connections[s][i][k].1.clone();
    assert(path@ =~= was[s as int][i as int][k as int].1);
    release(used, &path);
    let now: Vec<usize> = match find_path_with_target_length(diagram, from, to, want, used) {
        Some(found) => if found.len() > existing {
            found
        } else {
            path
        },
        None => path,
    };
    assert(now@ == stretch.corridor(r, s as int, i as int, k as int));
    occupy(used, &now);
    set_corridor(selection, s, i, k, now);
}

/// Stretches the connections of a selection to the lengths that are wanted, as far
/// as the cells that nothing uses allow.
pub fn inflate(diagram: &Diagram, selection: &mut Selection, wants: &Vec<Vec<Vec<usize>>>)
    requires
        in_range(diagram.graph()),
        old(selection)@.addressed(diagram.neighbors@.len()),
        (Stretch {
            graph: diagram.graph(),
            levels: old(selection)@.levels,
            wants: length_lists(wants@),
        }).matches(old(selection)@),
        forall|s: int, i: int, k: int|
            #![trigger wants@[s]@[i]@[k]]
            0 <= s < wants@.len() && 0 <= i < wants@[s]@.len() && 0 <= k < wants@[s]@[i]@.len()
                ==> wants@[s]@[i]@[k] < usize::MAX,
    ensures
        final(selection)@ == (Stretch {
            graph: diagram.graph(),
            levels: old(selection)@.levels,
            wants: length_lists(wants@),
        }).inflated(old(selection)@),
{
    let ghost start = selection@;
    let ghost stretch = Stretch {
        graph: diagram.graph(),
        levels: start.levels,
        wants: length_lists(wants@),
    };
    let mut used = taken_cells(selection);
    let ghost first = Refit { connections: start.connections, used: taken(start) };
    let mut s: usize = 0;
    while s < wants.len()
        invariant
            in_range(diagram.graph()),
            start.addressed(diagram.neighbors@.len()),
            start.levels == selection@.levels,
            stretch == (Stretch {
                graph: diagram.graph(),
                levels: start.levels,
                wants: length_lists(wants@),
            }),
            stretch.matches(start),
            forall|s: int, i: int, k: int|
                #![trigger wants@[s]@[i]@[k]]
                0 <= s < wants@.len() && 0 <= i < wants@[s]@.len() && 0 <= k
                    < wants@[s]@[i]@.len() ==> wants@[s]@[i]@[k] < usize::MAX,
            first == (Refit { connections: start.connections, used: taken(start) }),
            s <= wants@.len(),
            wants@.len() == start.connections.len(),
            (Refit { connections: selection@.connections, used: used@ }) == stretch.fit_stages(
                first,
                s as nat,
            ),
        decreases wants@.len() - s,
    {
        proof {
            stretch.lemma_fit_stages(start, s as nat);
        }
        fit_stage(diagram, selection, &mut used, s, &wants[s], Ghost(stretch), Ghost(start));
        s += 1;
    }
}

/// Stretches the connections of one stage.
fn fit_stage(
    diagram: &Diagram,
    selection: &mut Selection,
    used: &mut HashSet<usize>,
    s: usize,
    wants: &Vec<Vec<usize>>,
    Ghost(stretch): Ghost<Stretch>,
    Ghost(start): Ghost<Chosen>,
)
    requires
        in_range(diagram.graph()),
        start.addressed(diagram.neighbors@.len()),
        start.levels == old(selection)@.levels,
        stretch.graph == diagram.graph(),
        stretch.levels == start.levels,
        stretch.matches(start),
        s < start.connections.len(),
        stretch.wants[s as int] == lists(wants@),
        forall|i: int, k: int|
            #![trigger wants@[i]@[k]]
            0 <= i < wants@.len() && 0 <= k < wants@[i]@.len() ==> wants@[i]@[k] < usize::MAX,
        stretch.keeps(
            start,
            Refit { connections: old(selection)@.connections, used: old(used)@ },
        ),
    ensures
        final(selection)@.levels == old(selection)@.levels,
        (Refit { connections: final(selection)@.connections, used: final(used)@ })
            == stretch.fit_stage(
            Refit { connections: old(selection)@.connections, used: old(used)@ },
            s as int,
            wants@.len(),
        ),
{
    let ghost first = Refit { connections: selection@.connections, used: used@ };
    assert(wants@.len() == stretch.wants[s as int].len());
    let mut i: usize = 0;
    while i < wants.len()
        invariant
            in_range(diagram.graph()),
            start.addressed(diagram.neighbors@.len()),
            start.levels == selection@.levels,
            stretch.graph == diagram.graph(),
            stretch.levels == start.levels,
            stretch.matches(start),
            s < start.connections.len(),
            stretch.wants[s as int] == lists(wants@),
            forall|i: int, k: int|
                #![trigger wants@[i]@[k]]
                0 <= i < wants@.len() && 0 <= k < wants@[i]@.len() ==> wants@[i]@[k] < usize::MAX,
            stretch.keeps(start, first),
            wants@.len() == start.connections[s as int].len(),
            i <= wants@.len(),
            (Refit { connections: selection@.connections, used: used@ }) == stretch.fit_stage(
                first,
                s as int,
                i as nat,
            ),
        decreases wants@.len() - i,
    {
        let ghost here = Refit { connections: selection@.connections, used: used@ };
        proof {
            stretch.lemma_fit_stage(start, first, s as int, i as nat);
            assert(stretch.wants[s as int][i as int] == wants@[i as int]@);
            assert(stretch.wants[s as int][i as int].len()
                == start.connections[s as int][i as int].len());
        }
        let row = &wants[i];
        let mut k: usize = 0;
        while k < row.len()
            invariant
                in_range(diagram.graph()),
                start.addressed(diagram.neighbors@.len()),
                start.levels == selection@.levels,
                stretch.graph == diagram.graph(),
                stretch.levels == start.levels,
                s < start.connections.len(),
                i < start.connections[s as int].len(),
                row@ == stretch.wants[s as int][i as int],
                row@.len() == start.connections[s as int][i as int].len(),
                forall|k: int| 0 <= k < row@.len() ==> row@[k] < usize::MAX,
                stretch.keeps(start, here),
                k <= row@.len(),
                (Refit { connections: selection@.connections, used: used@ }) == stretch.fit_cell(
                    here,
                    s as int,
                    i as int,
                    k as nat,
                ),
            decreases row@.len() - k,
        {
            proof {
                let r = stretch.fit_cell(here, s as int, i as int, k as nat);
                stretch.lemma_fit_cell(start, here, s as int, i as int, k as nat);
                assert(start.has_route(s as int, i as int, k as int));
                assert(stretch.kept(start, r, s as int, i as int, k as int));
                assert(r.connections[s as int].len() == start.connections[s as int].len());
                assert(r.connections[s as int][i as int].len()
                    == start.connections[s as int][i as int].len());
                assert(start.levels[s as int][i as int] < diagram.neighbors@.len());
            }
            fit(diagram, selection, used, s, i, k, row[k], Ghost(stretch));
            k += 1;
        }
        i += 1;
    }
}

/// The stops and connections of a map: those of the selection, stretched if lengths
/// are wanted.
pub open spec fn finished(plan: Plan, entry: Seq<usize>, wants: Option<Seq<Seq<Seq<usize>>>>) -> Chosen {
    let chosen = plan.stages(entry, plan.layout.len())->Ok_0.chosen;
    match wants {
        None => chosen,
        Some(wants) => (Stretch { graph: plan.graph, levels: chosen.levels, wants }).inflated(
            chosen,
        ),
    }
}

/// Every stop of every stage of a map, but for the last stage, has a path to a stop
/// of the next stage, and every stop but those of the entry stage has a path to it.
/// Paths walk from neighbour to neighbour, lead through no stop, and repeat no cell.
/// This holds whether or not corridors are stretched.
pub proof fn law_every_stop_leads_on(
    plan: Plan,
    entry: Seq<usize>,
    wants: Option<Seq<Seq<Seq<usize>>>>,
)
    requires
        in_range(plan.graph),
        plan.graph.len() <= usize::MAX,
        forall|i: int| 0 <= i < entry.len() ==> (#[trigger] entry[i]) < plan.graph.len(),
        plan.layout.len() >= 1,
        plan.stages(entry, plan.layout.len()) is Ok,
        wants matches Some(w) ==> (Stretch {
            graph: plan.graph,
            levels: plan.stages(entry, plan.layout.len())->Ok_0.chosen.levels,
            wants: w,
        }).matches(plan.stages(entry, plan.layout.len())->Ok_0.chosen),
    ensures
        finished(plan, entry, wants).levels.len() == plan.layout.len(),
        entry.len() == plan.layout[0] ==> finished(plan, entry, wants).fills(plan.layout),
        finished(plan, entry, wants).linked(plan.graph),
        finished(plan, entry, wants).leads_on(),
        finished(plan, entry, wants).led_to(),
        finished(plan, entry, wants).apart(),
        finished(plan, entry, wants).simple(),
{
    let chosen = plan.stages(entry, plan.layout.len())->Ok_0.chosen;
    law_every_stop_is_connected(plan, entry);
    law_selection_matches_layout(plan, entry);
    law_selection_keeps_cells_apart(plan, entry);
    if let Some(w) = wants {
        law_inflating_keeps_connections(
            Stretch { graph: plan.graph, levels: chosen.levels, wants: w },
            chosen,
        );
    }
}

} // verus!
