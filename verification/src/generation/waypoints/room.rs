//! What room corridors take: what becomes longer takes cells that nothing else holds,
//! and nothing stays short that has room.

use super::{is_crossed, is_stop, law_found_is_closest, taken, Detour, Refit, Stretch};
use crate::generation::reach::plain::{comes_before, lemma_walks, walks};
use crate::generation::selection::{walked, Chosen};
use crate::graph::in_range;
use vstd::prelude::*;

verus! {

impl Chosen {
    /// The corridor at this address holds `c`.
    pub open spec fn holds(self, s: int, i: int, k: int, c: usize) -> bool {
        &&& 0 <= s < self.connections.len()
        &&& 0 <= i < self.connections[s].len()
        &&& 0 <= k < self.connections[s][i].len()
        &&& self.connections[s][i][k].1.contains(c)
    }

    /// Two different corridors hold `c`.
    pub open spec fn shared(self, c: usize) -> bool {
        exists|s: int, i: int, k: int, t: int, j: int, l: int|
            #![trigger self.holds(s, i, k, c), self.holds(t, j, l, c)]
            self.holds(s, i, k, c) && self.holds(t, j, l, c) && !(s == t && i == j && k == l)
    }

    /// `c` is a stop, or a corridor other than the one at this address holds it.
    pub open spec fn bars(self, s: int, i: int, k: int, c: usize) -> bool {
        ||| exists|t: int, j: int|
            0 <= t < self.levels.len() && 0 <= j < self.levels[t].len()
                && #[trigger] self.levels[t][j] == c
        ||| exists|t: int, j: int, l: int| #[trigger]
            self.holds(t, j, l, c) && !(t == s && j == i && l == k)
    }

    /// `c` is a stop, or some corridor holds it.
    pub open spec fn occupies(self, c: usize) -> bool {
        ||| exists|s: int, i: int|
            0 <= s < self.levels.len() && 0 <= i < self.levels[s].len()
                && #[trigger] self.levels[s][i] == c
        ||| exists|s: int, i: int, k: int| #[trigger] self.holds(s, i, k, c)
    }
}

/// What is in use at the start: the stops and what corridors hold.
proof fn lemma_taken(chosen: Chosen, c: usize)
    ensures
        taken(chosen).contains(c) <==> chosen.occupies(c),
{
    if is_stop(chosen, chosen.levels.len(), c) {
        let s = choose|s: int|
            0 <= s < chosen.levels.len() && (#[trigger] chosen.levels[s]).contains(c);
        let i = choose|i: int| 0 <= i < chosen.levels[s].len() && chosen.levels[s][i] == c;
        assert(chosen.levels[s][i] == c);
    }
    if is_crossed(chosen, chosen.connections.len(), c) {
        let s = choose|s: int|
            0 <= s < chosen.connections.len() && walked(#[trigger] chosen.connections[s]).contains(c);
        let links = chosen.connections[s];
        let (i, k) = choose|i: int, k: int|
            0 <= i < links.len() && 0 <= k < links[i].len() && (#[trigger] links[i][k]).1.contains(
                c,
            );
        assert(chosen.holds(s, i, k, c));
    }
    if exists|s: int, i: int|
        0 <= s < chosen.levels.len() && 0 <= i < chosen.levels[s].len()
            && #[trigger] chosen.levels[s][i] == c {
        let (s, i) = choose|s: int, i: int|
            0 <= s < chosen.levels.len() && 0 <= i < chosen.levels[s].len()
                && #[trigger] chosen.levels[s][i] == c;
        assert(chosen.levels[s].contains(c));
    }
    if exists|s: int, i: int, k: int| #[trigger] chosen.holds(s, i, k, c) {
        let (s, i, k) = choose|s: int, i: int, k: int| #[trigger] chosen.holds(s, i, k, c);
        let links = chosen.connections[s];
        assert(links[i][k].1.contains(c));
        assert(walked(chosen.connections[s]).contains(c));
    }
}

impl Stretch {
    /// The selection while its connections are stretched.
    spec fn midway(self, r: Refit) -> Chosen {
        Chosen { levels: self.levels, connections: r.connections }
    }

    /// At most one corridor holds `c`, and if one does, `c` is in use.
    spec fn alone(self, r: Refit, c: usize) -> bool {
        &&& !self.midway(r).shared(c)
        &&& forall|s: int, i: int, k: int| #[trigger]
            self.midway(r).holds(s, i, k, c) ==> r.used.contains(c)
    }

    proof fn lemma_fit_alone(self, start: Chosen, r: Refit, s: int, i: int, k: int, c: usize)
        requires
            in_range(self.graph),
            start.addressed(self.graph.len()),
            start.levels == self.levels,
            start.has_route(s, i, k),
            self.keeps(start, r),
            self.alone(r, c),
        ensures
            self.alone(self.fit(r, s, i, k), c),
    {
        let next = self.fit(r, s, i, k);
        let was = self.midway(r);
        let after = self.midway(next);
        let (target, path) = r.connections[s][i][k];
        let want = self.wants[s][i][k] as nat;
        let now = self.corridor(r, s, i, k);
        let d = self.detour(r, s, i, k);
        assert(self.kept(start, r, s, i, k));
        assert(r.connections[s].len() == start.connections[s].len());
        assert(r.connections[s][i].len() == start.connections[s][i].len());
        assert(self.levels[s][i] < self.graph.len());
        assert(start.route(s, i, k).0 < start.levels[s + 1].len());
        assert(self.levels[s + 1][target as int] < self.graph.len());
        law_found_is_closest(d, want);
        assert forall|t: int, j: int, l: int| !(t == s && j == i && l == k) implies #[trigger] after.holds(
            t,
            j,
            l,
            c,
        ) == was.holds(t, j, l, c) by {
            if 0 <= t < r.connections.len() {
                if t != s {
                    assert(next.connections[t] == r.connections[t]);
                } else if 0 <= j < r.connections[t].len() && j != i {
                    assert(next.connections[t][j] == r.connections[t][j]);
                }
            }
        }
        assert(next.connections[s][i][k] == (target, now));
        assert(after.holds(s, i, k, c) <==> now.contains(c));
        assert(was.holds(s, i, k, c) <==> path.contains(c));
        if now != path && now.contains(c) {
            assert(d.corridor(now));
            let a = choose|a: int| 0 <= a < now.len() && now[a] == c;
            assert(!d.used.contains(now[a]));
            assert(!r.used.contains(c) || path.contains(c));
        }
        assert forall|t: int, j: int, l: int|
            !(t == s && j == i && l == k) && #[trigger] after.holds(t, j, l, c) implies !after.holds(
            s,
            i,
            k,
            c,
        ) by {
            assert(was.holds(t, j, l, c));
            if path.contains(c) {
                assert(was.holds(s, i, k, c));
                assert(was.shared(c));
            }
        }
        if after.shared(c) {
            let (s1, i1, k1, t1, j1, l1) = choose|s: int, i: int, k: int, t: int, j: int, l: int|
                #![trigger after.holds(s, i, k, c), after.holds(t, j, l, c)]
                after.holds(s, i, k, c) && after.holds(t, j, l, c) && !(s == t && i == j && k == l);
            if !(s1 == s && i1 == i && k1 == k) && !(t1 == s && j1 == i && l1 == k) {
                assert(was.holds(s1, i1, k1, c) && was.holds(t1, j1, l1, c));
                assert(was.shared(c));
            }
        }
        assert forall|t: int, j: int, l: int| #[trigger] after.holds(t, j, l, c) implies next.used.contains(
            c,
        ) by {
            if t == s && j == i && l == k {
                if now == path {
                    assert(was.holds(s, i, k, c));
                }
            } else {
                assert(was.holds(t, j, l, c));
                if path.contains(c) {
                    assert(was.holds(s, i, k, c));
                    assert(was.shared(c));
                }
            }
        }
    }

    proof fn lemma_fit_cell_alone(
        self,
        start: Chosen,
        r: Refit,
        s: int,
        i: int,
        count: nat,
        c: usize,
    )
        requires
            in_range(self.graph),
            start.addressed(self.graph.len()),
            start.levels == self.levels,
            0 <= s < start.connections.len(),
            0 <= i < start.connections[s].len(),
            count <= start.connections[s][i].len(),
            self.keeps(start, r),
            self.alone(r, c),
        ensures
            self.alone(self.fit_cell(r, s, i, count), c),
        decreases count,
    {
        if count > 0 {
            let n = (count - 1) as nat;
            self.lemma_fit_cell_alone(start, r, s, i, n, c);
            self.lemma_fit_cell(start, r, s, i, n);
            assert(start.has_route(s, i, count - 1));
            self.lemma_fit_alone(start, self.fit_cell(r, s, i, n), s, i, count - 1, c);
        }
    }

    proof fn lemma_fit_stage_alone(self, start: Chosen, r: Refit, s: int, count: nat, c: usize)
        requires
            in_range(self.graph),
            start.addressed(self.graph.len()),
            start.levels == self.levels,
            self.matches(start),
            0 <= s < start.connections.len(),
            count <= start.connections[s].len(),
            self.keeps(start, r),
            self.alone(r, c),
        ensures
            self.alone(self.fit_stage(r, s, count), c),
        decreases count,
    {
        if count > 0 {
            let n = (count - 1) as nat;
            self.lemma_fit_stage_alone(start, r, s, n, c);
            self.lemma_fit_stage(start, r, s, n);
            assert(self.wants[s].len() == start.connections[s].len());
            assert(self.wants[s][count - 1].len() == start.connections[s][count - 1].len());
            self.lemma_fit_cell_alone(
                start,
                self.fit_stage(r, s, n),
                s,
                count - 1,
                self.wants[s][count - 1].len(),
                c,
            );
        }
    }

    proof fn lemma_fit_stages_alone(self, start: Chosen, count: nat, c: usize)
        requires
            in_range(self.graph),
            start.addressed(self.graph.len()),
            start.levels == self.levels,
            self.matches(start),
            count <= start.connections.len(),
            !start.shared(c),
        ensures
            self.alone(
                self.fit_stages(
                    Refit { connections: start.connections, used: taken(start) },
                    count,
                ),
                c,
            ),
        decreases count,
    {
        let r = Refit { connections: start.connections, used: taken(start) };
        if count > 0 {
            let n = (count - 1) as nat;
            self.lemma_fit_stages_alone(start, n, c);
            self.lemma_fit_stages(start, n);
            assert(self.wants[count - 1].len() == start.connections[count - 1].len());
            self.lemma_fit_stage_alone(
                start,
                self.fit_stages(r, n),
                count - 1,
                self.wants[count - 1].len(),
                c,
            );
        } else {
            assert(self.midway(r) == start);
            lemma_taken(start, c);
        }
    }
}

/// Inflating makes no two corridors meet: a cell that two corridors hold afterwards
/// was held by two corridors before.
pub proof fn law_inflating_shares_no_new_cell(stretch: Stretch, chosen: Chosen, c: usize)
    requires
        in_range(stretch.graph),
        chosen.addressed(stretch.graph.len()),
        stretch.levels == chosen.levels,
        stretch.matches(chosen),
        stretch.inflated(chosen).shared(c),
    ensures
        chosen.shared(c),
{
    if !chosen.shared(c) {
        stretch.lemma_fit_stages_alone(chosen, chosen.connections.len(), c);
        let r = stretch.fit_stages(
            Refit { connections: chosen.connections, used: taken(chosen) },
            chosen.connections.len(),
        );
        assert(stretch.midway(r) == stretch.inflated(chosen));
    }
}

/// A corridor that inflating changes keeps to itself: it has no cell in common with any
/// other corridor of the result, but for cells that two corridors held before.
pub proof fn law_a_stretched_corridor_keeps_to_itself(
    stretch: Stretch,
    chosen: Chosen,
    s: int,
    i: int,
    k: int,
    t: int,
    j: int,
    l: int,
    c: usize,
)
    requires
        in_range(stretch.graph),
        chosen.addressed(stretch.graph.len()),
        stretch.levels == chosen.levels,
        stretch.matches(chosen),
        chosen.has_route(s, i, k),
        chosen.has_route(t, j, l),
        !(s == t && i == j && k == l),
        !chosen.shared(c),
    ensures
        !(stretch.inflated(chosen).connections[s][i][k].1.contains(c) && stretch.inflated(
            chosen,
        ).connections[t][j][l].1.contains(c)),
{
    let now = stretch.inflated(chosen);
    super::law_inflating_keeps_connections(stretch, chosen);
    assert(now.has_route(s, i, k));
    assert(now.has_route(t, j, l));
    if now.connections[s][i][k].1.contains(c) && now.connections[t][j][l].1.contains(c) {
        assert(now.holds(s, i, k, c) && now.holds(t, j, l, c));
        assert(now.shared(c));
        law_inflating_shares_no_new_cell(stretch, chosen, c);
    }
}

/// `path` is a way from one end of a search to the other, by neighbours, through cells
/// that are not used, none of them twice.
pub open spec fn clear(d: Detour, path: Seq<usize>) -> bool {
    &&& d.from != d.to
    &&& walks(d.graph, d.from, path, d.to)
    &&& path.no_duplicates()
    &&& forall|x: int|
        0 <= x < path.len() ==> (#[trigger] path[x]) != d.from && path[x] != d.to
            && !d.used.contains(path[x])
}

/// A length is within one cell of what is desired, and not zero.
pub open spec fn close(len: nat, desired: nat) -> bool {
    1 <= len && desired <= len + 1 && len <= desired + 1
}

proof fn lemma_clear(d: Detour, path: Seq<usize>)
    ensures
        d.corridor(path) <==> clear(d, path),
{
    lemma_walks(d.graph, d.from, path, d.to);
}

/// A search finds a way if and only if there is a clear one whose length is within one
/// cell of what is desired, and not zero. What it finds is such a way, and no other is
/// shorter.
pub proof fn law_a_search_finds_the_shortest_close_way(d: Detour, desired: nat)
    requires
        in_range(d.graph),
        d.from < d.graph.len(),
        d.to < d.graph.len(),
    ensures
        d.found(desired) is Some <==> exists|p: Seq<usize>|
            #[trigger] clear(d, p) && close(p.len(), desired),
        d.found(desired) matches Some(p) ==> {
            &&& clear(d, p)
            &&& close(p.len(), desired)
            &&& forall|q: Seq<usize>| #[trigger]
                clear(d, q) && close(q.len(), desired) ==> p.len() <= q.len()
        },
{
    law_found_is_closest(d, desired);
    if let Some(p) = d.found(desired) {
        lemma_clear(d, p);
    }
    assert forall|q: Seq<usize>| #[trigger] clear(d, q) implies d.corridor(q) by {
        lemma_clear(d, q);
    }
}

impl Stretch {
    /// The connections before any is stretched.
    spec fn outset(self, start: Chosen) -> Refit {
        Refit { connections: start.connections, used: taken(start) }
    }

    /// What all of this is about: a selection on a graph, with a length for each of its
    /// connections.
    spec fn suits(self, start: Chosen) -> bool {
        &&& in_range(self.graph)
        &&& start.addressed(self.graph.len())
        &&& start.levels == self.levels
        &&& self.matches(start)
    }

    proof fn lemma_fit_else(
        self,
        start: Chosen,
        r: Refit,
        s: int,
        i: int,
        k: int,
        t: int,
        j: int,
        l: int,
    )
        requires
            start.has_route(s, i, k),
            start.has_route(t, j, l),
            self.keeps(start, r),
            !(t == s && j == i && l == k),
        ensures
            self.fit(r, s, i, k).connections[t][j][l] == r.connections[t][j][l],
    {
        assert(r.connections[s].len() == start.connections[s].len());
        assert(r.connections[s][i].len() == start.connections[s][i].len());
        let next = self.fit(r, s, i, k);
        if t != s {
            assert(next.connections[t] == r.connections[t]);
        } else if j != i {
            assert(next.connections[t][j] == r.connections[t][j]);
        }
    }

    proof fn lemma_cell_else(
        self,
        start: Chosen,
        r: Refit,
        s: int,
        i: int,
        low: nat,
        count: nat,
        t: int,
        j: int,
        l: int,
    )
        requires
            self.suits(start),
            0 <= s < start.connections.len(),
            0 <= i < start.connections[s].len(),
            low <= count <= start.connections[s][i].len(),
            self.keeps(start, r),
            start.has_route(t, j, l),
            !(t == s && j == i && low <= l < count),
        ensures
            self.fit_cell(r, s, i, count).connections[t][j][l] == self.fit_cell(
                r,
                s,
                i,
                low,
            ).connections[t][j][l],
        decreases count,
    {
        if low < count {
            let n = (count - 1) as nat;
            self.lemma_cell_else(start, r, s, i, low, n, t, j, l);
            self.lemma_fit_cell(start, r, s, i, n);
            assert(start.has_route(s, i, count - 1));
            self.lemma_fit_else(start, self.fit_cell(r, s, i, n), s, i, count - 1, t, j, l);
        }
    }

    proof fn lemma_stage_else(
        self,
        start: Chosen,
        r: Refit,
        s: int,
        low: nat,
        count: nat,
        t: int,
        j: int,
        l: int,
    )
        requires
            self.suits(start),
            0 <= s < start.connections.len(),
            low <= count <= start.connections[s].len(),
            self.keeps(start, r),
            start.has_route(t, j, l),
            !(t == s && low <= j < count),
        ensures
            self.fit_stage(r, s, count).connections[t][j][l] == self.fit_stage(
                r,
                s,
                low,
            ).connections[t][j][l],
        decreases count,
    {
        if low < count {
            let n = (count - 1) as nat;
            self.lemma_stage_else(start, r, s, low, n, t, j, l);
            self.lemma_fit_stage(start, r, s, n);
            assert(self.wants[s].len() == start.connections[s].len());
            assert(self.wants[s][count - 1].len() == start.connections[s][count - 1].len());
            self.lemma_cell_else(
                start,
                self.fit_stage(r, s, n),
                s,
                count - 1,
                0,
                self.wants[s][count - 1].len(),
                t,
                j,
                l,
            );
        }
    }

    proof fn lemma_stages_else(self, start: Chosen, low: nat, count: nat, t: int, j: int, l: int)
        requires
            self.suits(start),
            low <= count <= start.connections.len(),
            start.has_route(t, j, l),
            !(low <= t < count),
        ensures
            self.fit_stages(self.outset(start), count).connections[t][j][l] == self.fit_stages(
                self.outset(start),
                low,
            ).connections[t][j][l],
        decreases count,
    {
        if low < count {
            let n = (count - 1) as nat;
            self.lemma_stages_else(start, low, n, t, j, l);
            self.lemma_fit_stages(start, n);
            assert(self.wants[count - 1].len() == start.connections[count - 1].len());
            self.lemma_stage_else(
                start,
                self.fit_stages(self.outset(start), n),
                count - 1,
                0,
                self.wants[count - 1].len(),
                t,
                j,
                l,
            );
        }
    }

    /// The connections just before one of them is stretched.
    spec fn before(self, start: Chosen, s: int, i: int, k: int) -> Refit {
        self.fit_cell(
            self.fit_stage(self.fit_stages(self.outset(start), s as nat), s, i as nat),
            s,
            i,
            k as nat,
        )
    }

    proof fn lemma_before_keeps(self, start: Chosen, s: int, i: int, k: int)
        requires
            self.suits(start),
            start.has_route(s, i, k),
        ensures
            self.keeps(start, self.fit_stages(self.outset(start), s as nat)),
            self.keeps(
                start,
                self.fit_stage(self.fit_stages(self.outset(start), s as nat), s, i as nat),
            ),
            self.keeps(start, self.before(start, s, i, k)),
    {
        self.lemma_fit_stages(start, s as nat);
        self.lemma_fit_stage(start, self.fit_stages(self.outset(start), s as nat), s, i as nat);
        self.lemma_fit_cell(
            start,
            self.fit_stage(self.fit_stages(self.outset(start), s as nat), s, i as nat),
            s,
            i,
            k as nat,
        );
    }

    /// In the end a connection is what it was stretched to.
    proof fn lemma_ends_as_fitted(self, start: Chosen, s: int, i: int, k: int)
        requires
            self.suits(start),
            start.has_route(s, i, k),
        ensures
            self.inflated(start).connections[s][i][k] == self.fit(
                self.before(start, s, i, k),
                s,
                i,
                k,
            ).connections[s][i][k],
    {
        self.lemma_before_keeps(start, s, i, k);
        let a = self.fit_stages(self.outset(start), s as nat);
        let b = self.fit_stage(a, s, i as nat);
        assert(self.wants[s].len() == start.connections[s].len());
        assert(self.wants[s][i].len() == start.connections[s][i].len());
        self.lemma_stages_else(start, (s + 1) as nat, start.connections.len(), s, i, k);
        assert(self.fit_stages(self.outset(start), (s + 1) as nat) == self.fit_stage(
            a,
            s,
            self.wants[s].len(),
        ));
        self.lemma_stage_else(start, a, s, (i + 1) as nat, self.wants[s].len(), s, i, k);
        assert(self.fit_stage(a, s, (i + 1) as nat) == self.fit_cell(
            b,
            s,
            i,
            self.wants[s][i].len(),
        ));
        self.lemma_cell_else(start, b, s, i, (k + 1) as nat, self.wants[s][i].len(), s, i, k);
    }

    /// While connections are stretched, each is as it was or as it will be.
    proof fn lemma_was_or_will_be(
        self,
        start: Chosen,
        s: int,
        i: int,
        k: int,
        t: int,
        j: int,
        l: int,
    )
        requires
            self.suits(start),
            start.has_route(s, i, k),
            start.has_route(t, j, l),
        ensures
            ({
                let route = self.before(start, s, i, k).connections[t][j][l];
                route == start.connections[t][j][l] || route == self.inflated(
                    start,
                ).connections[t][j][l]
            }),
    {
        self.lemma_before_keeps(start, s, i, k);
        self.lemma_before_keeps(start, t, j, l);
        let a = self.fit_stages(self.outset(start), s as nat);
        let b = self.fit_stage(a, s, i as nat);
        assert(self.wants[s].len() == start.connections[s].len());
        assert(self.wants[s][i].len() == start.connections[s][i].len());
        let n = start.connections.len();
        if t < s {
            self.lemma_cell_else(start, b, s, i, 0, k as nat, t, j, l);
            self.lemma_stage_else(start, a, s, 0, i as nat, t, j, l);
            self.lemma_stages_else(start, (t + 1) as nat, s as nat, t, j, l);
            self.lemma_stages_else(start, (t + 1) as nat, n, t, j, l);
        } else if t > s {
            self.lemma_cell_else(start, b, s, i, 0, k as nat, t, j, l);
            self.lemma_stage_else(start, a, s, 0, i as nat, t, j, l);
            self.lemma_stages_else(start, 0, s as nat, t, j, l);
        } else if j < i {
            self.lemma_cell_else(start, b, s, i, 0, k as nat, t, j, l);
            self.lemma_stage_else(start, a, s, (j + 1) as nat, i as nat, t, j, l);
            self.lemma_stage_else(start, a, s, (j + 1) as nat, self.wants[s].len(), t, j, l);
            self.lemma_stages_else(start, (s + 1) as nat, n, t, j, l);
        } else if j > i {
            self.lemma_cell_else(start, b, s, i, 0, k as nat, t, j, l);
            self.lemma_stage_else(start, a, s, 0, i as nat, t, j, l);
            self.lemma_stages_else(start, 0, s as nat, t, j, l);
        } else if l < k {
            self.lemma_cell_else(start, b, s, i, (l + 1) as nat, k as nat, t, j, l);
            self.lemma_cell_else(start, b, s, i, (l + 1) as nat, self.wants[s][i].len(), t, j, l);
            self.lemma_stage_else(start, a, s, (i + 1) as nat, self.wants[s].len(), t, j, l);
            self.lemma_stages_else(start, (s + 1) as nat, n, t, j, l);
        } else {
            self.lemma_cell_else(start, b, s, i, 0, k as nat, t, j, l);
            self.lemma_stage_else(start, a, s, 0, i as nat, t, j, l);
            self.lemma_stages_else(start, 0, s as nat, t, j, l);
        }
    }

    /// What is in use was in use at the start, or some corridor holds it.
    spec fn accounted(self, start: Chosen, r: Refit) -> bool {
        forall|c: usize| #[trigger]
            r.used.contains(c) ==> start.occupies(c) || exists|s: int, i: int, k: int| #[trigger]
                self.midway(r).holds(s, i, k, c)
    }

    proof fn lemma_fit_accounted(self, start: Chosen, r: Refit, s: int, i: int, k: int)
        requires
            start.has_route(s, i, k),
            self.keeps(start, r),
            self.accounted(start, r),
        ensures
            self.accounted(start, self.fit(r, s, i, k)),
    {
        let next = self.fit(r, s, i, k);
        let was = self.midway(r);
        let after = self.midway(next);
        let (target, path) = r.connections[s][i][k];
        let now = self.corridor(r, s, i, k);
        assert(r.connections[s].len() == start.connections[s].len());
        assert(r.connections[s][i].len() == start.connections[s][i].len());
        assert(next.connections[s][i][k] == (target, now));
        assert forall|c: usize| #[trigger]
            next.used.contains(c) && !start.occupies(c) implies exists|t: int, j: int, l: int| #[trigger]
            after.holds(t, j, l, c) by {
            if now.contains(c) {
                assert(after.holds(s, i, k, c));
            } else {
                assert(r.used.contains(c));
                let (t, j, l) = choose|t: int, j: int, l: int| #[trigger] was.holds(t, j, l, c);
                if !(t == s && j == i && l == k) {
                    if t != s {
                        assert(next.connections[t] == r.connections[t]);
                    } else if j != i {
                        assert(next.connections[t][j] == r.connections[t][j]);
                    }
                    assert(after.holds(t, j, l, c));
                }
            }
        }
    }

    proof fn lemma_cell_accounted(self, start: Chosen, r: Refit, s: int, i: int, count: nat)
        requires
            self.suits(start),
            0 <= s < start.connections.len(),
            0 <= i < start.connections[s].len(),
            count <= start.connections[s][i].len(),
            self.keeps(start, r),
            self.accounted(start, r),
        ensures
            self.accounted(start, self.fit_cell(r, s, i, count)),
        decreases count,
    {
        if count > 0 {
            let n = (count - 1) as nat;
            self.lemma_cell_accounted(start, r, s, i, n);
            self.lemma_fit_cell(start, r, s, i, n);
            assert(start.has_route(s, i, count - 1));
            self.lemma_fit_accounted(start, self.fit_cell(r, s, i, n), s, i, count - 1);
        }
    }

    proof fn lemma_stage_accounted(self, start: Chosen, r: Refit, s: int, count: nat)
        requires
            self.suits(start),
            0 <= s < start.connections.len(),
            count <= start.connections[s].len(),
            self.keeps(start, r),
            self.accounted(start, r),
        ensures
            self.accounted(start, self.fit_stage(r, s, count)),
        decreases count,
    {
        if count > 0 {
            let n = (count - 1) as nat;
            self.lemma_stage_accounted(start, r, s, n);
            self.lemma_fit_stage(start, r, s, n);
            assert(self.wants[s].len() == start.connections[s].len());
            assert(self.wants[s][count - 1].len() == start.connections[s][count - 1].len());
            self.lemma_cell_accounted(
                start,
                self.fit_stage(r, s, n),
                s,
                count - 1,
                self.wants[s][count - 1].len(),
            );
        }
    }

    proof fn lemma_stages_accounted(self, start: Chosen, count: nat)
        requires
            self.suits(start),
            count <= start.connections.len(),
        ensures
            self.accounted(start, self.fit_stages(self.outset(start), count)),
        decreases count,
    {
        if count > 0 {
            let n = (count - 1) as nat;
            self.lemma_stages_accounted(start, n);
            self.lemma_fit_stages(start, n);
            assert(self.wants[count - 1].len() == start.connections[count - 1].len());
            self.lemma_stage_accounted(
                start,
                self.fit_stages(self.outset(start), n),
                count - 1,
                self.wants[count - 1].len(),
            );
        } else {
            assert forall|c: usize| #[trigger]
                self.outset(start).used.contains(c) implies start.occupies(c) by {
                lemma_taken(start, c);
            }
        }
    }
}

/// No corridor stays too short that has room. Where a corridor falls short of the
/// wanted length by more than one cell, or is empty and falls short, and some way
/// between its stops has about that length and leads through no stop and no cell that
/// another corridor holds, before or in the result, the corridor becomes longer, and no
/// longer than that way. The way may use the cells of the corridor itself.
pub proof fn law_a_short_corridor_with_room_is_stretched(
    stretch: Stretch,
    chosen: Chosen,
    s: int,
    i: int,
    k: int,
    path: Seq<usize>,
)
    requires
        in_range(stretch.graph),
        chosen.addressed(stretch.graph.len()),
        stretch.levels == chosen.levels,
        stretch.matches(chosen),
        chosen.has_route(s, i, k),
        ({
            let (target, was) = chosen.connections[s][i][k];
            let want = stretch.wants[s][i][k] as nat;
            let from = chosen.levels[s][i];
            let to = chosen.levels[s + 1][target as int];
            &&& was.len() < want
            &&& was.len() + 1 < want || was.len() == 0
            &&& close(path.len(), want)
            &&& from != to
            &&& walks(stretch.graph, from, path, to)
            &&& path.no_duplicates()
        }),
        forall|x: int|
            0 <= x < path.len() ==> !chosen.bars(s, i, k, #[trigger] path[x]) && !stretch.inflated(
                chosen,
            ).bars(s, i, k, path[x]),
    ensures
        chosen.connections[s][i][k].1.len() < stretch.inflated(
            chosen,
        ).connections[s][i][k].1.len() <= path.len(),
{
    let now = stretch.inflated(chosen);
    let r = stretch.before(chosen, s, i, k);
    let (target, was) = chosen.connections[s][i][k];
    let want = stretch.wants[s][i][k] as nat;
    stretch.lemma_before_keeps(chosen, s, i, k);
    stretch.lemma_ends_as_fitted(chosen, s, i, k);
    stretch.lemma_stages_accounted(chosen, s as nat);
    let a = stretch.fit_stages(stretch.outset(chosen), s as nat);
    stretch.lemma_stage_accounted(chosen, a, s, i as nat);
    stretch.lemma_cell_accounted(chosen, stretch.fit_stage(a, s, i as nat), s, i, k as nat);
    let b = stretch.fit_stage(a, s, i as nat);
    stretch.lemma_cell_else(chosen, b, s, i, 0, k as nat, s, i, k);
    stretch.lemma_stage_else(chosen, a, s, 0, i as nat, s, i, k);
    stretch.lemma_stages_else(chosen, 0, s as nat, s, i, k);
    assert(r.connections[s][i][k] == (target, was));
    let d = stretch.detour(r, s, i, k);
    assert(chosen.route(s, i, k).0 < chosen.levels[s + 1].len());
    assert(chosen.levels[s][i] < stretch.graph.len());
    assert(chosen.levels[s + 1][target as int] < stretch.graph.len());
    assert forall|x: int| 0 <= x < path.len() implies (#[trigger] path[x]) != d.from && path[x]
        != d.to && !d.used.contains(path[x]) by {
        let c = path[x];
        assert(!chosen.bars(s, i, k, c) && !now.bars(s, i, k, c));
        assert(chosen.levels[s][i] != c);
        assert(chosen.levels[s + 1][target as int] != c);
        if d.used.contains(c) && chosen.occupies(c) {
            let (t, j, l) = choose|t: int, j: int, l: int| #[trigger] chosen.holds(t, j, l, c);
            assert(was.contains(c));
        } else if d.used.contains(c) {
            let (t, j, l) = choose|t: int, j: int, l: int| #[trigger]
                stretch.midway(r).holds(t, j, l, c);
            assert(r.connections[t].len() == chosen.connections[t].len());
            assert(r.connections[t][j].len() == chosen.connections[t][j].len());
            assert(chosen.has_route(t, j, l));
            stretch.lemma_was_or_will_be(chosen, s, i, k, t, j, l);
            super::law_inflating_keeps_connections(stretch, chosen);
            assert(now.has_route(t, j, l));
            if r.connections[t][j][l] == chosen.connections[t][j][l] {
                assert(chosen.holds(t, j, l, c));
            } else {
                assert(now.holds(t, j, l, c));
            }
        }
    }
    assert(clear(d, path));
    law_a_search_finds_the_shortest_close_way(d, want);
    let p = d.found(want)->Some_0;
    assert(stretch.corridor(r, s, i, k) == p);
    assert(r.connections[s].len() == chosen.connections[s].len());
    assert(r.connections[s][i].len() == chosen.connections[s][i].len());
}

/// Where two ways part for the first time, `p` goes to a cell that is listed before the
/// one that `q` goes to.
pub open spec fn turns_off_first(d: Detour, p: Seq<usize>, q: Seq<usize>) -> bool {
    exists|x: int|
        0 <= x < p.len() && x < q.len() && p.take(x) == q.take(x) && comes_before(
            d.graph[if x == 0 {
                d.from
            } else {
                p[x - 1]
            } as int],
            #[trigger] p[x],
            q[x],
        )
}

impl Detour {
    proof fn lemma_onward_turns(self, path: Seq<usize>, cells: Seq<usize>, a: int, b: int)
        requires
            cells.no_duplicates(),
            0 <= a < b < self.onward(path, cells).len(),
        ensures
            comes_before(
                cells,
                self.onward(path, cells)[a].last(),
                self.onward(path, cells)[b].last(),
            ),
            self.onward(path, cells)[a].drop_last() == path,
            self.onward(path, cells)[b].drop_last() == path,
        decreases cells.len(),
    {
        let less = cells.drop_last();
        let c = cells.last();
        let before = self.onward(path, less);
        let now = self.onward(path, cells);
        assert(now.contains(now[a]));
        assert(now.contains(now[b]));
        self.lemma_onward(path, cells, now[a]);
        self.lemma_onward(path, cells, now[b]);
        if b < before.len() {
            self.lemma_onward_turns(path, less, a, b);
            let x = now[a].last();
            let y = now[b].last();
            let at = choose|at: int|
                0 <= at < less.len() && #[trigger] less[at] == x && forall|e: int|
                    0 <= e <= at ==> #[trigger] less[e] != y;
            assert(cells[at] == x);
            assert forall|e: int| 0 <= e <= at implies #[trigger] cells[e] != y by {
                assert(less[e] == cells[e]);
            }
        } else {
            assert(before.contains(before[a]));
            self.lemma_onward(path, less, before[a]);
            assert(now[a] == before[a]);
            let x = now[a].last();
            let at = choose|at: int| 0 <= at < less.len() && less[at] == x;
            assert(cells[at] == x);
            assert(now[b].last() == c);
            assert forall|e: int| 0 <= e <= at implies #[trigger] cells[e] != c by {
                assert(cells[e] != cells[cells.len() - 1]);
            }
        }
    }

    proof fn lemma_turns_lift(self, p: Seq<usize>, q: Seq<usize>)
        requires
            p.len() > 0,
            q.len() > 0,
            turns_off_first(self, p.drop_last(), q.drop_last()),
        ensures
            turns_off_first(self, p, q),
    {
        let short = p.drop_last();
        let other = q.drop_last();
        let x = choose|x: int|
            0 <= x < short.len() && x < other.len() && short.take(x) == other.take(x)
                && comes_before(
                self.graph[if x == 0 {
                    self.from
                } else {
                    short[x - 1]
                } as int],
                #[trigger] short[x],
                other[x],
            );
        assert(p.take(x) =~= short.take(x));
        assert(q.take(x) =~= other.take(x));
        assert(p[x] == short[x] && q[x] == other[x]);
    }

    proof fn lemma_spread_turns(self, layer: Seq<Seq<usize>>, a: int, b: int)
        requires
            forall|c: int| 0 <= c < self.graph.len() ==> (#[trigger] self.graph[c]).no_duplicates(),
            forall|e: int| 0 <= e < layer.len() ==> self.tip(#[trigger] layer[e]) < self.graph.len(),
            forall|e: int, f: int|
                0 <= e < f < layer.len() ==> turns_off_first(
                    self,
                    #[trigger] layer[e],
                    #[trigger] layer[f],
                ),
            0 <= a < b < self.spread(layer).len(),
        ensures
            turns_off_first(self, self.spread(layer)[a], self.spread(layer)[b]),
        decreases layer.len(),
    {
        let rest = layer.drop_last();
        let last = layer.last();
        assert(last == layer[layer.len() - 1]);
        let cells = self.graph[self.tip(last) as int];
        let head = self.spread(rest);
        let tail = self.onward(last, cells);
        let all = self.spread(layer);
        assert forall|e: int| 0 <= e < rest.len() implies self.tip(#[trigger] rest[e])
            < self.graph.len() by {
            assert(rest[e] == layer[e]);
        }
        assert forall|e: int, f: int| 0 <= e < f < rest.len() implies turns_off_first(
            self,
            #[trigger] rest[e],
            #[trigger] rest[f],
        ) by {
            assert(rest[e] == layer[e] && rest[f] == layer[f]);
        }
        if b < head.len() {
            self.lemma_spread_turns(rest, a, b);
        } else {
            let q = all[b];
            assert(q == tail[b - head.len()]);
            assert(tail.contains(q));
            self.lemma_onward(last, cells, q);
            if a < head.len() {
                let p = all[a];
                assert(p == head[a]);
                assert(head.contains(p));
                self.lemma_spread(rest, p);
                let e = choose|e: int| 0 <= e < rest.len() && rest[e] == p.drop_last();
                assert(layer[e] == rest[e]);
                assert(turns_off_first(self, layer[e], layer[layer.len() - 1]));
                self.lemma_turns_lift(p, q);
            } else {
                let p = all[a];
                assert(p == tail[a - head.len()]);
                self.lemma_onward_turns(last, cells, a - head.len(), b - head.len());
                assert(tail.contains(p));
                self.lemma_onward(last, cells, p);
                let x = last.len() as int;
                assert(p.take(x) =~= p.drop_last());
                assert(q.take(x) =~= q.drop_last());
                assert(p[x] == p.last() && q[x] == q.last());
                if x > 0 {
                    assert(p[x - 1] == last.last());
                }
            }
        }
    }

    proof fn lemma_layer_turns(self, len: nat)
        requires
            in_range(self.graph),
            self.from < self.graph.len(),
            forall|c: int| 0 <= c < self.graph.len() ==> (#[trigger] self.graph[c]).no_duplicates(),
        ensures
            forall|e: int, f: int|
                0 <= e < f < self.layer(len).len() ==> turns_off_first(
                    self,
                    #[trigger] self.layer(len)[e],
                    #[trigger] self.layer(len)[f],
                ),
        decreases len,
    {
        if len > 0 {
            let n = (len - 1) as nat;
            self.lemma_layer_turns(n);
            self.lemma_tips(n);
            assert forall|e: int, f: int|
                0 <= e < f < self.layer(len).len() implies turns_off_first(
                self,
                #[trigger] self.layer(len)[e],
                #[trigger] self.layer(len)[f],
            ) by {
                self.lemma_spread_turns(self.layer(n), e, f);
            }
        }
    }

    /// The first way of a layer that arrives comes before all others that do.
    proof fn lemma_first_place(self, layer: Seq<Seq<usize>>) -> (a: int)
        requires
            self.first(layer) is Some,
        ensures
            0 <= a < layer.len(),
            self.first(layer) == Some(layer[a]),
            forall|e: int| 0 <= e < a ==> !self.arrives(#[trigger] layer[e]),
        decreases layer.len(),
    {
        let rest = layer.drop_last();
        if self.first(rest) is Some {
            let a = self.lemma_first_place(rest);
            assert forall|e: int| 0 <= e < a implies !self.arrives(#[trigger] layer[e]) by {
                assert(rest[e] == layer[e]);
            }
            a
        } else {
            self.lemma_first(rest);
            assert forall|e: int| 0 <= e < layer.len() - 1 implies !self.arrives(
                #[trigger] layer[e],
            ) by {
                assert(rest[e] == layer[e]);
                assert(rest.contains(rest[e]));
            }
            layer.len() - 1
        }
    }

    proof fn lemma_between_is_first(self, low: nat, high: nat)
        requires
            self.between(low, high) is Some,
            in_range(self.graph),
            self.from < self.graph.len(),
        ensures
            self.first(self.layer(self.between(low, high)->Some_0.len())) == self.between(low, high),
        decreases high,
    {
        let n = (high - 1) as nat;
        if self.between(low, n) is Some {
            self.lemma_between_is_first(low, n);
        } else {
            self.lemma_first(self.layer(n));
            self.lemma_layer(n, self.between(low, high)->Some_0);
        }
    }
}

/// Among ways of the same length, a search finds the one that turns off first: where
/// another one parts from it, the way found goes to the cell that is listed first.
pub proof fn law_a_search_prefers_what_is_listed_first(d: Detour, desired: nat, q: Seq<usize>)
    requires
        in_range(d.graph),
        d.from < d.graph.len(),
        d.to < d.graph.len(),
        forall|c: int| 0 <= c < d.graph.len() ==> (#[trigger] d.graph[c]).no_duplicates(),
        d.found(desired) is Some,
        clear(d, q),
        q.len() == d.found(desired)->Some_0.len(),
        q != d.found(desired)->Some_0,
    ensures
        turns_off_first(d, d.found(desired)->Some_0, q),
{
    let p = d.found(desired)->Some_0;
    let layer = d.layer(p.len());
    d.lemma_between_is_first(super::least(desired), desired + 2);
    d.lemma_layer_turns(p.len());
    let a = d.lemma_first_place(layer);
    lemma_clear(d, q);
    d.lemma_corridor(q);
    d.lemma_layer(p.len(), q);
    assert(layer.contains(q));
    let b = choose|b: int| 0 <= b < layer.len() && layer[b] == q;
    assert(a < b) by {
        if b < a {
            assert(!d.arrives(layer[b]));
        }
    }
    assert(turns_off_first(d, layer[a], layer[b]));
}

/// The lengths that are wanted are read as they are.
pub proof fn law_wanted_lengths_are_read_as_they_are(
    wants: Seq<Vec<Vec<usize>>>,
    s: int,
    i: int,
)
    requires
        0 <= s < wants.len(),
        0 <= i < wants[s]@.len(),
    ensures
        super::length_lists(wants).len() == wants.len(),
        super::length_lists(wants)[s].len() == wants[s]@.len(),
        super::length_lists(wants)[s][i] == wants[s]@[i]@,
{
}

/// Inflating leaves a corridor as it is, or makes one that falls short of what is wanted
/// longer, to a length within one cell of that; and it still leads to the same stop.
pub proof fn law_inflating_only_lengthens(
    stretch: Stretch,
    chosen: Chosen,
    s: int,
    i: int,
    k: int,
)
    requires
        in_range(stretch.graph),
        chosen.addressed(stretch.graph.len()),
        stretch.levels == chosen.levels,
        stretch.matches(chosen),
        chosen.has_route(s, i, k),
    ensures
        ({
            let (target, was) = chosen.connections[s][i][k];
            let (goal, now) = stretch.inflated(chosen).connections[s][i][k];
            let want = stretch.wants[s][i][k] as nat;
            &&& goal == target
            &&& now == was || (was.len() < want && was.len() < now.len() && close(now.len(), want))
        }),
{
    super::law_inflating_keeps_connections(stretch, chosen);
    assert(chosen.route(s, i, k) == chosen.connections[s][i][k]);
}

} // verus!
