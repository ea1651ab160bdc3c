//! How a selection comes about stage by stage, told by the columns, the neighbours and
//! what was picked before.

use super::{
    even_picks, jitters, plan, walked, Chosen, DesiredLengths, Plan, Progress, Selection,
    SelectionError,
};
use crate::generation::crossing::{ahead, Crossing};
use crate::generation::ordering::{key_in, lemma_sort_by};
use crate::generation::picking::{column, law_a_band_lists_its_column};
use crate::generation::reach::{reached, Terrain};
use crate::generation::voronoi::Diagram;
use crate::geometry::order_of;
use crate::sequences::lemma_filter;
use crate::spacing::slot;
use vstd::prelude::*;

verus! {

/// What a plan says of its arguments: the neighbours of the cells, the order of their
/// heights, the columns and the layout; corridors of the length allowed, or of twice
/// the average asked for and one more, if that is more; and the lengths asked for.
pub proof fn law_a_plan_says_what_was_asked(
    diagram: &Diagram,
    layout: Seq<u32>,
    bins: Seq<Option<usize>>,
    allow_extra_traversal: u32,
    desired: Option<&DesiredLengths>,
    c: int,
    s: int,
)
    requires
        0 <= c < diagram.neighbors@.len(),
        diagram.sites@.len() == diagram.neighbors@.len(),
    ensures
        ({
            let plan = plan(diagram, layout, bins, allow_extra_traversal, desired);
            &&& plan.graph.len() == diagram.neighbors@.len()
            &&& plan.graph[c] == diagram.neighbors@[c]@
            &&& plan.heights.len() == diagram.sites@.len()
            &&& plan.heights[c] == order_of(diagram.sites@[c].y)
            &&& plan.bins == bins
            &&& plan.layout == layout
            &&& desired is None ==> plan.max == allow_extra_traversal && plan.lengths is None
            &&& desired matches Some(d) ==> {
                &&& plan.max >= allow_extra_traversal
                &&& plan.max >= 2 * d.average + 1
                &&& plan.max == allow_extra_traversal || plan.max == 2 * d.average + 1
                &&& plan.lengths is Some
                &&& plan.lengths->Some_0.len() == d.lengths@.len()
                &&& 0 <= s < d.lengths@.len() ==> plan.lengths->Some_0[s] == d.lengths@[s]@
            }
        }),
{
}

/// A selection is read as it is.
pub proof fn law_a_selection_is_read_as_it_is(selection: &Selection, s: int, i: int, k: int)
    ensures
        selection@.levels.len() == selection.levels@.len(),
        selection@.connections.len() == selection.connections@.len(),
        0 <= s < selection.levels@.len() ==> selection@.levels[s] == selection.levels@[s]@,
        0 <= s < selection.connections@.len() ==> selection@.connections[s].len()
            == selection.connections@[s]@.len(),
        0 <= s < selection.connections@.len() && 0 <= i < selection.connections@[s]@.len()
            ==> selection@.connections[s][i].len() == selection.connections@[s]@[i]@.len(),
        0 <= s < selection.connections@.len() && 0 <= i < selection.connections@[s]@.len() && 0 <= k
            < selection.connections@[s]@[i]@.len() ==> selection@.connections[s][i][k].0
            == selection.connections@[s]@[i]@[k].0 && selection@.connections[s][i][k].1
            == selection.connections@[s]@[i]@[k].1@,
{
}

/// What the stages before `s` take: their stops, and the cells of the corridors between
/// them.
pub open spec fn taken_before(chosen: Chosen, s: int) -> Set<usize> {
    Set::new(
        |c: usize|
            {
                ||| exists|t: int, i: int|
                    0 <= t < s && 0 <= i < chosen.levels[t].len() && #[trigger] chosen.levels[t][i]
                        == c
                ||| exists|t: int, i: int, k: int|
                    0 <= t < s - 1 && 0 <= i < chosen.connections[t].len() && 0 <= k
                        < chosen.connections[t][i].len() && (
                    #[trigger] chosen.connections[t][i][k]).1.contains(c)
            },
    )
}

impl Plan {
    /// What stage `s` of a selection is picked from, told by the stages before it: what
    /// each of its last stops reaches in the column of the stage, through cells that
    /// nothing takes; as cells near the stage after those with a neighbour in its
    /// column, or all for the last stage; and the lengths asked for that stop.
    pub open spec fn offered(self, chosen: Chosen, s: int) -> Crossing {
        let t = Terrain {
            graph: self.graph,
            band: column(self.bins, self.layout.len(), s),
            used: taken_before(chosen, s),
            max: self.max,
        };
        Crossing {
            reach: Seq::new(
                chosen.levels[s - 1].len(),
                |i: int| reached(t, chosen.levels[s - 1][i]),
            ),
            forward: Set::new(
                |c: usize|
                    s + 1 == self.layout.len() || exists|j: int|
                        0 <= j < self.graph[c as int].len() && column(
                            self.bins,
                            self.layout.len(),
                            s + 1,
                        ).contains(#[trigger] self.graph[c as int][j]),
            ),
            wanted: match self.lengths {
                None => None,
                Some(lengths) => Some(lengths[s - 1]),
            },
            heights: self.heights,
        }
    }

    /// The stages picked first stay as they are.
    proof fn lemma_stages_extend(self, entry: Seq<usize>, s: nat, n: nat)
        requires
            1 <= s <= n,
            self.stages(entry, n) is Ok,
        ensures
            self.stages(entry, s) is Ok,
            ({
                let p = self.stages(entry, s)->Ok_0;
                let q = self.stages(entry, n)->Ok_0;
                &&& p.chosen.levels.len() == s
                &&& p.chosen.connections.len() == s - 1
                &&& q.chosen.levels.len() == n
                &&& q.chosen.connections.len() == n - 1
                &&& p.chosen.levels == q.chosen.levels.take(s as int)
                &&& p.chosen.connections == q.chosen.connections.take(s - 1)
            }),
        decreases n,
    {
        let q = self.stages(entry, n)->Ok_0;
        if s < n {
            self.lemma_stages_extend(entry, s, (n - 1) as nat);
            let p = self.stages(entry, s)->Ok_0;
            assert(p.chosen.levels =~= q.chosen.levels.take(s as int));
            assert(p.chosen.connections =~= q.chosen.connections.take(s - 1));
        } else {
            if n > 1 {
                self.lemma_stages_extend(entry, (n - 1) as nat, (n - 1) as nat);
            }
            assert(q.chosen.levels =~= q.chosen.levels.take(s as int));
            assert(q.chosen.connections =~= q.chosen.connections.take(s - 1));
        }
    }

    /// What is taken is what the stages take.
    proof fn lemma_used(self, entry: Seq<usize>, n: nat)
        requires
            n >= 1,
            self.stages(entry, n) is Ok,
        ensures
            self.stages(entry, n)->Ok_0.used == taken_before(
                self.stages(entry, n)->Ok_0.chosen,
                n as int,
            ),
        decreases n,
    {
        let q = self.stages(entry, n)->Ok_0;
        self.lemma_stages_extend(entry, n, n);
        if n <= 1 {
            assert forall|c: usize| q.used.contains(c) <==> #[trigger] taken_before(
                q.chosen,
                1,
            ).contains(c) by {
                if entry.contains(c) {
                    let i = choose|i: int| 0 <= i < entry.len() && entry[i] == c;
                    assert(q.chosen.levels[0][i] == c);
                }
                if taken_before(q.chosen, 1).contains(c) {
                    let (t, i) = choose|t: int, i: int|
                        0 <= t < 1 && 0 <= i < q.chosen.levels[t].len()
                            && #[trigger] q.chosen.levels[t][i] == c;
                    assert(entry[i] == c);
                }
            }
            assert(q.used =~= taken_before(q.chosen, n as int));
        } else {
            let m = (n - 1) as nat;
            self.lemma_stages_extend(entry, m, n);
            self.lemma_used(entry, m);
            let p = self.stages(entry, m)->Ok_0;
            let picks = q.chosen.levels[m as int];
            let links = q.chosen.connections[m - 1];
            assert(q.used == p.used.union(picks.to_set()).union(walked(links)));
            assert forall|c: usize| q.used.contains(c) <==> #[trigger] taken_before(
                q.chosen,
                n as int,
            ).contains(c) by {
                self.lemma_used_step(p, q, m as int, c);
            }
            assert(q.used =~= taken_before(q.chosen, n as int));
        }
    }

    proof fn lemma_used_step(self, p: Progress, q: Progress, m: int, c: usize)
        requires
            m >= 1,
            p.chosen.levels.len() == m,
            p.chosen.connections.len() == m - 1,
            q.chosen.levels.len() == m + 1,
            q.chosen.connections.len() == m,
            p.chosen.levels == q.chosen.levels.take(m),
            p.chosen.connections == q.chosen.connections.take(m - 1),
            p.used == taken_before(p.chosen, m),
            q.used == p.used.union(q.chosen.levels[m].to_set()).union(
                walked(q.chosen.connections[m - 1]),
            ),
        ensures
            q.used.contains(c) <==> taken_before(q.chosen, m + 1).contains(c),
    {
        let picks = q.chosen.levels[m];
        let links = q.chosen.connections[m - 1];
        if p.used.contains(c) {
            if exists|t: int, i: int|
                0 <= t < m && 0 <= i < p.chosen.levels[t].len() && #[trigger] p.chosen.levels[t][i]
                    == c {
                let (t, i) = choose|t: int, i: int|
                    0 <= t < m && 0 <= i < p.chosen.levels[t].len()
                        && #[trigger] p.chosen.levels[t][i] == c;
                assert(q.chosen.levels[t] == p.chosen.levels[t]);
                assert(q.chosen.levels[t][i] == c);
            } else {
                let (t, i, k) = choose|t: int, i: int, k: int|
                    0 <= t < m - 1 && 0 <= i < p.chosen.connections[t].len() && 0 <= k
                        < p.chosen.connections[t][i].len() && (
                    #[trigger] p.chosen.connections[t][i][k]).1.contains(c);
                assert(q.chosen.connections[t] == p.chosen.connections[t]);
                assert(q.chosen.connections[t][i][k].1.contains(c));
            }
        }
        if picks.contains(c) {
            let i = choose|i: int| 0 <= i < picks.len() && picks[i] == c;
            assert(q.chosen.levels[m][i] == c);
        }
        if walked(links).contains(c) {
            let (i, k) = choose|i: int, k: int|
                0 <= i < links.len() && 0 <= k < links[i].len() && (
                #[trigger] links[i][k]).1.contains(c);
            assert(q.chosen.connections[m - 1][i][k].1.contains(c));
        }
        if exists|t: int, i: int|
            0 <= t < m + 1 && 0 <= i < q.chosen.levels[t].len() && #[trigger] q.chosen.levels[t][i]
                == c {
            let (t, i) = choose|t: int, i: int|
                0 <= t < m + 1 && 0 <= i < q.chosen.levels[t].len()
                    && #[trigger] q.chosen.levels[t][i] == c;
            if t < m {
                assert(q.chosen.levels[t] == p.chosen.levels[t]);
                assert(p.chosen.levels[t][i] == c);
            } else {
                assert(picks.contains(picks[i]));
            }
        }
        if exists|t: int, i: int, k: int|
            0 <= t < m && 0 <= i < q.chosen.connections[t].len() && 0 <= k
                < q.chosen.connections[t][i].len() && (
            #[trigger] q.chosen.connections[t][i][k]).1.contains(c) {
            let (t, i, k) = choose|t: int, i: int, k: int|
                0 <= t < m && 0 <= i < q.chosen.connections[t].len() && 0 <= k
                    < q.chosen.connections[t][i].len() && (
                #[trigger] q.chosen.connections[t][i][k]).1.contains(c);
            if t < m - 1 {
                assert(q.chosen.connections[t] == p.chosen.connections[t]);
                assert(p.chosen.connections[t][i][k].1.contains(c));
            } else {
                assert(links[i][k].1.contains(c));
            }
        }
    }

    proof fn lemma_offered(self, entry: Seq<usize>, s: nat)
        requires
            self.bins.len() <= usize::MAX,
            1 <= s < self.layout.len(),
            self.stages(entry, s) is Ok,
        ensures
            ({
                let p = self.stages(entry, s)->Ok_0;
                self.crossing(s as int, p.chosen.levels.last(), p.used) == self.offered(
                    p.chosen,
                    s as int,
                )
            }),
    {
        let p = self.stages(entry, s)->Ok_0;
        self.lemma_stages_extend(entry, s, s);
        self.lemma_used(entry, s);
        let n = self.layout.len();
        law_a_band_lists_its_column(self.bins, n, s as int);
        let mine = self.crossing(s as int, p.chosen.levels.last(), p.used);
        let raw = self.offered(p.chosen, s as int);
        assert(mine.reach =~= raw.reach);
        if s + 1 < n {
            let next = s as int + 1;
            law_a_band_lists_its_column(self.bins, n, next);
            let set = self.band(next).to_set();
            assert(set == column(self.bins, n, next));
            assert forall|c: usize| mine.forward.contains(c) <==> #[trigger] raw.forward.contains(
                c,
            ) by {
                if mine.forward.contains(c) {
                    let j = choose|j: int|
                        0 <= j < self.graph[c as int].len() && set.contains(
                            #[trigger] self.graph[c as int][j],
                        );
                    assert(column(self.bins, n, next).contains(self.graph[c as int][j]));
                }
                if raw.forward.contains(c) {
                    let j = choose|j: int|
                        0 <= j < self.graph[c as int].len() && column(
                            self.bins,
                            n,
                            next,
                        ).contains(#[trigger] self.graph[c as int][j]);
                    assert(set.contains(self.graph[c as int][j]));
                }
            }
        }
        assert(mine.forward =~= raw.forward);
    }
}

/// Each stage of a selection but the first is picked from what the stops of the stage
/// before reach, for as many stops as the layout says; and the connections of these
/// stops are what the pick connects.
pub proof fn law_each_stage_is_picked_from_what_is_offered(
    plan: Plan,
    entry: Seq<usize>,
    s: int,
)
    requires
        plan.bins.len() <= usize::MAX,
        1 <= s < plan.layout.len(),
        plan.stages(entry, plan.layout.len()) is Ok,
    ensures
        ({
            let chosen = plan.stages(entry, plan.layout.len())->Ok_0.chosen;
            &&& chosen.levels[0] == entry
            &&& plan.offered(chosen, s).outcome(plan.layout[s] as nat) == Ok::<_, usize>(
                (chosen.levels[s], chosen.connections[s - 1]),
            )
        }),
{
    let n = plan.layout.len();
    let chosen = plan.stages(entry, n)->Ok_0.chosen;
    plan.lemma_stages_extend(entry, s as nat, n);
    plan.lemma_stages_extend(entry, (s + 1) as nat, n);
    plan.lemma_stages_extend(entry, 1, n);
    plan.lemma_offered(entry, s as nat);
    let p = plan.stages(entry, s as nat)->Ok_0;
    let q = plan.stages(entry, (s + 1) as nat)->Ok_0;
    assert(plan.advance(p) == Ok::<_, SelectionError>(q));
    assert(q.chosen.levels[s] == chosen.levels[s]);
    assert(q.chosen.connections[s - 1] == chosen.connections[s - 1]);
    assert(plan.stages(entry, 1)->Ok_0.chosen.levels[0] == entry);
    assert(chosen.levels.take(1)[0] == chosen.levels[0]);
    assert(plan.offered(p.chosen, s) == plan.offered(chosen, s)) by {
        assert(p.chosen.levels[s - 1] == chosen.levels[s - 1]);
        let a = taken_before(p.chosen, s);
        let b = taken_before(chosen, s);
        assert forall|c: usize| a.contains(c) <==> #[trigger] b.contains(c) by {
            lemma_taken_before(p.chosen, chosen, s, c);
        }
        assert(a =~= b);
    }
}

proof fn lemma_taken_before(a: Chosen, b: Chosen, s: int, c: usize)
    requires
        a.levels.len() == s,
        a.connections.len() == s - 1,
        b.levels.len() >= s,
        b.connections.len() >= s - 1,
        a.levels == b.levels.take(s),
        a.connections == b.connections.take(s - 1),
    ensures
        taken_before(a, s).contains(c) <==> taken_before(b, s).contains(c),
{
    assert forall|t: int| 0 <= t < s implies #[trigger] a.levels[t] == b.levels[t] by {}
    assert forall|t: int| 0 <= t < s - 1 implies #[trigger] a.connections[t]
        == b.connections[t] by {}
    if exists|t: int, i: int|
        0 <= t < s && 0 <= i < a.levels[t].len() && #[trigger] a.levels[t][i] == c {
        let (t, i) = choose|t: int, i: int|
            0 <= t < s && 0 <= i < a.levels[t].len() && #[trigger] a.levels[t][i] == c;
        assert(b.levels[t][i] == c);
    }
    if exists|t: int, i: int|
        0 <= t < s && 0 <= i < b.levels[t].len() && #[trigger] b.levels[t][i] == c {
        let (t, i) = choose|t: int, i: int|
            0 <= t < s && 0 <= i < b.levels[t].len() && #[trigger] b.levels[t][i] == c;
        assert(a.levels[t][i] == c);
    }
    if exists|t: int, i: int, k: int|
        0 <= t < s - 1 && 0 <= i < a.connections[t].len() && 0 <= k < a.connections[t][i].len() && (
        #[trigger] a.connections[t][i][k]).1.contains(c) {
        let (t, i, k) = choose|t: int, i: int, k: int|
            0 <= t < s - 1 && 0 <= i < a.connections[t].len() && 0 <= k < a.connections[t][i].len()
                && (#[trigger] a.connections[t][i][k]).1.contains(c);
        assert(b.connections[t][i][k].1.contains(c));
    }
    if exists|t: int, i: int, k: int|
        0 <= t < s - 1 && 0 <= i < b.connections[t].len() && 0 <= k < b.connections[t][i].len() && (
        #[trigger] b.connections[t][i][k]).1.contains(c) {
        let (t, i, k) = choose|t: int, i: int, k: int|
            0 <= t < s - 1 && 0 <= i < b.connections[t].len() && 0 <= k < b.connections[t][i].len()
                && (#[trigger] b.connections[t][i][k]).1.contains(c);
        assert(a.connections[t][i][k].1.contains(c));
    }
}

/// A selection fails at the first stage that cannot be picked from what is offered. The
/// error names that stage, the one before it, and the stop that the pick failed at.
pub proof fn law_a_selection_fails_where_nothing_can_be_picked(plan: Plan, entry: Seq<usize>) -> (s:
    int)
    requires
        plan.bins.len() <= usize::MAX,
        plan.layout.len() <= usize::MAX,
        plan.stages(entry, plan.layout.len()) is Err,
    ensures
        1 <= s < plan.layout.len(),
        plan.stages(entry, s as nat) is Ok,
        plan.stages(entry, plan.layout.len()) matches Err(
            SelectionError::Unconnectable { from_stage, to_stage, level },
        ) && from_stage == s - 1 && to_stage == s && plan.offered(
            plan.stages(entry, s as nat)->Ok_0.chosen,
            s,
        ).outcome(plan.layout[s] as nat) == Err::<
            (Seq<usize>, Seq<Seq<crate::generation::crossing::Route>>),
            usize,
        >(level),
{
    plan.lemma_fails_at(entry, plan.layout.len())
}

impl Plan {
    proof fn lemma_fails_at(self, entry: Seq<usize>, n: nat) -> (s: int)
        requires
            self.bins.len() <= usize::MAX,
            n <= self.layout.len() <= usize::MAX,
            self.stages(entry, n) is Err,
        ensures
            1 <= s < n,
            self.stages(entry, s as nat) is Ok,
            self.stages(entry, n) matches Err(
                SelectionError::Unconnectable { from_stage, to_stage, level },
            ) && from_stage == s - 1 && to_stage == s && self.offered(
                self.stages(entry, s as nat)->Ok_0.chosen,
                s,
            ).outcome(self.layout[s] as nat) == Err::<
                (Seq<usize>, Seq<Seq<crate::generation::crossing::Route>>),
                usize,
            >(level),
        decreases n,
    {
        let m = (n - 1) as nat;
        if self.stages(entry, m) is Err {
            self.lemma_fails_at(entry, m)
        } else {
            self.lemma_stages_extend(entry, m, m);
            self.lemma_offered(entry, m);
            m as int
        }
    }

    /// `c` is in the first column and has a neighbour in the second one.
    pub open spec fn touches_second(self, c: usize) -> bool {
        &&& column(self.bins, self.layout.len(), 0).contains(c)
        &&& exists|j: int|
            0 <= j < self.graph[c as int].len() && column(
                self.bins,
                self.layout.len(),
                1,
            ).contains(#[trigger] self.graph[c as int][j])
    }
}

/// The entry stops are picked from the cells of the first column with a neighbour in
/// the second one, if there are as many as the layout asks for, and from the whole
/// column otherwise; each cell once, in the order of their heights.
pub proof fn law_entry_stops_touch_the_second_column(plan: Plan)
    requires
        plan.bins.len() <= usize::MAX,
        plan.layout.len() >= 2,
    ensures
        ({
            let near = Set::new(|c: usize| plan.touches_second(c));
            let all = column(plan.bins, plan.layout.len(), 0);
            let cells = plan.entry_cells();
            &&& near.finite() && all.finite()
            &&& cells.no_duplicates()
            &&& forall|i: int, j: int|
                0 <= i < j < cells.len() ==> plan.heights[(#[trigger] cells[i]) as int]
                    <= plan.heights[(#[trigger] cells[j]) as int]
            &&& near.len() >= plan.layout[0] ==> cells.to_set() == near
            &&& near.len() < plan.layout[0] ==> cells.to_set() == all
        }),
{
    let n = plan.layout.len();
    law_a_band_lists_its_column(plan.bins, n, 0);
    law_a_band_lists_its_column(plan.bins, n, 1);
    plan.lemma_entry_cells();
    let set = plan.band(1).to_set();
    let around = ahead(plan.graph, Some(set));
    let keep = |c: usize| around.contains(c);
    let touching = plan.band(0).filter(keep);
    crate::generation::picking::lemma_band(plan.bins, n, 0);
    lemma_filter(plan.band(0), keep);
    let near = Set::new(|c: usize| plan.touches_second(c));
    assert forall|c: usize| #[trigger] touching.contains(c) <==> near.contains(c) by {
        assert(touching.contains(c) <==> plan.band(0).contains(c) && keep(c));
        if keep(c) {
            let j = choose|j: int|
                0 <= j < plan.graph[c as int].len() && set.contains(
                    #[trigger] plan.graph[c as int][j],
                );
            assert(column(plan.bins, n, 1).contains(plan.graph[c as int][j]));
        }
        if near.contains(c) {
            let j = choose|j: int|
                0 <= j < plan.graph[c as int].len() && column(plan.bins, n, 1).contains(
                    #[trigger] plan.graph[c as int][j],
                );
            assert(set.contains(plan.graph[c as int][j]));
        }
    }
    assert(touching.to_set() =~= near);
    touching.unique_seq_to_set();
    let from = if touching.len() >= plan.layout[0] {
        touching
    } else {
        plan.band(0)
    };
    lemma_sort_by(from, key_in(plan.heights));
    let cells = plan.entry_cells();
    assert(cells.to_set() =~= from.to_set()) by {
        assert forall|c: usize| cells.to_set().contains(c) <==> #[trigger] from.to_set().contains(
            c,
        ) by {
            assert(cells.contains(c) <==> from.contains(c));
        }
    }
    assert forall|i: int, j: int| 0 <= i < j < cells.len() implies plan.heights[(
    #[trigger] cells[i]) as int] <= plan.heights[(#[trigger] cells[j]) as int] by {
        let key = key_in(plan.heights);
        assert(key(cells[i]) <= key(cells[j]));
    }
}

/// A single stop is picked near the middle of the list: `jitter` places past half of
/// its length, or at its end if that is beyond it.
pub proof fn law_a_single_stop_is_near_the_middle(sorted: Seq<usize>, jitter: nat)
    requires
        sorted.len() > 0,
    ensures
        ({
            let one = even_picks(sorted, 1, jitter);
            &&& one.len() == 1
            &&& sorted.len() / 2 + jitter < sorted.len() ==> one[0] == sorted[(sorted.len() / 2
                + jitter) as int]
            &&& sorted.len() / 2 + jitter >= sorted.len() ==> one[0] == sorted.last()
        }),
{
}

/// What keeps any selection from being made: a layout of fewer than two stages; or a
/// column without cells, where the error names the first of these; or too few cells in
/// the first column for the entry stops.
pub proof fn law_obstacles_are_what_they_say(plan: Plan)
    requires
        plan.bins.len() <= usize::MAX,
        plan.layout.len() <= usize::MAX,
    ensures
        plan.obstacle(SelectionError::LayoutTooShort) <==> plan.layout.len() < 2,
        forall|b: usize| #[trigger]
            plan.obstacle(SelectionError::EmptyBand(b)) <==> plan.layout.len() >= 2 && ((b
                < plan.layout.len() && column(plan.bins, plan.layout.len(), b as int).is_empty()
                && forall|j: int|
                0 <= j < b ==> !(#[trigger] column(plan.bins, plan.layout.len(), j)).is_empty())
                || (b == 0 && (forall|j: int|
                0 <= j < plan.layout.len() ==> !(#[trigger] column(
                    plan.bins,
                    plan.layout.len(),
                    j,
                )).is_empty()) && column(plan.bins, plan.layout.len(), 0).len() < plan.layout[0])),
        forall|e: SelectionError| e is Unconnectable ==> !#[trigger] plan.obstacle(e),
{
    let n = plan.layout.len();
    assert forall|j: int| 0 <= j < n implies (#[trigger] plan.band(j).len() == 0) == column(
        plan.bins,
        n,
        j,
    ).is_empty() && plan.band(j).len() == column(plan.bins, n, j).len() by {
        law_a_band_lists_its_column(plan.bins, n, j);
        let set = column(plan.bins, n, j);
        if plan.band(j).len() == 0 {
            assert forall|c: usize| !set.contains(c) by {
                assert(!plan.band(j).contains(c));
            }
            assert(set =~= Set::empty());
        } else {
            assert(plan.band(j).contains(plan.band(j)[0]));
            assert(set.contains(plan.band(j)[0]));
        }
    }
    assert forall|b: usize| #[trigger]
        plan.obstacle(SelectionError::EmptyBand(b)) <==> n >= 2 && ((b < n && column(
            plan.bins,
            n,
            b as int,
        ).is_empty() && forall|j: int|
            0 <= j < b ==> !(#[trigger] column(plan.bins, n, j)).is_empty()) || (b == 0 && (forall|
            j: int,
        |
            0 <= j < n ==> !(#[trigger] column(plan.bins, n, j)).is_empty()) && column(
            plan.bins,
            n,
            0,
        ).len() < plan.layout[0])) by {
        if n >= 2 {
            if plan.first_empty(b as int) {
                assert(plan.band(b as int).len() == 0);
                assert forall|j: int| 0 <= j < b implies !(#[trigger] column(
                    plan.bins,
                    n,
                    j,
                )).is_empty() by {
                    assert(plan.band(j).len() > 0);
                }
            }
            if plan.short_of_entries() {
                assert forall|j: int| 0 <= j < n implies !(#[trigger] column(
                    plan.bins,
                    n,
                    j,
                )).is_empty() by {
                    assert(plan.band(j).len() > 0);
                }
            }
            assert forall|j: int| 0 <= j < n && !column(plan.bins, n, j).is_empty() implies
                #[trigger] plan.band(j).len() > 0 by {}
            if b < n {
                assert(plan.band(b as int).len() == 0 <==> column(
                    plan.bins,
                    n,
                    b as int,
                ).is_empty());
            }
        }
    }
}

/// Several stops are spread over the list: each is at its slot, unless all cells of the
/// list are taken.
pub proof fn law_several_stops_are_spread(sorted: Seq<usize>, n: nat, jitter: nat, k: int)
    requires
        n != 1,
    ensures
        n >= sorted.len() ==> even_picks(sorted, n, jitter) == sorted,
        n < sorted.len() ==> even_picks(sorted, n, jitter).len() == n,
        n < sorted.len() && 0 <= k < n ==> even_picks(sorted, n, jitter)[k] == sorted[slot(
            k as nat,
            n,
            sorted.len(),
        ) as int],
{
}

/// A place is drawn for a single stop out of three cells or more, and only then.
pub proof fn law_a_draw_is_made_for_a_single_stop(n: nat, len: nat)
    ensures
        jitters(1, len + 3),
        !jitters(1, 2) && !jitters(1, 1) && !jitters(1, 0),
        n != 1 ==> !jitters(n, len),
{
}

} // verus!
