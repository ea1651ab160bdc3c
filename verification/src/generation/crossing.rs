//! Picking the cells of one stage, given what the previous stage can reach.

use crate::generation::ordering::{
    insert_by, key_in, lemma_sort_by, sort_by, sort_by_key, sorted_by,
};
use crate::generation::picking::{lemma_picked, pick_into, picked};
use crate::generation::reach::{arrivals, Arrival};
use crate::generation::voronoi::Diagram;
use std::collections::HashSet;
use vstd::prelude::*;

pub mod greedy;

verus! {

/// A connection to the next stage: the index of its target in that stage, and the
/// cells between the two.
pub type Route = (usize, Seq<usize>);

/// The contents of a list of search results.
pub open spec fn arrival_lists(v: Seq<Vec<(usize, Vec<usize>)>>) -> Seq<Seq<Arrival>> {
    v.map_values(|row: Vec<(usize, Vec<usize>)>| arrivals(row@))
}

/// The cells with a neighbour in `next`; all cells if there is no next band.
pub open spec fn ahead(graph: Seq<Seq<usize>>, next: Option<Set<usize>>) -> Set<usize> {
    Set::new(
        |c: usize|
            match next {
                None => true,
                Some(band) => exists|k: int|
                    0 <= k < graph[c as int].len() && band.contains(
                        #[trigger] graph[c as int][k],
                    ),
            },
    )
}

/// `pool` with the targets of `row` that it lacks.
pub open spec fn merge(pool: Seq<usize>, row: Seq<Arrival>) -> Seq<usize>
    decreases row.len(),
{
    if row.len() == 0 {
        pool
    } else {
        let most = merge(pool, row.drop_last());
        if most.contains(row.last().0) {
            most
        } else {
            most.push(row.last().0)
        }
    }
}

/// All targets that some row holds, each once.
pub open spec fn pool(reach: Seq<Seq<Arrival>>) -> Seq<usize>
    decreases reach.len(),
{
    if reach.len() == 0 {
        Seq::empty()
    } else {
        merge(pool(reach.drop_last()), reach.last())
    }
}

/// `0`, `1`, ... up to `n`.
pub open spec fn indices(n: nat) -> Seq<usize> {
    Seq::new(n, |i: int| i as usize)
}

/// What one stage is picked from: what each cell of the previous stage reaches,
/// the cells from which the stage after is near, the corridor length wanted from
/// each cell of the previous stage, and the integers by which cells are ordered.
pub struct Crossing {
    pub reach: Seq<Seq<Arrival>>,
    pub forward: Set<usize>,
    pub wanted: Option<Seq<usize>>,
    pub heights: Seq<i128>,
}

/// The picks made so far, and the sources that one of them serves.
pub struct Cover {
    pub chosen: Seq<usize>,
    pub covered: Seq<bool>,
}

impl Crossing {
    /// Source `i` reaches `c`.
    pub open spec fn reaches(self, i: int, c: usize) -> bool {
        exists|k: int| 0 <= k < self.reach[i].len() && (#[trigger] self.reach[i][k]).0 == c
    }

    /// Some source reaches `c`.
    pub open spec fn reachable(self, c: usize) -> bool {
        exists|i: int| 0 <= i < self.reach.len() && #[trigger] self.reaches(i, c)
    }

    /// How many of the first `upto` sources lack a successor and reach `c`.
    pub open spec fn coverage(self, covered: Seq<bool>, c: usize, upto: nat) -> nat
        decreases upto,
    {
        if upto == 0 {
            0
        } else {
            self.coverage(covered, c, (upto - 1) as nat) + if !covered[upto - 1] && self.reaches(
                upto - 1,
                c,
            ) {
                1nat
            } else {
                0nat
            }
        }
    }

    /// How well a corridor of `len` cells suits source `i`.
    pub open spec fn bonus(self, i: int, len: nat) -> int {
        match self.wanted {
            None => 0,
            Some(wanted) => {
                let delta = if len >= wanted[i] {
                    len - wanted[i]
                } else {
                    wanted[i] - len
                };
                if delta < 16 {
                    16 - delta
                } else {
                    0
                }
            },
        }
    }

    /// The worth of an arrival from source `i`: the sources that it would serve
    /// count most, then the length of the corridor, then the way ahead.
    pub open spec fn score(self, covered: Seq<bool>, i: int, a: Arrival) -> int {
        self.coverage(covered, a.0, self.reach.len()) * 1024 + self.bonus(i, a.1.len()) * 8
            + if self.forward.contains(a.0) {
            1int
        } else {
            0int
        }
    }

    /// The first best of the first `upto` arrivals of source `i` that are not
    /// chosen yet.
    pub open spec fn best(self, cover: Cover, i: int, upto: nat) -> Option<int>
        decreases upto,
    {
        if upto == 0 {
            None
        } else {
            let before = self.best(cover, i, (upto - 1) as nat);
            let a = self.reach[i][upto - 1];
            if cover.chosen.contains(a.0) {
                before
            } else {
                match before {
                    None => Some(upto - 1),
                    Some(k) => if self.score(cover.covered, i, a) > self.score(
                        cover.covered,
                        i,
                        self.reach[i][k],
                    ) {
                        Some(upto - 1)
                    } else {
                        before
                    },
                }
            }
        }
    }

    /// No picks yet.
    pub open spec fn uncovered(self) -> Cover {
        Cover { chosen: Seq::empty(), covered: Seq::new(self.reach.len(), |i: int| false) }
    }

    /// The picks with one for source `i`, if it needs one. Fails with `i` if it
    /// reaches nothing that is left.
    pub open spec fn serve(self, cover: Cover, i: usize) -> Result<Cover, usize> {
        if cover.covered[i as int] {
            Ok(cover)
        } else {
            match self.best(cover, i as int, self.reach[i as int].len()) {
                None => Err(i),
                Some(k) => {
                    let c = self.reach[i as int][k].0;
                    Ok(
                        Cover {
                            chosen: cover.chosen.push(c),
                            covered: Seq::new(
                                self.reach.len(),
                                |j: int| cover.covered[j] || self.reaches(j, c),
                            ),
                        },
                    )
                },
            }
        }
    }

    /// The picks that serve each of `sources` in turn.
    pub open spec fn serve_all(self, sources: Seq<usize>) -> Result<Cover, usize>
        decreases sources.len(),
    {
        if sources.len() == 0 {
            Ok(self.uncovered())
        } else {
            match self.serve_all(sources.drop_last()) {
                Err(i) => Err(i),
                Ok(cover) => self.serve(cover, sources.last()),
            }
        }
    }

    /// The sources, those that reach the fewest cells first.
    pub open spec fn order(self) -> Seq<usize> {
        sort_by(indices(self.reach.len()), |i: usize| self.reach[i as int].len() as int)
    }

    /// The cells of the pool that are not chosen, from which the stage after is
    /// near (or is not), in the order of their heights.
    pub open spec fn spare(self, chosen: Seq<usize>, near: bool) -> Seq<usize> {
        sort_by(
            pool(self.reach).filter(
                |c: usize| !chosen.contains(c) && self.forward.contains(c) == near,
            ),
            key_in(self.heights),
        )
    }

    /// `chosen` filled up to `want` cells, with cells near the stage after as long
    /// as there are any.
    pub open spec fn filled(self, chosen: Seq<usize>, want: nat) -> Seq<usize> {
        let near = self.spare(chosen, true);
        let far = self.spare(chosen, false);
        let need = (want - chosen.len()) as nat;
        let of_near = if near.len() < need {
            near.len()
        } else {
            need
        };
        let of_far = (need - of_near) as nat;
        picked(far, of_far, of_far, picked(near, of_near, of_near, chosen))
    }

    /// The cells picked for the stage, in the order of their heights, or the index
    /// of the source for which none could be.
    pub open spec fn picks(self, want: nat) -> Result<Seq<usize>, usize> {
        if pool(self.reach).len() < want {
            Err(0)
        } else {
            match self.serve_all(self.order()) {
                Err(i) => Err(i),
                Ok(cover) => {
                    if cover.chosen.len() > want {
                        Err(0)
                    } else if self.spare(cover.chosen, true).len() + self.spare(
                        cover.chosen,
                        false,
                    ).len() < want - cover.chosen.len() {
                        Err(0)
                    } else {
                        Ok(sort_by(self.filled(cover.chosen, want), key_in(self.heights)))
                    }
                },
            }
        }
    }

    /// The arrivals among the first `upto` of source `i` whose target is in
    /// `chosen`, as connections.
    pub open spec fn routes(self, chosen: Seq<usize>, i: int, upto: nat) -> Seq<Route>
        decreases upto,
    {
        if upto == 0 {
            Seq::empty()
        } else {
            let before = self.routes(chosen, i, (upto - 1) as nat);
            let a = self.reach[i][upto - 1];
            if chosen.contains(a.0) {
                before.push((chosen.index_of(a.0) as usize, a.1))
            } else {
                before
            }
        }
    }

    /// The connections of source `i`.
    pub open spec fn links(self, chosen: Seq<usize>, i: int) -> Seq<Route> {
        self.routes(chosen, i, self.reach[i].len())
    }

    /// The connections of the first `upto` sources, or the first of these that has
    /// none.
    pub open spec fn all_links(self, chosen: Seq<usize>, upto: nat) -> Result<
        Seq<Seq<Route>>,
        usize,
    >
        decreases upto,
    {
        if upto == 0 {
            Ok(Seq::empty())
        } else {
            match self.all_links(chosen, (upto - 1) as nat) {
                Err(i) => Err(i),
                Ok(before) => {
                    let links = self.links(chosen, upto - 1);
                    if links.len() == 0 {
                        Err((upto - 1) as usize)
                    } else {
                        Ok(before.push(links))
                    }
                },
            }
        }
    }

    /// The cells of the stage and the connections to them, or the index of a
    /// source that cannot be served.
    pub open spec fn outcome(self, want: nat) -> Result<(Seq<usize>, Seq<Seq<Route>>), usize> {
        match self.picks(want) {
            Err(i) => Err(i),
            Ok(chosen) => match self.all_links(chosen, self.reach.len()) {
                Err(i) => Err(i),
                Ok(links) => Ok((chosen, links)),
            },
        }
    }
}

/// What a stage is picked from, as the search left it.
pub struct Candidates<'a> {
    pub diagram: &'a Diagram,
    pub heights: &'a Vec<i128>,
    pub reach: &'a Vec<Vec<(usize, Vec<usize>)>>,
    pub next: Option<&'a HashSet<usize>>,
    pub wanted: Option<&'a Vec<usize>>,
}

impl<'a> View for Candidates<'a> {
    type V = Crossing;

    open spec fn view(&self) -> Crossing {
        Crossing {
            reach: arrival_lists(self.reach@),
            forward: ahead(
                self.diagram.graph(),
                match self.next {
                    None => None,
                    Some(band) => Some(band@),
                },
            ),
            wanted: match self.wanted {
                None => None,
                Some(lengths) => Some(lengths@),
            },
            heights: self.heights@,
        }
    }
}

impl<'a> Candidates<'a> {
    /// Every arrival is at a cell of the diagram, every cell has a height, and
    /// every source has a wanted length where any has.
    pub open spec fn wf(&self) -> bool {
        &&& self.diagram.wf()
        &&& self.heights@.len() == self.diagram.neighbors@.len()
        &&& forall|i: int, k: int|
            0 <= i < self.reach@.len() && 0 <= k < self.reach@[i]@.len() ==> (
            #[trigger] self.reach@[i]@[k]).0 < self.heights@.len()
        &&& self.wanted matches Some(lengths) ==> lengths@.len() >= self.reach@.len()
    }

    /// Whether the stage after this one is beside a cell, or there is none.
    pub fn is_forward(&self, c: usize) -> (r: bool)
        requires
            self.wf(),
            c < self.heights@.len(),
        ensures
            r == self@.forward.contains(c),
    {
        broadcast use vstd::std_specs::hash::group_hash_axioms;

        match self.next {
            None => true,
            Some(band) => {
                let row = &self.diagram.neighbors[c];
                assert(self.diagram.graph()[c as int] == row@);
                let mut k: usize = 0;
                while k < row.len()
                    invariant
                        k <= row@.len(),
                        self.next == Some(band),
                        self.diagram.graph()[c as int] == row@,
                        forall|j: int| 0 <= j < k ==> !band@.contains(#[trigger] row@[j]),
                    decreases row@.len() - k,
                {
                    broadcast use vstd::std_specs::hash::group_hash_axioms;

                    if band.contains(&row[k]) {
                        assert(band@.contains(self.diagram.graph()[c as int][k as int]));
                        return true;
                    }
                    k += 1;
                }
                false
            },
        }
    }

    fn does_reach(&self, i: usize, c: usize) -> (r: bool)
        requires
            i < self.reach@.len(),
        ensures
            r == self@.reaches(i as int, c),
    {
        let row = &self.reach[i];
        assert(self@.reach[i as int] == arrivals(row@));
        let mut k: usize = 0;
        while k < row.len()
            invariant
                k <= row@.len(),
                self@.reach[i as int] == arrivals(row@),
                forall|j: int| 0 <= j < k ==> (#[trigger] self@.reach[i as int][j]).0 != c,
            decreases row@.len() - k,
        {
            assert(self@.reach[i as int][k as int].0 == row@[k as int].0);
            if row[k].0 == c {
                return true;
            }
            k += 1;
        }
        false
    }

    fn count_coverage(&self, covered: &Vec<bool>, c: usize) -> (n: usize)
        requires
            covered@.len() == self.reach@.len(),
        ensures
            n == self@.coverage(covered@, c, self.reach@.len()),
    {
        let mut n: usize = 0;
        let mut i: usize = 0;
        while i < self.reach.len()
            invariant
                covered@.len() == self.reach@.len(),
                i <= self.reach@.len(),
                n <= i,
                n == self@.coverage(covered@, c, i as nat),
            decreases self.reach@.len() - i,
        {
            if !covered[i] && self.does_reach(i, c) {
                n += 1;
            }
            i += 1;
        }
        n
    }

    fn score_of(&self, covered: &Vec<bool>, i: usize, k: usize) -> (score: i128)
        requires
            self.wf(),
            covered@.len() == self.reach@.len(),
            i < self.reach@.len(),
            k < self.reach@[i as int]@.len(),
        ensures
            score == self@.score(covered@, i as int, self@.reach[i as int][k as int]),
    {
        let target = self.reach[i][k].0;
        let len = self.reach[i][k].1.len();
        assert(self@.reach[i as int][k as int] == (
            target,
            self.reach@[i as int]@[k as int].1@,
        ));
        let coverage = self.count_coverage(covered, target);
        let bonus: i128 = match self.wanted {
            None => 0,
            Some(lengths) => {
                let want = lengths[i];
                let delta: usize = if len >= want {
                    len - want
                } else {
                    want - len
                };
                if delta < 16 {
                    16 - delta as i128
                } else {
                    0
                }
            },
        };
        let near: i128 = if self.is_forward(target) {
            1
        } else {
            0
        };
        coverage as i128 * 1024 + bonus * 8 + near
    }

    fn best_of(&self, covered: &Vec<bool>, members: &HashSet<usize>, Ghost(chosen): Ghost<
        Seq<usize>,
    >, i: usize) -> (best: Option<usize>)
        requires
            self.wf(),
            covered@.len() == self.reach@.len(),
            members@ == chosen.to_set(),
            i < self.reach@.len(),
        ensures
            match best {
                None => self@.best(
                    Cover { chosen, covered: covered@ },
                    i as int,
                    self@.reach[i as int].len(),
                ) is None,
                Some(k) => k < self.reach@[i as int]@.len() && self@.best(
                    Cover { chosen, covered: covered@ },
                    i as int,
                    self@.reach[i as int].len(),
                ) == Some(k as int),
            },
    {
        broadcast use vstd::std_specs::hash::group_hash_axioms;

        let ghost cover = Cover { chosen, covered: covered@ };
        let mut best: Option<usize> = None;
        let mut top: i128 = 0;
        let mut k: usize = 0;
        assert(self@.reach[i as int].len() == self.reach@[i as int]@.len());
        while k < self.reach[i].len()
            invariant
                self.wf(),
                covered@.len() == self.reach@.len(),
                members@ == chosen.to_set(),
                i < self.reach@.len(),
                k <= self.reach@[i as int]@.len(),
                cover == (Cover { chosen, covered: covered@ }),
                match best {
                    None => self@.best(cover, i as int, k as nat) is None,
                    Some(b) => {
                        &&& b < k
                        &&& self@.best(cover, i as int, k as nat) == Some(b as int)
                        &&& top == self@.score(covered@, i as int, self@.reach[i as int][b as int])
                    },
                },
            decreases self.reach@[i as int]@.len() - k,
        {
            broadcast use vstd::std_specs::hash::group_hash_axioms;

            let target = self.reach[i][k].0;
            assert(self@.reach[i as int][k as int].0 == target);
            if !members.contains(&target) {
                let score = self.score_of(covered, i, k);
                let better = match best {
                    None => true,
                    Some(_) => score > top,
                };
                if better {
                    best = Some(k);
                    top = score;
                }
            }
            k += 1;
        }
        best
    }

    fn serve_sources(&self, order: &Vec<usize>) -> (r: Result<(Vec<usize>, HashSet<usize>), usize>)
        requires
            self.wf(),
            forall|j: int| 0 <= j < order@.len() ==> (#[trigger] order@[j]) < self.reach@.len(),
        ensures
            match r {
                Err(i) => self@.serve_all(order@) == Err::<Cover, usize>(i),
                Ok((chosen, members)) => {
                    &&& self@.serve_all(order@) is Ok
                    &&& self@.serve_all(order@)->Ok_0.chosen == chosen@
                    &&& members@ == chosen@.to_set()
                },
            },
    {
        let n = self.reach.len();
        let mut chosen: Vec<usize> = Vec::new();
        let mut members: HashSet<usize> = HashSet::new();
        let mut covered: Vec<bool> = Vec::new();
        let mut i: usize = 0;
        while i < n
            invariant
                i <= n,
                covered@ == Seq::new(i as nat, |j: int| false),
            decreases n - i,
        {
            covered.push(false);
            assert(covered@ =~= Seq::new((i + 1) as nat, |j: int| false));
            i += 1;
        }
        assert(members@ =~= chosen@.to_set());
        assert(order@.take(0) =~= Seq::<usize>::empty());
        assert(covered@ =~= self@.uncovered().covered);
        let mut at: usize = 0;
        while at < order.len()
            invariant
                self.wf(),
                n == self.reach@.len(),
                forall|j: int| 0 <= j < order@.len() ==> (#[trigger] order@[j]) < n,
                at <= order@.len(),
                covered@.len() == n,
                members@ == chosen@.to_set(),
                self@.serve_all(order@.take(at as int)) == Ok::<Cover, usize>(
                    Cover { chosen: chosen@, covered: covered@ },
                ),
            decreases order@.len() - at,
        {
            broadcast use vstd::std_specs::hash::group_hash_axioms;

            let pi = order[at];
            let ghost cover = Cover { chosen: chosen@, covered: covered@ };
            assert(order@.take(at + 1).drop_last() =~= order@.take(at as int));
            at += 1;
            if covered[pi] {
                continue ;
            }
            match self.best_of(&covered, &members, Ghost(chosen@), pi) {
                None => {
                    proof {
                        self.lemma_serve_fails(order@, at as int, pi);
                    }
                    return Err(pi);
                },
                Some(k) => {
                    let c = self.reach[pi][k].0;
                    assert(self@.reach[pi as int][k as int].0 == c);
                    proof {
                        chosen@.lemma_push_to_set_commute(c);
                    }
                    chosen.push(c);
                    members.insert(c);
                    let mut j: usize = 0;
                    while j < n
                        invariant
                            self.wf(),
                            n == self.reach@.len(),
                            j <= n,
                            covered@.len() == n,
                            forall|l: int|
                                0 <= l < n ==> #[trigger] covered@[l] == (cover.covered[l] || (l < j
                                    && self@.reaches(l, c))),
                        decreases n - j,
                    {
                        if self.does_reach(j, c) {
                            covered[j] = true;
                        }
                        j += 1;
                    }
                    assert(covered@ =~= Seq::new(
                        self@.reach.len(),
                        |j: int| cover.covered[j] || self@.reaches(j, c),
                    ));
                },
            }
        }
        assert(order@.take(order@.len() as int) =~= order@);
        Ok((chosen, members))
    }

    /// A source that cannot be served ends the round.
    proof fn lemma_serve_fails(&self, order: Seq<usize>, at: int, i: usize)
        requires
            0 <= at <= order.len(),
            self@.serve_all(order.take(at)) == Err::<Cover, usize>(i),
        ensures
            self@.serve_all(order) == Err::<Cover, usize>(i),
        decreases order.len(),
    {
        if at == order.len() {
            assert(order.take(at) =~= order);
        } else {
            assert(order.drop_last().take(at) =~= order.take(at));
            self.lemma_serve_fails(order.drop_last(), at, i);
        }
    }

    fn pool_of(&self) -> (all: Vec<usize>)
        requires
            self.wf(),
        ensures
            all@ == pool(self@.reach),
            forall|j: int| 0 <= j < all@.len() ==> (#[trigger] all@[j]) < self.heights@.len(),
    {
        let mut all: Vec<usize> = Vec::new();
        let mut members: HashSet<usize> = HashSet::new();
        assert(members@ =~= all@.to_set());
        let ghost reach = self@.reach;
        assert(reach.take(0) =~= Seq::<Seq<Arrival>>::empty());
        let mut i: usize = 0;
        while i < self.reach.len()
            invariant
                self.wf(),
                reach == self@.reach,
                i <= reach.len(),
                reach.len() == self.reach@.len(),
                members@ == all@.to_set(),
                all@ == pool(reach.take(i as int)),
                forall|j: int| 0 <= j < all@.len() ==> (#[trigger] all@[j]) < self.heights@.len(),
            decreases reach.len() - i,
        {
            let ghost start = all@;
            let row = &self.reach[i];
            let ghost goals = arrivals(row@);
            assert(reach[i as int] == goals);
            assert(goals.take(0) =~= Seq::<Arrival>::empty());
            let mut k: usize = 0;
            while k < row.len()
                invariant
                    k <= row@.len(),
                    goals == arrivals(row@),
                    members@ == all@.to_set(),
                    all@ == merge(start, goals.take(k as int)),
                    forall|l: int|
                        0 <= l < row@.len() ==> (#[trigger] row@[l]).0 < self.heights@.len(),
                    forall|j: int|
                        0 <= j < all@.len() ==> (#[trigger] all@[j]) < self.heights@.len(),
                decreases row@.len() - k,
            {
                broadcast use vstd::std_specs::hash::group_hash_axioms;

                let target = row[k].0;
                assert(goals.take(k + 1).drop_last() =~= goals.take(k as int));
                assert(goals.take(k + 1).last().0 == target);
                if !members.contains(&target) {
                    proof {
                        all@.lemma_push_to_set_commute(target);
                    }
                    all.push(target);
                    members.insert(target);
                }
                k += 1;
            }
            assert(goals.take(goals.len() as int) =~= goals);
            assert(reach.take(i + 1).drop_last() =~= reach.take(i as int));
            i += 1;
        }
        assert(reach.take(reach.len() as int) =~= reach);
        all
    }

    fn spare_cells(&self, all: &Vec<usize>, members: &HashSet<usize>, Ghost(chosen): Ghost<
        Seq<usize>,
    >, near: bool) -> (out: Vec<usize>)
        requires
            self.wf(),
            all@ == pool(self@.reach),
            forall|j: int| 0 <= j < all@.len() ==> (#[trigger] all@[j]) < self.heights@.len(),
            members@ == chosen.to_set(),
        ensures
            out@ == self@.spare(chosen, near),
            forall|j: int| 0 <= j < out@.len() ==> (#[trigger] out@[j]) < self.heights@.len(),
    {
        let ghost keep = |c: usize| !chosen.contains(c) && self@.forward.contains(c) == near;
        let mut out: Vec<usize> = Vec::new();
        reveal(Seq::filter);
        assert(all@.take(0).filter(keep) =~= Seq::<usize>::empty());
        let mut j: usize = 0;
        while j < all.len()
            invariant
                self.wf(),
                j <= all@.len(),
                keep == (|c: usize| !chosen.contains(c) && self@.forward.contains(c) == near),
                forall|j: int| 0 <= j < all@.len() ==> (#[trigger] all@[j]) < self.heights@.len(),
                members@ == chosen.to_set(),
                out@ == all@.take(j as int).filter(keep),
                forall|j: int| 0 <= j < out@.len() ==> (#[trigger] out@[j]) < self.heights@.len(),
            decreases all@.len() - j,
        {
            broadcast use vstd::std_specs::hash::group_hash_axioms;

            reveal(Seq::filter);
            let c = all[j];
            assert(all@.take(j + 1).drop_last() =~= all@.take(j as int));
            if !members.contains(&c) && self.is_forward(c) == near {
                out.push(c);
            }
            j += 1;
        }
        assert(all@.take(all@.len() as int) =~= all@);
        let sorted = sort_by_key(&out, self.heights);
        proof {
            lemma_sort_by(out@, key_in(self.heights@));
            assert forall|j: int| 0 <= j < sorted@.len() implies (#[trigger] sorted@[j])
                < self.heights@.len() by {
                assert(sorted@.contains(sorted@[j]));
                let i = choose|i: int| 0 <= i < out@.len() && out@[i] == sorted@[j];
                assert(out@[i] < self.heights@.len());
            }
        }
        sorted
    }

    fn fill(&self, all: &Vec<usize>, chosen: &mut Vec<usize>, members: &mut HashSet<usize>, want: usize) -> (r:
        bool)
        requires
            self.wf(),
            all@ == pool(self@.reach),
            forall|j: int| 0 <= j < all@.len() ==> (#[trigger] all@[j]) < self.heights@.len(),
            old(members)@ == old(chosen)@.to_set(),
            old(chosen)@.len() <= want,
        ensures
            r == !(self@.spare(old(chosen)@, true).len() + self@.spare(old(chosen)@, false).len()
                < want - old(chosen)@.len()),
            r ==> final(chosen)@ == self@.filled(old(chosen)@, want as nat),
    {
        let need: usize = want - chosen.len();
        let near = self.spare_cells(all, members, Ghost(chosen@), true);
        let far = self.spare_cells(all, members, Ghost(chosen@), false);
        let of_near: usize = if near.len() < need {
            near.len()
        } else {
            need
        };
        let of_far: usize = need - of_near;
        if far.len() < of_far {
            return false;
        }
        pick_into(&near, of_near, chosen, members);
        pick_into(&far, of_far, chosen, members);
        true
    }

    fn link_up(&self, chosen: &Vec<usize>) -> (r: Result<Vec<Vec<(usize, Vec<usize>)>>, usize>)
        requires
            self.wf(),
            chosen@.no_duplicates(),
        ensures
            match r {
                Err(i) => self@.all_links(chosen@, self@.reach.len()) == Err::<
                    Seq<Seq<Route>>,
                    usize,
                >(i),
                Ok(links) => self@.all_links(chosen@, self@.reach.len()) == Ok::<
                    Seq<Seq<Route>>,
                    usize,
                >(arrival_lists(links@)),
            },
    {
        let mut links: Vec<Vec<(usize, Vec<usize>)>> = Vec::new();
        assert(arrival_lists(links@) =~= Seq::<Seq<Route>>::empty());
        let mut i: usize = 0;
        while i < self.reach.len()
            invariant
                self.wf(),
                chosen@.no_duplicates(),
                i <= self.reach@.len(),
                self@.all_links(chosen@, i as nat) == Ok::<Seq<Seq<Route>>, usize>(
                    arrival_lists(links@),
                ),
            decreases self.reach@.len() - i,
        {
            let row = &self.reach[i];
            assert(self@.reach[i as int] == arrivals(row@));
            let mut routes: Vec<(usize, Vec<usize>)> = Vec::new();
            assert(arrivals(routes@) =~= Seq::<Route>::empty());
            let mut k: usize = 0;
            while k < row.len()
                invariant
                    chosen@.no_duplicates(),
                    self@.reach[i as int] == arrivals(row@),
                    k <= row@.len(),
                    arrivals(routes@) == self@.routes(chosen@, i as int, k as nat),
                decreases row@.len() - k,
            {
                let target = row[k].0;
                assert(self@.reach[i as int][k as int] == (target, row@[k as int].1@));
                let mut at: usize = 0;
                while at < chosen.len() && chosen[at] != target
                    invariant
                        at <= chosen@.len(),
                        forall|j: int| 0 <= j < at ==> #[trigger] chosen@[j] != target,
                    decreases chosen@.len() - at,
                {
                    at += 1;
                }
                if at < chosen.len() {
                    assert(chosen@.contains(target));
                    assert(chosen@.index_of(target) == at);
                    let ghost before = routes@;
                    let path = row[k].1.clone();
                    routes.push((at, path));
                    assert(arrivals(routes@) =~= arrivals(before).push((at, path@)));
                }
                k += 1;
            }
            if routes.len() == 0 {
                proof {
                    assert(self@.links(chosen@, i as int) =~= Seq::<Route>::empty());
                    self.lemma_link_fails(chosen@, (i + 1) as nat, self@.reach.len());
                }
                return Err(i);
            }
            let ghost before = links@;
            links.push(routes);
            assert(arrival_lists(links@) =~= arrival_lists(before).push(arrivals(routes@)));
            i += 1;
        }
        Ok(links)
    }

    /// A source without a connection ends the round.
    proof fn lemma_link_fails(&self, chosen: Seq<usize>, at: nat, upto: nat)
        requires
            at <= upto,
            self@.all_links(chosen, at) is Err,
        ensures
            self@.all_links(chosen, upto) == self@.all_links(chosen, at),
        decreases upto,
    {
        if at < upto {
            self.lemma_link_fails(chosen, at, (upto - 1) as nat);
        }
    }

    /// Picks the cells of the stage and connects the previous stage to them. Fails
    /// with the index of a source that cannot be served, or with zero if the
    /// layout cannot be met.
    pub fn cross(&self, want: usize) -> (r: Result<
        (Vec<usize>, Vec<Vec<(usize, Vec<usize>)>>),
        usize,
    >)
        requires
            self.wf(),
        ensures
            match r {
                Err(i) => self@.outcome(want as nat) == Err::<
                    (Seq<usize>, Seq<Seq<Route>>),
                    usize,
                >(i),
                Ok((chosen, links)) => self@.outcome(want as nat) == Ok::<
                    (Seq<usize>, Seq<Seq<Route>>),
                    usize,
                >((chosen@, arrival_lists(links@))),
            },
    {
        let all = self.pool_of();
        if all.len() < want {
            return Err(0);
        }
        let mut ids: Vec<usize> = Vec::new();
        let mut sizes: Vec<i128> = Vec::new();
        let mut i: usize = 0;
        while i < self.reach.len()
            invariant
                i <= self.reach@.len(),
                ids@ == indices(i as nat),
                sizes@.len() == i,
                forall|j: int|
                    0 <= j < i ==> #[trigger] sizes@[j] == self.reach@[j]@.len(),
            decreases self.reach@.len() - i,
        {
            ids.push(i);
            sizes.push(self.reach[i].len() as i128);
            i += 1;
            assert(ids@ =~= indices(i as nat));
        }
        let order = sort_by_key(&ids, &sizes);
        proof {
            let size = |i: usize| self@.reach[i as int].len() as int;
            lemma_sort_by(ids@, key_in(sizes@));
            lemma_sort_same(ids@, key_in(sizes@), size);
            assert forall|j: int| 0 <= j < order@.len() implies (#[trigger] order@[j])
                < self.reach@.len() by {
                assert(order@.contains(order@[j]));
                let i = choose|i: int| 0 <= i < ids@.len() && ids@[i] == order@[j];
                assert(ids@[i] == i as usize);
            }
            assert(order@ == self@.order());
            self@.lemma_serve_all(order@);
        }
        let (mut chosen, mut members) = match self.serve_sources(&order) {
            Err(i) => {
                return Err(i);
            },
            Ok(cover) => cover,
        };
        if chosen.len() > want {
            return Err(0);
        }
        let ghost base = chosen@;
        if !self.fill(&all, &mut chosen, &mut members, want) {
            return Err(0);
        }
        proof {
            self@.lemma_filled(base, want as nat);
            assert forall|j: int| 0 <= j < chosen@.len() implies (#[trigger] chosen@[j])
                < self.heights@.len() by {
                self@.lemma_pool();
                assert(pool(self@.reach).contains(chosen@[j]));
                let l = choose|l: int| 0 <= l < all@.len() && all@[l] == chosen@[j];
                assert(all@[l] < self.heights@.len());
            }
            lemma_sort_by(chosen@, key_in(self.heights@));
        }
        let picks = sort_by_key(&chosen, self.heights);
        match self.link_up(&picks) {
            Err(i) => Err(i),
            Ok(links) => Ok((picks, links)),
        }
    }
}

impl Crossing {
    /// The pool holds each cell that a source reaches, once.
    proof fn lemma_pool(self)
        ensures
            pool(self.reach).no_duplicates(),
            forall|c: usize| #[trigger]
                pool(self.reach).contains(c) <==> self.reachable(c),
        decreases self.reach.len(),
    {
        let all = pool(self.reach);
        if self.reach.len() > 0 {
            let less = Crossing { reach: self.reach.drop_last(), ..self };
            less.lemma_pool();
            let row = self.reach.last();
            lemma_merge(pool(less.reach), row);
            let n = self.reach.len() - 1;
            assert forall|c: usize| #[trigger] all.contains(c) <==> self.reachable(c) by {
                assert forall|i: int| 0 <= i < n implies less.reaches(i, c) == #[trigger] self.reaches(
                    i,
                    c,
                ) by {
                    assert(less.reach[i] == self.reach[i]);
                    if self.reaches(i, c) {
                        let k = choose|k: int|
                            0 <= k < self.reach[i].len() && (#[trigger] self.reach[i][k]).0 == c;
                        assert(less.reach[i][k].0 == c);
                    }
                    if less.reaches(i, c) {
                        let k = choose|k: int|
                            0 <= k < less.reach[i].len() && (#[trigger] less.reach[i][k]).0 == c;
                        assert(self.reach[i][k].0 == c);
                    }
                }
                if all.contains(c) {
                    if pool(less.reach).contains(c) {
                        let i = choose|i: int|
                            0 <= i < less.reach.len() && #[trigger] less.reaches(i, c);
                        assert(self.reaches(i, c));
                    } else {
                        let k = choose|k: int| 0 <= k < row.len() && (#[trigger] row[k]).0 == c;
                        assert(self.reach[n][k].0 == c);
                        assert(self.reaches(n, c));
                    }
                }
                if self.reachable(c) {
                    let i = choose|i: int|
                        0 <= i < self.reach.len() && #[trigger] self.reaches(i, c);
                    if i < n {
                        assert(less.reaches(i, c));
                        assert(pool(less.reach).contains(c));
                    } else {
                        let k = choose|k: int|
                            0 <= k < self.reach[i].len() && (#[trigger] self.reach[i][k]).0 == c;
                        assert(row[k].0 == c);
                    }
                }
            }
        }
    }

    /// The best arrival is one of those asked about, at a cell that is not chosen.
    proof fn lemma_best(self, cover: Cover, i: int, upto: nat)
        ensures
            self.best(cover, i, upto) matches Some(k) ==> 0 <= k < upto && !cover.chosen.contains(
                self.reach[i][k].0,
            ),
            self.best(cover, i, upto) is None ==> forall|k: int|
                0 <= k < upto ==> cover.chosen.contains((#[trigger] self.reach[i][k]).0),
        decreases upto,
    {
        if upto > 0 {
            self.lemma_best(cover, i, (upto - 1) as nat);
        }
    }

    /// `c` is chosen and source `i` reaches it.
    pub open spec fn serves(self, chosen: Seq<usize>, i: int, c: usize) -> bool {
        chosen.contains(c) && self.reaches(i, c)
    }

    /// The picks are cells that some source reaches, none is made twice, and each
    /// source that counts as served has one of them to go to.
    pub open spec fn cover_ok(self, cover: Cover) -> bool {
        &&& cover.covered.len() == self.reach.len()
        &&& cover.chosen.no_duplicates()
        &&& forall|k: int|
            0 <= k < cover.chosen.len() ==> self.reachable(#[trigger] cover.chosen[k])
        &&& forall|i: int|
            0 <= i < cover.covered.len() && #[trigger] cover.covered[i] ==> exists|c: usize|
                self.serves(cover.chosen, i, c)
    }

    proof fn lemma_serve_all(self, sources: Seq<usize>)
        requires
            forall|j: int| 0 <= j < sources.len() ==> (#[trigger] sources[j]) < self.reach.len(),
        ensures
            self.serve_all(sources) matches Ok(cover) ==> self.cover_ok(cover) && forall|j: int|
                0 <= j < sources.len() ==> cover.covered[#[trigger] sources[j] as int],
        decreases sources.len(),
    {
        if sources.len() > 0 {
            let less = sources.drop_last();
            assert forall|j: int| 0 <= j < less.len() implies (#[trigger] less[j])
                < self.reach.len() by {
                assert(less[j] == sources[j]);
            }
            self.lemma_serve_all(less);
            if let Ok(before) = self.serve_all(less) {
                let i = sources.last();
                assert(i == sources[sources.len() - 1]);
                assert forall|j: int| 0 <= j < less.len() implies before.covered[
                    #[trigger] sources[j] as int
                ] by {
                    assert(less[j] == sources[j]);
                }
                if !before.covered[i as int] {
                    self.lemma_best(before, i as int, self.reach[i as int].len());
                    if let Some(k) = self.best(before, i as int, self.reach[i as int].len()) {
                        let c = self.reach[i as int][k].0;
                        let next = self.serve(before, i)->Ok_0;
                        assert(self.reaches(i as int, c));
                        assert forall|k: int| 0 <= k < next.chosen.len() implies self.reachable(
                            #[trigger] next.chosen[k],
                        ) by {
                            if k < before.chosen.len() {
                                assert(next.chosen[k] == before.chosen[k]);
                            } else {
                                assert(self.reaches(i as int, next.chosen[k]));
                            }
                        }
                        assert(next.chosen[before.chosen.len() as int] == c);
                        assert forall|j: int|
                            0 <= j < next.covered.len() && #[trigger] next.covered[j] implies exists|
                            d: usize,
                        | self.serves(next.chosen, j, d) by {
                            if before.covered[j] {
                                let d = choose|d: usize| self.serves(before.chosen, j, d);
                                let at = choose|at: int|
                                    0 <= at < before.chosen.len() && before.chosen[at] == d;
                                assert(next.chosen[at] == d);
                                assert(self.serves(next.chosen, j, d));
                            } else {
                                assert(self.serves(next.chosen, j, c));
                            }
                        }
                    }
                }
            }
        }
    }

    /// What is spare is in the pool and not chosen, each cell once.
    proof fn lemma_spare(self, chosen: Seq<usize>, near: bool)
        ensures
            self.spare(chosen, near).no_duplicates(),
            forall|c: usize| #[trigger]
                self.spare(chosen, near).contains(c) <==> pool(self.reach).contains(c)
                    && !chosen.contains(c) && self.forward.contains(c) == near,
    {
        self.lemma_pool();
        let keep = |c: usize| !chosen.contains(c) && self.forward.contains(c) == near;
        let kept = pool(self.reach).filter(keep);
        lemma_filter_once(pool(self.reach), keep);
        lemma_sort_by(kept, key_in(self.heights));
    }

    /// Filling up keeps what was chosen, adds cells of the pool, none twice, and as
    /// many as are missing.
    proof fn lemma_filled(self, chosen: Seq<usize>, want: nat)
        requires
            chosen.no_duplicates(),
            chosen.len() <= want,
            forall|k: int|
                0 <= k < chosen.len() ==> self.reachable(#[trigger] chosen[k]),
            self.spare(chosen, true).len() + self.spare(chosen, false).len() >= want
                - chosen.len(),
        ensures
            self.filled(chosen, want).no_duplicates(),
            self.filled(chosen, want).len() == want,
            forall|j: int|
                0 <= j < want ==> pool(self.reach).contains(
                    #[trigger] self.filled(chosen, want)[j],
                ),
            forall|c: usize| #[trigger]
                chosen.contains(c) ==> self.filled(chosen, want).contains(c),
    {
        let near = self.spare(chosen, true);
        let far = self.spare(chosen, false);
        self.lemma_spare(chosen, true);
        self.lemma_spare(chosen, false);
        let need = (want - chosen.len()) as nat;
        let of_near = if near.len() < need {
            near.len()
        } else {
            need
        };
        let of_far = (need - of_near) as nat;
        assert forall|i: int| 0 <= i < near.len() implies !chosen.contains(#[trigger] near[i]) by {
            assert(near.contains(near[i]));
        }
        lemma_picked(near, of_near, of_near, chosen);
        let mid = picked(near, of_near, of_near, chosen);
        assert forall|i: int| 0 <= i < far.len() implies !mid.contains(#[trigger] far[i]) by {
            assert(far.contains(far[i]));
            if mid.contains(far[i]) {
                let j = choose|j: int| 0 <= j < mid.len() && mid[j] == far[i];
                if j < chosen.len() {
                    assert(chosen[j] == far[i]);
                } else {
                    assert(near.contains(mid[j]));
                }
            }
        }
        lemma_picked(far, of_far, of_far, mid);
        let all = self.filled(chosen, want);
        self.lemma_pool();
        assert forall|j: int| 0 <= j < want implies pool(self.reach).contains(
            #[trigger] all[j],
        ) by {
            if j < chosen.len() {
                assert(mid[j] == chosen[j]);
                assert(all[j] == mid[j]);
            } else if j < mid.len() {
                assert(all[j] == mid[j]);
                assert(near.contains(mid[j]));
            } else {
                assert(far.contains(all[j]));
            }
        }
        assert forall|c: usize| #[trigger] chosen.contains(c) implies all.contains(c) by {
            let k = choose|k: int| 0 <= k < chosen.len() && chosen[k] == c;
            assert(mid[k] == chosen[k]);
            assert(all[k] == mid[k]);
        }
    }
}

/// Sorting looks at the keys of the items only.
proof fn lemma_sort_same(items: Seq<usize>, a: spec_fn(usize) -> int, b: spec_fn(usize) -> int)
    requires
        forall|i: int| 0 <= i < items.len() ==> a(#[trigger] items[i]) == b(items[i]),
    ensures
        sort_by(items, a) == sort_by(items, b),
    decreases items.len(),
{
    if items.len() > 0 {
        let less = items.drop_last();
        assert forall|i: int| 0 <= i < less.len() implies a(#[trigger] less[i]) == b(less[i]) by {
            assert(less[i] == items[i]);
        }
        lemma_sort_same(less, a, b);
        lemma_sort_by(less, a);
        let sorted = sort_by(less, a);
        assert forall|i: int| 0 <= i < sorted.len() implies a(#[trigger] sorted[i]) == b(
            sorted[i],
        ) by {
            assert(sorted.contains(sorted[i]));
            let j = choose|j: int| 0 <= j < less.len() && less[j] == sorted[i];
            assert(a(less[j]) == b(less[j]));
        }
        assert(a(items[items.len() - 1]) == b(items[items.len() - 1]));
        lemma_insert_same(sorted, a, b, items.last());
    }
}

proof fn lemma_insert_same(
    items: Seq<usize>,
    a: spec_fn(usize) -> int,
    b: spec_fn(usize) -> int,
    x: usize,
)
    requires
        forall|i: int| 0 <= i < items.len() ==> a(#[trigger] items[i]) == b(items[i]),
        a(x) == b(x),
    ensures
        insert_by(items, a, x) == insert_by(items, b, x),
    decreases items.len(),
{
    if items.len() > 0 {
        assert(a(items[items.len() - 1]) == b(items[items.len() - 1]));
        assert forall|i: int| 0 <= i < items.drop_last().len() implies a(
            #[trigger] items.drop_last()[i],
        ) == b(items.drop_last()[i]) by {
            assert(items.drop_last()[i] == items[i]);
        }
        lemma_insert_same(items.drop_last(), a, b, x);
    }
}

/// Merging a row adds its targets, none twice.
proof fn lemma_merge(pool: Seq<usize>, row: Seq<Arrival>)
    requires
        pool.no_duplicates(),
    ensures
        merge(pool, row).no_duplicates(),
        forall|c: usize| #[trigger]
            merge(pool, row).contains(c) <==> pool.contains(c) || exists|k: int|
                0 <= k < row.len() && (#[trigger] row[k]).0 == c,
    decreases row.len(),
{
    if row.len() > 0 {
        let less = row.drop_last();
        lemma_merge(pool, less);
        let most = merge(pool, less);
        let all = merge(pool, row);
        assert forall|c: usize| #[trigger] all.contains(c) <==> pool.contains(c) || exists|k: int|
            0 <= k < row.len() && (#[trigger] row[k]).0 == c by {
            if all.contains(c) {
                if most.contains(c) {
                    if !pool.contains(c) {
                        let k = choose|k: int| 0 <= k < less.len() && (#[trigger] less[k]).0 == c;
                        assert(row[k].0 == c);
                    }
                } else {
                    let at = choose|at: int| 0 <= at < all.len() && all[at] == c;
                    if at < most.len() {
                        assert(most[at] == c);
                    }
                    assert(row[row.len() - 1].0 == c);
                }
            }
            if most.contains(c) {
                let at = choose|at: int| 0 <= at < most.len() && most[at] == c;
                assert(all[at] == c);
            }
            if exists|k: int| 0 <= k < row.len() && (#[trigger] row[k]).0 == c {
                let k = choose|k: int| 0 <= k < row.len() && (#[trigger] row[k]).0 == c;
                if k < less.len() {
                    assert(less[k].0 == c);
                    assert(most.contains(c));
                } else if !most.contains(c) {
                    assert(all[all.len() - 1] == c);
                }
            }
        }
    }
}

/// A filter keeps each kept item once, if it was there once.
proof fn lemma_filter_once(items: Seq<usize>, keep: spec_fn(usize) -> bool)
    requires
        items.no_duplicates(),
    ensures
        items.filter(keep).no_duplicates(),
        forall|c: usize| #[trigger]
            items.filter(keep).contains(c) <==> items.contains(c) && keep(c),
    decreases items.len(),
{
    reveal(Seq::filter);
    let kept = items.filter(keep);
    if items.len() > 0 {
        let less = items.drop_last();
        lemma_filter_once(less, keep);
        let rest = less.filter(keep);
        assert forall|c: usize| #[trigger] kept.contains(c) <==> items.contains(c) && keep(c) by {
            if rest.contains(c) {
                let i = choose|i: int| 0 <= i < rest.len() && rest[i] == c;
                assert(kept[i] == c);
                let j = choose|j: int| 0 <= j < less.len() && less[j] == c;
                assert(items[j] == c);
            }
            if kept.contains(c) {
                let i = choose|i: int| 0 <= i < kept.len() && kept[i] == c;
                if i < rest.len() {
                    assert(rest[i] == c);
                } else {
                    assert(items[items.len() - 1] == c);
                }
            }
            if items.contains(c) && keep(c) {
                let j = choose|j: int| 0 <= j < items.len() && items[j] == c;
                if j < less.len() {
                    assert(less[j] == c);
                    assert(rest.contains(c));
                } else {
                    assert(kept[kept.len() - 1] == c);
                }
            }
        }
        if keep(items.last()) && rest.contains(items.last()) {
            assert(less.contains(items.last()));
            let j = choose|j: int| 0 <= j < less.len() && less[j] == items.last();
            assert(items[j] == items[items.len() - 1]);
        }
    }
}

impl Crossing {
    /// A connection of source `i` stands for an arrival of it.
    pub open spec fn stands_for(self, i: int, chosen: Seq<usize>, route: Route) -> bool {
        &&& route.0 < chosen.len()
        &&& self.reach[i].contains((chosen[route.0 as int], route.1))
    }

    proof fn lemma_routes(self, chosen: Seq<usize>, i: int, upto: nat)
        requires
            upto <= self.reach[i].len(),
            chosen.len() <= usize::MAX,
        ensures
            forall|k: int|
                0 <= k < self.routes(chosen, i, upto).len() ==> self.stands_for(
                    i,
                    chosen,
                    #[trigger] self.routes(chosen, i, upto)[k],
                ),
            forall|l: int|
                0 <= l < upto && chosen.contains((#[trigger] self.reach[i][l]).0) ==> exists|k: int|

                    0 <= k < self.routes(chosen, i, upto).len() && #[trigger] self.routes(
                        chosen,
                        i,
                        upto,
                    )[k] == (chosen.index_of(self.reach[i][l].0) as usize, self.reach[i][l].1),
        decreases upto,
    {
        if upto > 0 {
            let less = (upto - 1) as nat;
            self.lemma_routes(chosen, i, less);
            let before = self.routes(chosen, i, less);
            let all = self.routes(chosen, i, upto);
            let a = self.reach[i][upto - 1];
            assert forall|k: int| 0 <= k < all.len() implies self.stands_for(
                i,
                chosen,
                #[trigger] all[k],
            ) by {
                if k < before.len() {
                    assert(all[k] == before[k]);
                }
            }
            assert forall|l: int|
                0 <= l < upto && chosen.contains((#[trigger] self.reach[i][l]).0) implies exists|
                k: int,
            |
                0 <= k < all.len() && #[trigger] all[k] == (
                    chosen.index_of(self.reach[i][l].0) as usize,
                    self.reach[i][l].1,
                ) by {
                if l < less {
                    let k = choose|k: int|
                        0 <= k < before.len() && #[trigger] before[k] == (
                            chosen.index_of(self.reach[i][l].0) as usize,
                            self.reach[i][l].1,
                        );
                    assert(all[k] == before[k]);
                } else {
                    assert(all[all.len() - 1] == (chosen.index_of(a.0) as usize, a.1));
                }
            }
        }
    }

    proof fn lemma_all_links(self, chosen: Seq<usize>, upto: nat)
        requires
            upto <= self.reach.len(),
        ensures
            self.all_links(chosen, upto) matches Ok(links) ==> {
                &&& links.len() == upto
                &&& forall|i: int|
                    0 <= i < upto ==> #[trigger] links[i] == self.links(chosen, i)
                        && links[i].len() > 0
            },
            self.all_links(chosen, upto) is Err ==> exists|i: int|
                0 <= i < upto && #[trigger] self.links(chosen, i).len() == 0,
        decreases upto,
    {
        if upto > 0 {
            self.lemma_all_links(chosen, (upto - 1) as nat);
        }
    }

    /// What a stage that was picked is like. It holds as many cells as were asked
    /// for, none of them twice, in the order of their heights. Each source has a
    /// connection, each connection stands for an arrival, each arrival at a picked
    /// cell has its connection, and each picked cell is reached.
    pub proof fn law_outcome(self, want: nat)
        requires
            self.outcome(want) is Ok,
            want <= usize::MAX,
        ensures
            ({
                let (chosen, links) = self.outcome(want)->Ok_0;
                &&& chosen.len() == want
                &&& chosen.no_duplicates()
                &&& sorted_by(chosen, key_in(self.heights))
                &&& links.len() == self.reach.len()
                &&& forall|j: int| 0 <= j < want ==> self.reachable(#[trigger] chosen[j])
                &&& forall|i: int| 0 <= i < links.len() ==> (#[trigger] links[i]).len() > 0
                &&& forall|i: int, k: int|
                    0 <= i < links.len() && 0 <= k < links[i].len() ==> self.stands_for(
                        i,
                        chosen,
                        #[trigger] links[i][k],
                    )
                &&& forall|i: int, l: int|
                    0 <= i < links.len() && 0 <= l < self.reach[i].len() && chosen.contains(
                        (#[trigger] self.reach[i][l]).0,
                    ) ==> links[i].contains(
                        (chosen.index_of(self.reach[i][l].0) as usize, self.reach[i][l].1),
                    )
            }),
    {
        let order = self.order();
        self.lemma_order();
        self.lemma_serve_all(order);
        let cover = self.serve_all(order)->Ok_0;
        self.lemma_filled(cover.chosen, want);
        let all = self.filled(cover.chosen, want);
        lemma_sort_by(all, key_in(self.heights));
        let (chosen, links) = self.outcome(want)->Ok_0;
        self.lemma_all_links(chosen, self.reach.len());
        self.lemma_pool();
        assert forall|j: int| 0 <= j < want implies self.reachable(#[trigger] chosen[j]) by {
            assert(chosen.contains(chosen[j]));
            let k = choose|k: int| 0 <= k < all.len() && all[k] == chosen[j];
            assert(pool(self.reach).contains(all[k]));
        }
        assert forall|i: int, k: int|
            0 <= i < links.len() && 0 <= k < links[i].len() implies self.stands_for(
            i,
            chosen,
            #[trigger] links[i][k],
        ) by {
            self.lemma_routes(chosen, i, self.reach[i].len());
            assert(links[i] == self.links(chosen, i));
        }
        assert forall|i: int, l: int|
            0 <= i < links.len() && 0 <= l < self.reach[i].len() && chosen.contains(
                (#[trigger] self.reach[i][l]).0,
            ) implies links[i].contains(
            (chosen.index_of(self.reach[i][l].0) as usize, self.reach[i][l].1),
        ) by {
            self.lemma_routes(chosen, i, self.reach[i].len());
            assert(links[i] == self.links(chosen, i));
        }
    }

    /// The order in which sources are served names each of them.
    proof fn lemma_order(self)
        ensures
            forall|j: int| 0 <= j < self.order().len() ==> (#[trigger] self.order()[j])
                < self.reach.len(),
    {
        let ids = indices(self.reach.len());
        lemma_sort_by(ids, |i: usize| self.reach[i as int].len() as int);
        assert forall|j: int| 0 <= j < self.order().len() implies (#[trigger] self.order()[j])
            < self.reach.len() by {
            assert(self.order().contains(self.order()[j]));
            let i = choose|i: int| 0 <= i < ids.len() && ids[i] == self.order()[j];
            assert(ids[i] == i as usize);
        }
    }
}

impl Crossing {
    /// The best arrival is one of those that are left, and none of them scores higher.
    proof fn lemma_best_is_highest(self, cover: Cover, i: int, upto: nat)
        ensures
            match self.best(cover, i, upto) {
                Some(k) => {
                    &&& 0 <= k < upto
                    &&& !cover.chosen.contains(self.reach[i][k].0)
                    &&& forall|j: int|
                        0 <= j < upto && !cover.chosen.contains((#[trigger] self.reach[i][j]).0)
                            ==> self.score(cover.covered, i, self.reach[i][j]) <= self.score(
                            cover.covered,
                            i,
                            self.reach[i][k],
                        )
                },
                None => forall|j: int|
                    0 <= j < upto ==> cover.chosen.contains((#[trigger] self.reach[i][j]).0),
            },
        decreases upto,
    {
        if upto > 0 {
            self.lemma_best_is_highest(cover, i, (upto - 1) as nat);
        }
    }

    /// What is picked for a cell of the previous stage serves at least as many cells
    /// that still lack a successor as any other cell in its reach. Among those that
    /// serve as many, its corridor suits the wanted length best. Among those that suit
    /// as well, one from which the stage after is near is preferred.
    pub proof fn law_coverage_comes_first(self, cover: Cover, i: int, other: int)
        requires
            self.best(cover, i, self.reach[i].len()) is Some,
            0 <= other < self.reach[i].len(),
            !cover.chosen.contains(self.reach[i][other].0),
        ensures
            ({
                let k = self.best(cover, i, self.reach[i].len())->Some_0;
                let n = self.reach.len();
                let (mine, yours) = (self.reach[i][k], self.reach[i][other]);
                let cover_mine = self.coverage(cover.covered, mine.0, n);
                let cover_yours = self.coverage(cover.covered, yours.0, n);
                let suit_mine = self.bonus(i, mine.1.len());
                let suit_yours = self.bonus(i, yours.1.len());
                &&& cover_mine >= cover_yours
                &&& cover_mine == cover_yours ==> suit_mine >= suit_yours
                &&& cover_mine == cover_yours && suit_mine == suit_yours && self.forward.contains(
                    yours.0,
                ) ==> self.forward.contains(mine.0)
            }),
    {
        self.lemma_best_is_highest(cover, i, self.reach[i].len());
        let k = self.best(cover, i, self.reach[i].len())->Some_0;
        assert(self.score(cover.covered, i, self.reach[i][other]) <= self.score(
            cover.covered,
            i,
            self.reach[i][k],
        ));
    }
}

} // verus!
