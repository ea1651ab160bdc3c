//! How the cells of a stage are picked, told by the arrivals of the sources.

use super::{indices, merge, pool, Candidates, Cover, Crossing, Route};
use crate::generation::ordering::{key_in, law_sorting_keeps_ties, lemma_sort_by, sort_by};
use crate::generation::picking::{free, law_picks_fill_what_is_free, picked};
use crate::generation::reach::Arrival;
use crate::sequences::lemma_push_contains;
use vstd::prelude::*;

verus! {

/// One of the arrivals of source `j` is at `c`.
pub open spec fn arrives(reach: Seq<Seq<Arrival>>, j: int, c: usize) -> bool {
    exists|l: int| 0 <= l < reach[j].len() && (#[trigger] reach[j][l]).0 == c
}

/// The sources that are not covered and have an arrival at `c`.
pub open spec fn lacking(reach: Seq<Seq<Arrival>>, covered: Seq<bool>, c: usize) -> Set<int> {
    Set::new(|j: int| 0 <= j < reach.len() && !covered[j] && arrives(reach, j, c))
}

/// One of the cells is at an arrival of source `j`.
pub open spec fn served(reach: Seq<Seq<Arrival>>, cells: Seq<usize>, j: int) -> bool {
    exists|m: int| 0 <= m < cells.len() && arrives(reach, j, #[trigger] cells[m])
}

/// Which sources some cells serve.
pub open spec fn served_by(reach: Seq<Seq<Arrival>>, cells: Seq<usize>) -> Seq<bool> {
    Seq::new(reach.len(), |j: int| served(reach, cells, j))
}

/// How far the length of a corridor is from the one wanted, if any is.
pub open spec fn off(wanted: Option<Seq<usize>>, i: int, len: nat) -> int {
    match wanted {
        None => 0,
        Some(lengths) => if len >= lengths[i] {
            len - lengths[i]
        } else {
            lengths[i] - len
        },
    }
}

impl Crossing {
    /// Arrival `k` of source `i` is as good as arrival `other`. It serves more sources
    /// that lack a successor. Or as many, and its corridor is nearer to the wanted
    /// length. Or as near, or both are far off, and the stage after is near its cell
    /// and not the other. Or neither is ahead in any of this, and it comes first.
    pub open spec fn as_good(self, covered: Seq<bool>, i: int, k: int, other: int) -> bool {
        let (mine, yours) = (self.reach[i][k], self.reach[i][other]);
        let more = lacking(self.reach, covered, mine.0).len();
        let less = lacking(self.reach, covered, yours.0).len();
        let near = off(self.wanted, i, mine.1.len());
        let far = off(self.wanted, i, yours.1.len());
        ||| more > less
        ||| more == less && near < far && near < 16
        ||| more == less && (near == far || (near >= 16 && far >= 16)) && self.forward.contains(
            mine.0,
        ) && !self.forward.contains(yours.0)
        ||| more == less && (near == far || (near >= 16 && far >= 16)) && self.forward.contains(
            mine.0,
        ) == self.forward.contains(yours.0) && k <= other
    }

    /// The number of sources that would be served is the size of the set of those that
    /// lack a successor and have an arrival there.
    proof fn lemma_coverage(self, covered: Seq<bool>, c: usize, upto: nat)
        requires
            upto <= self.reach.len(),
        ensures
            Set::new(
                |j: int| 0 <= j < upto && !covered[j] && arrives(self.reach, j, c),
            ).finite(),
            Set::new(|j: int| 0 <= j < upto && !covered[j] && arrives(self.reach, j, c)).len()
                == self.coverage(covered, c, upto),
        decreases upto,
    {
        let now = Set::new(|j: int| 0 <= j < upto && !covered[j] && arrives(self.reach, j, c));
        if upto == 0 {
            assert(now =~= Set::<int>::empty());
        } else {
            let n = (upto - 1) as nat;
            let before = Set::new(|j: int| 0 <= j < n && !covered[j] && arrives(self.reach, j, c));
            self.lemma_coverage(covered, c, n);
            assert(self.reaches(n as int, c) == arrives(self.reach, n as int, c));
            if !covered[n as int] && arrives(self.reach, n as int, c) {
                assert(now =~= before.insert(n as int));
            } else {
                assert(now =~= before);
            }
        }
    }

    proof fn lemma_lacking(self, covered: Seq<bool>, c: usize)
        ensures
            lacking(self.reach, covered, c).finite(),
            lacking(self.reach, covered, c).len() == self.coverage(
                covered,
                c,
                self.reach.len(),
            ),
    {
        self.lemma_coverage(covered, c, self.reach.len());
        assert(lacking(self.reach, covered, c) =~= Set::new(
            |j: int| 0 <= j < self.reach.len() && !covered[j] && arrives(self.reach, j, c),
        ));
    }

    /// What is picked for source `i` serves the most. Where arrival `k` is picked, no
    /// arrival at a cell that is not chosen yet has more sources which lack a
    /// successor and arrive there too: the set of these sources is no larger.
    pub proof fn law_a_pick_serves_the_most(self, cover: Cover, i: int, k: int, other: int)
        requires
            self.best(cover, i, self.reach[i].len()) == Some(k),
            0 <= other < self.reach[i].len(),
            !cover.chosen.contains(self.reach[i][other].0),
        ensures
            lacking(self.reach, cover.covered, self.reach[i][other].0).len() <= lacking(
                self.reach,
                cover.covered,
                self.reach[i][k].0,
            ).len(),
            !cover.chosen.contains(self.reach[i][k].0),
            self.as_good(cover.covered, i, k, other),
    {
        self.lemma_lacking(cover.covered, self.reach[i][k].0);
        self.lemma_lacking(cover.covered, self.reach[i][other].0);
        self.lemma_best_is_highest(cover, i, self.reach[i].len());
        self.lemma_best_is_first(cover, i, self.reach[i].len());
        assert(self.score(cover.covered, i, self.reach[i][other]) <= self.score(
            cover.covered,
            i,
            self.reach[i][k],
        ));
        if self.score(cover.covered, i, self.reach[i][other]) == self.score(
            cover.covered,
            i,
            self.reach[i][k],
        ) {
            assert(k <= other);
        }
    }

    proof fn lemma_best_is_first(self, cover: Cover, i: int, upto: nat)
        ensures
            self.best(cover, i, upto) matches Some(k) ==> forall|j: int|
                0 <= j < k && !cover.chosen.contains((#[trigger] self.reach[i][j]).0)
                    ==> self.score(cover.covered, i, self.reach[i][j]) < self.score(
                    cover.covered,
                    i,
                    self.reach[i][k],
                ),
        decreases upto,
    {
        if upto > 0 {
            self.lemma_best_is_first(cover, i, (upto - 1) as nat);
            self.lemma_best_is_highest(cover, i, (upto - 1) as nat);
        }
    }

    /// The picks serve the sources that count as covered, and no others.
    proof fn lemma_covered_is_served(self, sources: Seq<usize>)
        requires
            forall|j: int| 0 <= j < sources.len() ==> (#[trigger] sources[j]) < self.reach.len(),
        ensures
            self.serve_all(sources) matches Ok(cover) ==> cover.covered == served_by(
                self.reach,
                cover.chosen,
            ) && cover.chosen.len() <= sources.len(),
        decreases sources.len(),
    {
        if sources.len() == 0 {
            assert(self.uncovered().covered =~= served_by(self.reach, Seq::empty()));
        } else {
            let less = sources.drop_last();
            assert forall|j: int| 0 <= j < less.len() implies (#[trigger] less[j])
                < self.reach.len() by {
                assert(less[j] == sources[j]);
            }
            self.lemma_covered_is_served(less);
            if let Ok(before) = self.serve_all(less) {
                let i = sources.last();
                assert(i == sources[sources.len() - 1]);
                if let Ok(now) = self.serve(before, i) {
                    if !before.covered[i as int] {
                        let c = now.chosen.last();
                        assert(now.chosen =~= before.chosen.push(c));
                        assert forall|j: int| 0 <= j < self.reach.len() implies now.covered[j]
                            == #[trigger] served(self.reach, now.chosen, j) by {
                            assert(self.reaches(j, c) == arrives(self.reach, j, c));
                            assert(before.covered[j] == served(self.reach, before.chosen, j));
                            if served(self.reach, before.chosen, j) {
                                let m = choose|m: int|
                                    0 <= m < before.chosen.len() && arrives(
                                        self.reach,
                                        j,
                                        #[trigger] before.chosen[m],
                                    );
                                assert(now.chosen[m] == before.chosen[m]);
                            }
                            if served(self.reach, now.chosen, j) {
                                let m = choose|m: int|
                                    0 <= m < now.chosen.len() && arrives(
                                        self.reach,
                                        j,
                                        #[trigger] now.chosen[m],
                                    );
                                if m < before.chosen.len() {
                                    assert(now.chosen[m] == before.chosen[m]);
                                }
                            }
                            if arrives(self.reach, j, c) {
                                assert(now.chosen[before.chosen.len() as int] == c);
                            }
                        }
                        assert(now.covered =~= served_by(self.reach, now.chosen));
                    }
                }
            }
        }
    }

    /// Pick `m` was made for the source at place `a`, as the best there was.
    spec fn made_for(self, sources: Seq<usize>, chosen: Seq<usize>, m: int, a: int) -> bool {
        let i = sources[a] as int;
        &&& 0 <= a < sources.len()
        &&& !served(self.reach, chosen.take(m), i)
        &&& forall|b: int|
            0 <= b < a ==> served(self.reach, chosen.take(m), #[trigger] sources[b] as int)
        &&& exists|k: int|
            0 <= k < self.reach[i].len() && (#[trigger] self.reach[i][k]).0 == chosen[m]
                && forall|other: int|
                0 <= other < self.reach[i].len() && !chosen.take(m).contains(
                    (#[trigger] self.reach[i][other]).0,
                ) ==> self.as_good(served_by(self.reach, chosen.take(m)), i, k, other)
    }

    proof fn lemma_made_for(self, sources: Seq<usize>, m: int)
        requires
            forall|j: int| 0 <= j < sources.len() ==> (#[trigger] sources[j]) < self.reach.len(),
            self.serve_all(sources) is Ok,
            0 <= m < self.serve_all(sources)->Ok_0.chosen.len(),
        ensures
            exists|a: int| #[trigger]
                self.made_for(sources, self.serve_all(sources)->Ok_0.chosen, m, a),
        decreases sources.len(),
    {
        let less = sources.drop_last();
        assert forall|j: int| 0 <= j < less.len() implies (#[trigger] less[j])
            < self.reach.len() by {
            assert(less[j] == sources[j]);
        }
        let before = self.serve_all(less)->Ok_0;
        let now = self.serve_all(sources)->Ok_0;
        if m < before.chosen.len() {
            self.lemma_made_for(less, m);
            let a = choose|a: int| #[trigger] self.made_for(less, before.chosen, m, a);
            assert(now.chosen.take(m) =~= before.chosen.take(m));
            assert(now.chosen[m] == before.chosen[m]);
            assert(less[a] == sources[a]);
            assert forall|b: int| 0 <= b < a implies served(
                self.reach,
                now.chosen.take(m),
                #[trigger] sources[b] as int,
            ) by {
                assert(less[b] == sources[b]);
            }
            assert(self.made_for(sources, now.chosen, m, a));
        } else {
            let a = sources.len() - 1;
            let i = sources[a] as int;
            self.lemma_covered_is_served(less);
            self.lemma_serve_all(less);
            assert(now.chosen.take(m) =~= before.chosen);
            let k = self.best(before, i, self.reach[i].len())->Some_0;
            self.lemma_best(before, i, self.reach[i].len());
            assert(now.chosen[m] == self.reach[i][k].0);
            assert forall|other: int|
                0 <= other < self.reach[i].len() && !before.chosen.contains(
                    (#[trigger] self.reach[i][other]).0,
                ) implies self.as_good(served_by(self.reach, before.chosen), i, k, other) by {
                self.law_a_pick_serves_the_most(before, i, k, other);
            }
            assert forall|b: int| 0 <= b < a implies served(
                self.reach,
                now.chosen.take(m),
                #[trigger] sources[b] as int,
            ) by {
                assert(less[b] == sources[b]);
                assert(before.covered[less[b] as int]);
            }
            assert(self.made_for(sources, now.chosen, m, a));
        }
    }

    /// The order of the sources names each once, those with the fewest arrivals first,
    /// and of two with as many the one that is listed first.
    pub proof fn law_sources_with_few_arrivals_come_first(self, a: int, b: int)
        requires
            self.reach.len() <= usize::MAX,
            0 <= a < b < self.reach.len(),
        ensures
            self.order().len() == self.reach.len(),
            self.order().no_duplicates(),
            forall|i: int| 0 <= i < self.reach.len() ==> #[trigger] self.order().contains(i as usize),
            self.order()[a] < self.reach.len(),
            self.order()[b] < self.reach.len(),
            self.reach[self.order()[a] as int].len() < self.reach[self.order()[b] as int].len() || (
            self.reach[self.order()[a] as int].len() == self.reach[self.order()[b] as int].len()
                && self.order()[a] < self.order()[b]),
    {
        self.lemma_order_names_all();
        self.lemma_order();
        let key = |i: usize| self.reach[i as int].len() as int;
        let ids = indices(self.reach.len());
        let order = self.order();
        lemma_sort_by(ids, key);
        assert(key(order[a]) <= key(order[b]));
        assert(order[a] != order[b]);
        if key(order[a]) == key(order[b]) && order[b] < order[a] {
            let (p, q) = law_sorting_keeps_ties(ids, key, order[b] as int, order[a] as int);
            assert(order[p] == ids[order[b] as int]);
            assert(order[q] == ids[order[a] as int]);
            assert(p == b && q == a);
        }
    }

    proof fn lemma_order_names_all(self)
        requires
            self.reach.len() <= usize::MAX,
        ensures
            self.order().len() == self.reach.len(),
            self.order().no_duplicates(),
            forall|i: int| 0 <= i < self.reach.len() ==> #[trigger] self.order().contains(i as usize),
    {
        let ids = indices(self.reach.len());
        lemma_sort_by(ids, |i: usize| self.reach[i as int].len() as int);
        assert forall|i: int, j: int|
            0 <= i < ids.len() && 0 <= j < ids.len() && i != j implies ids[i] != ids[j] by {
            assert(ids[i] == i as usize && ids[j] == j as usize);
        }
        assert forall|i: int| 0 <= i < self.reach.len() implies #[trigger] self.order().contains(
            i as usize,
        ) by {
            assert(ids[i] == i as usize);
            assert(ids.contains(i as usize));
        }
    }

    /// How each pick comes about. It is made for a source that no pick before it
    /// serves; every such source has more arrivals, or as many and comes later. It is
    /// one of the arrivals of that source, and as good as any other at a cell that is
    /// not picked yet.
    pub proof fn law_each_pick_is_needed_and_best(self, m: int)
        requires
            self.reach.len() <= usize::MAX,
            self.serve_all(self.order()) is Ok,
            0 <= m < self.serve_all(self.order())->Ok_0.chosen.len(),
        ensures
            ({
                let chosen = self.serve_all(self.order())->Ok_0.chosen;
                let before = chosen.take(m);
                exists|i: int, k: int|
                    0 <= i < self.reach.len() && 0 <= k < self.reach[i].len() && !served(
                        self.reach,
                        before,
                        i,
                    ) && (#[trigger] self.reach[i][k]).0 == chosen[m] && (forall|j: int|
                        0 <= j < self.reach.len() && j != i && !#[trigger] served(
                            self.reach,
                            before,
                            j,
                        ) ==> self.reach[i].len() < self.reach[j].len() || (self.reach[i].len()
                            == self.reach[j].len() && i < j)) && (forall|other: int|
                        0 <= other < self.reach[i].len() && !before.contains(
                            (#[trigger] self.reach[i][other]).0,
                        ) ==> self.as_good(served_by(self.reach, before), i, k, other))
            }),
    {
        let order = self.order();
        self.lemma_order();
        self.lemma_order_names_all();
        self.lemma_made_for(order, m);
        let chosen = self.serve_all(order)->Ok_0.chosen;
        let before = chosen.take(m);
        let a = choose|a: int| #[trigger] self.made_for(order, chosen, m, a);
        let i = order[a] as int;
        let k = choose|k: int|
            0 <= k < self.reach[i].len() && (#[trigger] self.reach[i][k]).0 == chosen[m] && forall|
                other: int,
            |
                0 <= other < self.reach[i].len() && !before.contains(
                    (#[trigger] self.reach[i][other]).0,
                ) ==> self.as_good(served_by(self.reach, before), i, k, other);
        assert forall|j: int|
            0 <= j < self.reach.len() && j != i && !#[trigger] served(
                self.reach,
                before,
                j,
            ) implies self.reach[i].len() < self.reach[j].len() || (self.reach[i].len()
            == self.reach[j].len() && i < j) by {
            assert(order.contains(j as usize));
            let b = choose|b: int| 0 <= b < order.len() && order[b] == j as usize;
            assert(b > a) by {
                if b < a {
                    assert(served(self.reach, before, order[b] as int));
                }
            }
            self.law_sources_with_few_arrivals_come_first(a, b);
        }
        assert(self.reach[i][k].0 == chosen[m]);
    }

    /// Every source is served by the picks, if each has an arrival; and there are no
    /// more picks than sources.
    pub proof fn law_sources_with_arrivals_are_served(self)
        requires
            self.reach.len() <= usize::MAX,
        ensures
            self.serve_all(self.order()) is Ok <==> forall|i: int|
                0 <= i < self.reach.len() ==> (#[trigger] self.reach[i]).len() > 0,
            self.serve_all(self.order()) matches Ok(cover) ==> {
                &&& cover.chosen.len() <= self.reach.len()
                &&& cover.chosen.no_duplicates()
                &&& forall|i: int|
                    0 <= i < self.reach.len() ==> #[trigger] served(self.reach, cover.chosen, i)
            },
            self.serve_all(self.order()) matches Err(i) ==> i < self.reach.len()
                && self.reach[i as int].len() == 0,
    {
        let order = self.order();
        self.lemma_order();
        self.lemma_order_names_all();
        self.lemma_serve_all(order);
        self.lemma_covered_is_served(order);
        self.lemma_serve_errs(order);
        if let Ok(cover) = self.serve_all(order) {
            assert forall|i: int| 0 <= i < self.reach.len() implies #[trigger] served(
                self.reach,
                cover.chosen,
                i,
            ) by {
                assert(order.contains(i as usize));
                let a = choose|a: int| 0 <= a < order.len() && order[a] == i as usize;
                assert(cover.covered[order[a] as int]);
            }
            assert forall|i: int| 0 <= i < self.reach.len() implies (
            #[trigger] self.reach[i]).len() > 0 by {
                assert(served(self.reach, cover.chosen, i));
            }
        }
    }

    /// Serving fails only at a source without arrivals.
    proof fn lemma_serve_errs(self, sources: Seq<usize>)
        requires
            forall|j: int| 0 <= j < sources.len() ==> (#[trigger] sources[j]) < self.reach.len(),
        ensures
            self.serve_all(sources) matches Err(i) ==> i < self.reach.len()
                && self.reach[i as int].len() == 0,
        decreases sources.len(),
    {
        if sources.len() > 0 {
            let less = sources.drop_last();
            assert forall|j: int| 0 <= j < less.len() implies (#[trigger] less[j])
                < self.reach.len() by {
                assert(less[j] == sources[j]);
            }
            self.lemma_serve_errs(less);
            self.lemma_covered_is_served(less);
            if let Ok(before) = self.serve_all(less) {
                let i = sources.last();
                assert(i == sources[sources.len() - 1]);
                if !before.covered[i as int] && self.reach[i as int].len() > 0 {
                    self.lemma_best(before, i as int, self.reach[i as int].len());
                    if self.best(before, i as int, self.reach[i as int].len()) is None {
                        let c = self.reach[i as int][0].0;
                        assert(before.chosen.contains(c));
                        let m = choose|m: int| 0 <= m < before.chosen.len() && before.chosen[m] == c;
                        assert(arrives(self.reach, i as int, before.chosen[m]));
                        assert(served(self.reach, before.chosen, i as int));
                    }
                }
            }
        }
    }

    /// Where a pick fails. Enough cells are within reach but some source has no arrival:
    /// then the first such source is named. Otherwise it is the first source, for want
    /// of cells or of room.
    pub proof fn law_a_pick_fails_at_a_source_without_arrivals(self, want: nat, i: int)
        requires
            self.reach.len() <= usize::MAX,
            want <= usize::MAX,
            0 <= i < self.reach.len(),
            self.reach[i].len() == 0,
            forall|j: int| 0 <= j < i ==> (#[trigger] self.reach[j]).len() > 0,
        ensures
            self.outcome(want) is Err,
            pool(self.reach).len() >= want ==> self.outcome(want) == Err::<
                (Seq<usize>, Seq<Seq<Route>>),
                usize,
            >(i as usize),
            pool(self.reach).len() < want ==> self.outcome(want) == Err::<
                (Seq<usize>, Seq<Seq<Route>>),
                usize,
            >(0),
    {
        let order = self.order();
        self.lemma_order();
        self.lemma_order_names_all();
        assert(order.contains(i as usize));
        let a = choose|a: int| 0 <= a < order.len() && order[a] == i as usize;
        if a > 0 {
            self.law_sources_with_few_arrivals_come_first(0, a);
            assert(self.reach[order[0] as int].len() == 0);
            assert(order[0] < i);
        }
        assert(order[0] == i as usize);
        let one = order.take(1);
        assert(one.drop_last() =~= Seq::<usize>::empty());
        assert(self.serve_all(one.drop_last()) == Ok::<Cover, usize>(self.uncovered()));
        assert(one.last() == i as usize);
        assert(self.best(self.uncovered(), i, 0) is None);
        assert(self.serve_all(one) == Err::<Cover, usize>(i as usize));
        self.lemma_serve_stops(order, 1);
    }

    proof fn lemma_serve_stops(self, sources: Seq<usize>, n: int)
        requires
            0 <= n <= sources.len(),
            self.serve_all(sources.take(n)) is Err,
        ensures
            self.serve_all(sources) == self.serve_all(sources.take(n)),
        decreases sources.len(),
    {
        if n == sources.len() {
            assert(sources.take(n) =~= sources);
        } else {
            assert(sources.drop_last().take(n) =~= sources.take(n));
            self.lemma_serve_stops(sources.drop_last(), n);
        }
    }

    /// The pool is the cells within reach, each once.
    pub proof fn law_the_pool_is_what_is_within_reach(self, c: usize)
        ensures
            pool(self.reach).no_duplicates(),
            pool(self.reach).contains(c) <==> self.within_reach(c),
    {
        self.lemma_pool();
        self.lemma_within_reach(c);
    }

    /// The connections of a source are its arrivals at the cells of the stage, in the
    /// order in which they are listed, each with the place of its cell in the stage.
    pub proof fn law_connections_are_the_arrivals(self, want: nat, i: int)
        requires
            self.outcome(want) is Ok,
            0 <= i < self.reach.len(),
        ensures
            ({
                let (cells, links) = self.outcome(want)->Ok_0;
                links[i] == self.reach[i].filter(|a: Arrival| cells.contains(a.0)).map_values(
                    |a: Arrival| (cells.index_of(a.0) as usize, a.1),
                )
            }),
    {
        let (cells, links) = self.outcome(want)->Ok_0;
        self.lemma_all_links(cells, self.reach.len());
        assert(links[i] == self.links(cells, i));
        self.lemma_routes_filter(cells, i, self.reach[i].len());
        assert(self.reach[i].take(self.reach[i].len() as int) =~= self.reach[i]);
    }

    proof fn lemma_routes_filter(self, cells: Seq<usize>, i: int, upto: nat)
        requires
            upto <= self.reach[i].len(),
        ensures
            self.routes(cells, i, upto) == self.reach[i].take(upto as int).filter(
                |a: Arrival| cells.contains(a.0),
            ).map_values(|a: Arrival| (cells.index_of(a.0) as usize, a.1)),
        decreases upto,
    {
        reveal(Seq::filter);
        let keep = |a: Arrival| cells.contains(a.0);
        let turn = |a: Arrival| (cells.index_of(a.0) as usize, a.1);
        let row = self.reach[i].take(upto as int);
        if upto == 0 {
            assert(row.filter(keep).map_values(turn) =~= Seq::<Route>::empty());
        } else {
            let less = (upto - 1) as nat;
            self.lemma_routes_filter(cells, i, less);
            let before = self.reach[i].take(less as int);
            assert(row.drop_last() =~= before);
            let a = self.reach[i][upto - 1];
            assert(row.last() == a);
            if keep(a) {
                assert(row.filter(keep) =~= before.filter(keep).push(a));
                assert(row.filter(keep).map_values(turn) =~= before.filter(keep).map_values(
                    turn,
                ).push(turn(a)));
            } else {
                assert(row.filter(keep) =~= before.filter(keep));
            }
        }
    }
}

impl<'a> Candidates<'a> {
    /// What candidates are, read off what they are made from: the arrivals of each
    /// source, and as cells near the stage after those with a neighbour in its band,
    /// or all if there is no band.
    pub proof fn law_candidates_are_read_as_they_are(&self, i: int, k: int, c: usize)
        requires
            self.diagram.neighbors@.len() > c,
        ensures
            self@.reach.len() == self.reach@.len(),
            0 <= i < self.reach@.len() && 0 <= k < self.reach@[i]@.len() ==> self@.reach[i].len()
                == self.reach@[i]@.len() && self@.reach[i][k].0 == self.reach@[i]@[k].0
                && self@.reach[i][k].1 == self.reach@[i]@[k].1@,
            self.next is None ==> self@.forward.contains(c),
            self.next matches Some(band) ==> (self@.forward.contains(c) <==> exists|j: int|
                0 <= j < self.diagram.neighbors@[c as int]@.len() && band@.contains(
                    #[trigger] self.diagram.neighbors@[c as int]@[j],
                )),
            self.wanted matches Some(lengths) ==> self@.wanted == Some(lengths@),
            self.wanted is None ==> self@.wanted is None,
            self@.heights == self.heights@,
    {
        let row = self.diagram.neighbors@[c as int]@;
        assert(self.diagram.graph()[c as int] == row);
        if let Some(band) = self.next {
            if self@.forward.contains(c) {
                let j = choose|j: int|
                    0 <= j < self.diagram.graph()[c as int].len() && band@.contains(
                        #[trigger] self.diagram.graph()[c as int][j],
                    );
                assert(band@.contains(row[j]));
            }
            if exists|j: int| 0 <= j < row.len() && band@.contains(#[trigger] row[j]) {
                let j = choose|j: int| 0 <= j < row.len() && band@.contains(#[trigger] row[j]);
                assert(band@.contains(self.diagram.graph()[c as int][j]));
            }
        }
    }
}

impl Crossing {
    /// Some source arrives at `c`.
    pub open spec fn within_reach(self, c: usize) -> bool {
        exists|j: int| 0 <= j < self.reach.len() && #[trigger] arrives(self.reach, j, c)
    }

    proof fn lemma_within_reach(self, c: usize)
        ensures
            self.reachable(c) <==> self.within_reach(c),
    {
        if self.reachable(c) {
            let j = choose|j: int| 0 <= j < self.reach.len() && #[trigger] self.reaches(j, c);
            assert(arrives(self.reach, j, c));
        }
        if self.within_reach(c) {
            let j = choose|j: int| 0 <= j < self.reach.len() && #[trigger] arrives(self.reach, j, c);
            assert(self.reaches(j, c));
        }
    }

    /// What is left over, all of it, is as much as the pool without the picks.
    proof fn lemma_left_over(self, chosen: Seq<usize>)
        requires
            chosen.no_duplicates(),
            forall|k: int| 0 <= k < chosen.len() ==> self.reachable(#[trigger] chosen[k]),
        ensures
            self.spare(chosen, true).len() + self.spare(chosen, false).len() + chosen.len()
                == pool(self.reach).len(),
    {
        self.lemma_pool();
        self.lemma_spare(chosen, true);
        self.lemma_spare(chosen, false);
        let all = pool(self.reach);
        let near = self.spare(chosen, true);
        let far = self.spare(chosen, false);
        all.unique_seq_to_set();
        near.unique_seq_to_set();
        far.unique_seq_to_set();
        chosen.unique_seq_to_set();
        let (n, f, c) = (near.to_set(), far.to_set(), chosen.to_set());
        assert forall|x: usize| #[trigger] all.to_set().contains(x) <==> n.contains(x)
            || f.contains(x) || c.contains(x) by {
            assert(near.contains(x) <==> all.contains(x) && !chosen.contains(x)
                && self.forward.contains(x) == true);
            assert(far.contains(x) <==> all.contains(x) && !chosen.contains(x)
                && self.forward.contains(x) == false);
            if chosen.contains(x) {
                let k = choose|k: int| 0 <= k < chosen.len() && chosen[k] == x;
                assert(self.reachable(chosen[k]));
                assert(all.contains(x));
            }
        }
        assert(n.disjoint(f)) by {
            assert forall|x: usize| n.contains(x) implies !f.contains(x) by {
                assert(near.contains(x));
                if f.contains(x) {
                    assert(far.contains(x));
                }
            }
        }
        assert((n + f).disjoint(c)) by {
            assert forall|x: usize| (n + f).contains(x) implies !c.contains(x) by {
                if n.contains(x) {
                    assert(near.contains(x));
                } else {
                    assert(far.contains(x));
                }
            }
        }
        assert(all.to_set() =~= n + f + c);
        vstd::set_lib::lemma_set_disjoint_lens(n, f);
        vstd::set_lib::lemma_set_disjoint_lens(n + f, c);
    }

    /// When a stage can be picked. If every source has an arrival, the stage has room
    /// for one cell for each source, and as many cells are within reach as the stage
    /// asks for, then it is picked.
    pub proof fn law_a_stage_within_reach_is_picked(self, want: nat, cells: Set<usize>)
        requires
            self.reach.len() <= want,
            want <= usize::MAX,
            forall|i: int| 0 <= i < self.reach.len() ==> (#[trigger] self.reach[i]).len() > 0,
            cells.finite(),
            cells.len() >= want,
            forall|c: usize| #[trigger] cells.contains(c) ==> self.within_reach(c),
        ensures
            self.outcome(want) is Ok,
    {
        self.lemma_pool();
        let all = pool(self.reach);
        all.unique_seq_to_set();
        assert forall|c: usize| #[trigger] cells.contains(c) implies all.to_set().contains(c) by {
            self.lemma_within_reach(c);
            assert(all.contains(c));
        }
        vstd::set_lib::lemma_len_subset(cells, all.to_set());
        self.law_sources_with_arrivals_are_served();
        self.lemma_order();
        self.lemma_serve_all(self.order());
        let cover = self.serve_all(self.order())->Ok_0;
        self.lemma_left_over(cover.chosen);
        self.lemma_filled(cover.chosen, want);
        self.lemma_every_source_is_linked(want);
    }

    /// When a stage can be picked, exactly: every source has an arrival, as many cells are
    /// within reach as the stage asks for, and it asks for no fewer than the sources
    /// need. Where it cannot be, the error names a source without arrivals, or the first
    /// one.
    pub proof fn law_when_a_stage_is_picked(self, want: nat)
        requires
            self.reach.len() <= usize::MAX,
            want <= usize::MAX,
        ensures
            self.outcome(want) is Ok <==> (forall|i: int|
                0 <= i < self.reach.len() ==> (#[trigger] self.reach[i]).len() > 0) && pool(
                self.reach,
            ).len() >= want && self.serve_all(self.order())->Ok_0.chosen.len() <= want,
            self.outcome(want) matches Err(i) ==> i == 0 || (i < self.reach.len()
                && self.reach[i as int].len() == 0),
    {
        self.law_sources_with_arrivals_are_served();
        self.lemma_pool();
        self.lemma_order();
        self.lemma_serve_all(self.order());
        if self.serve_all(self.order()) is Ok {
            let cover = self.serve_all(self.order())->Ok_0;
            self.lemma_left_over(cover.chosen);
            if pool(self.reach).len() >= want && cover.chosen.len() <= want {
                self.lemma_filled(cover.chosen, want);
                self.lemma_every_source_is_linked(want);
            }
        }
    }

    proof fn lemma_every_source_is_linked(self, want: nat)
        requires
            self.reach.len() <= usize::MAX,
            want <= usize::MAX,
            self.picks(want) is Ok,
        ensures
            self.outcome(want) is Ok,
    {
        self.law_sources_with_arrivals_are_served();
        self.lemma_order();
        self.lemma_serve_all(self.order());
        let cover = self.serve_all(self.order())->Ok_0;
        self.lemma_filled(cover.chosen, want);
        let filled = self.filled(cover.chosen, want);
        lemma_sort_by(filled, key_in(self.heights));
        let picks = self.picks(want)->Ok_0;
        self.lemma_all_links(picks, self.reach.len());
        if self.all_links(picks, self.reach.len()) is Err {
            let i = choose|i: int|
                0 <= i < self.reach.len() && #[trigger] self.links(picks, i).len() == 0;
            assert(served(self.reach, cover.chosen, i));
            let m = choose|m: int|
                0 <= m < cover.chosen.len() && arrives(
                    self.reach,
                    i,
                    #[trigger] cover.chosen[m],
                );
            let c = cover.chosen[m];
            let l = choose|l: int| 0 <= l < self.reach[i].len() && (#[trigger] self.reach[i][l]).0 == c;
            assert(cover.chosen.contains(c));
            assert(filled.contains(c));
            assert(picks.contains(c));
            self.lemma_routes(picks, i, self.reach[i].len());
            assert(picks.contains(self.reach[i][l].0));
        }
    }

    /// A stage that is picked holds the picks made for the sources. What fills it up
    /// comes from the cells near the stage after as long as there are any: if it holds
    /// any other cell beyond these picks, it holds all that are within reach and near.
    pub proof fn law_cells_near_the_stage_after_fill_up_first(self, want: nat, far: usize, near: usize)
        requires
            self.reach.len() <= usize::MAX,
            want <= usize::MAX,
            self.outcome(want) is Ok,
        ensures
            ({
                let cells = self.outcome(want)->Ok_0.0;
                let needed = self.serve_all(self.order())->Ok_0.chosen;
                &&& self.serve_all(self.order()) is Ok
                &&& forall|c: usize| #[trigger] needed.contains(c) ==> cells.contains(c)
                &&& cells.contains(far) && !needed.contains(far) && !self.forward.contains(far)
                    && self.forward.contains(near) && self.within_reach(near) ==> cells.contains(
                    near,
                )
            }),
    {
        self.lemma_order();
        self.lemma_serve_all(self.order());
        let needed = self.serve_all(self.order())->Ok_0.chosen;
        let cells = self.outcome(want)->Ok_0.0;
        let filled = self.filled(needed, want);
        self.lemma_filled(needed, want);
        lemma_sort_by(filled, key_in(self.heights));
        if cells.contains(far) && !needed.contains(far) && !self.forward.contains(far)
            && self.forward.contains(near) && self.within_reach(near) && !needed.contains(near) {
            self.lemma_within_reach(near);
            self.lemma_pool();
            self.lemma_spare(needed, true);
            self.lemma_spare(needed, false);
            let close = self.spare(needed, true);
            let rest = self.spare(needed, false);
            let need = (want - needed.len()) as nat;
            let of_near = if close.len() < need {
                close.len()
            } else {
                need
            };
            let of_far = (need - of_near) as nat;
            let mid = picked(close, of_near, of_near, needed);
            assert(close.contains(near));
            assert(filled.contains(far));
            let keep = |c: usize| !needed.contains(c);
            assert forall|j: int| 0 <= j < close.len() implies keep(#[trigger] close[j]) by {
                assert(close.contains(close[j]));
            }
            assert(free(close, needed) == close.len()) by {
                lemma_keep_all(close, keep);
            }
            law_picks_fill_what_is_free(close, of_near, of_near, needed);
            law_picks_fill_what_is_free(rest, of_far, of_far, mid);
            let added = mid.skip(needed.len() as int);
            assert(mid =~= needed + added) by {
                assert(mid.take(needed.len() as int) + added =~= mid);
            }
            if of_far == 0 {
                assert(filled == mid);
                let x = choose|x: int| 0 <= x < mid.len() && mid[x] == far;
                if x < needed.len() {
                    assert(needed[x] == far);
                } else {
                    assert(added[x - needed.len()] == far);
                    assert(added.contains(far));
                    assert(close.contains(far));
                }
                assert(false);
            }
            added.unique_seq_to_set();
            close.unique_seq_to_set();
            assert(added.len() == close.len());
            assert forall|c: usize| #[trigger] added.to_set().contains(c) implies close.to_set().contains(
                c,
            ) by {
                assert(added.contains(c));
            }
            vstd::set_lib::lemma_subset_equality(added.to_set(), close.to_set());
            assert(close.to_set().contains(near));
            assert(added.contains(near));
            let x = choose|x: int| 0 <= x < added.len() && added[x] == near;
            assert(mid[needed.len() + x] == near);
            assert(filled.take(mid.len() as int) == mid);
            assert(filled[needed.len() + x] == filled.take(mid.len() as int)[needed.len() + x]);
            assert(filled.contains(near));
        }
    }
}

/// A filter that keeps everything.
proof fn lemma_keep_all(s: Seq<usize>, keep: spec_fn(usize) -> bool)
    requires
        forall|j: int| 0 <= j < s.len() ==> keep(#[trigger] s[j]),
    ensures
        s.filter(keep) == s,
    decreases s.len(),
{
    reveal(Seq::filter);
    if s.len() > 0 {
        let less = s.drop_last();
        assert forall|j: int| 0 <= j < less.len() implies keep(#[trigger] less[j]) by {
            assert(less[j] == s[j]);
        }
        lemma_keep_all(less, keep);
        assert(keep(s[s.len() - 1]));
        assert(less.push(s.last()) =~= s);
    }
}

impl Crossing {
    /// What is left over for filling up: the cells within reach that are not picked and
    /// are near the stage after, or are not; each once, in the order of their heights.
    pub proof fn law_what_is_left_over_is_within_reach(
        self,
        chosen: Seq<usize>,
        near: bool,
        c: usize,
    )
        ensures
            self.spare(chosen, near).no_duplicates(),
            self.spare(chosen, near).contains(c) <==> self.within_reach(c) && !chosen.contains(c)
                && self.forward.contains(c) == near,
            forall|i: int, j: int|
                0 <= i < j < self.spare(chosen, near).len() ==> self.heights[(
                #[trigger] self.spare(chosen, near)[i]) as int] <= self.heights[(
                #[trigger] self.spare(chosen, near)[j]) as int],
    {
        self.lemma_spare(chosen, near);
        self.lemma_pool();
        self.lemma_within_reach(c);
        let keep = |c: usize| !chosen.contains(c) && self.forward.contains(c) == near;
        lemma_sort_by(pool(self.reach).filter(keep), key_in(self.heights));
        let left = self.spare(chosen, near);
        assert forall|i: int, j: int| 0 <= i < j < left.len() implies self.heights[(
        #[trigger] left[i]) as int] <= self.heights[(#[trigger] left[j]) as int] by {
            let key = key_in(self.heights);
            assert(key(left[i]) <= key(left[j]));
        }
    }

    /// A stage is filled up evenly: as many cells as can be are spread over those near
    /// the stage after, the rest over the others, and all are put in order.
    pub proof fn law_a_stage_is_filled_up_evenly(self, want: nat, of_near: nat, of_far: nat)
        requires
            self.outcome(want) is Ok,
            ({
                let needed = self.serve_all(self.order())->Ok_0.chosen;
                &&& needed.len() + of_near + of_far == want
                &&& of_near <= self.spare(needed, true).len()
                &&& of_far > 0 ==> of_near == self.spare(needed, true).len()
            }),
        ensures
            ({
                let needed = self.serve_all(self.order())->Ok_0.chosen;
                self.outcome(want)->Ok_0.0 == sort_by(
                    picked(
                        self.spare(needed, false),
                        of_far,
                        of_far,
                        picked(self.spare(needed, true), of_near, of_near, needed),
                    ),
                    key_in(self.heights),
                )
            }),
    {
    }
}

/// Some source up to `a` arrives at `c`, and source `a` by its arrival `x` at the latest.
pub open spec fn met_by(reach: Seq<Seq<Arrival>>, a: int, x: int, c: usize) -> bool {
    exists|b: int, y: int|
        0 <= b <= a && 0 <= y < reach[b].len() && (b < a || y <= x) && (
        #[trigger] reach[b][y]).0 == c
}

/// One cell is met before another: by an earlier source, or by an earlier arrival of the
/// same one.
pub open spec fn met_first(reach: Seq<Seq<Arrival>>, c: usize, d: usize) -> bool {
    exists|a: int, x: int|
        0 <= a < reach.len() && 0 <= x < reach[a].len() && (#[trigger] reach[a][x]).0 == c
            && !met_by(reach, a, x, d)
}

/// What holds of the cells of the first `n` sources and of the first `k` arrivals of the
/// next one.
spec fn met_in_order(reach: Seq<Seq<Arrival>>, cells: Seq<usize>, n: int, k: int) -> bool {
    &&& forall|b: int, y: int|
        0 <= b < reach.len() && 0 <= y < reach[b].len() && (b < n || (b == n && y < k))
            ==> cells.contains((#[trigger] reach[b][y]).0)
    &&& forall|i: int|
        0 <= i < cells.len() ==> met_within(reach, #[trigger] cells[i], n, k)
    &&& forall|i: int, j: int|
        0 <= i < j < cells.len() ==> met_first(reach, #[trigger] cells[i], #[trigger] cells[j])
}

spec fn met_within(reach: Seq<Seq<Arrival>>, c: usize, n: int, k: int) -> bool {
    exists|b: int, y: int|
        0 <= b < reach.len() && 0 <= y < reach[b].len() && (b < n || (b == n && y < k)) && (
        #[trigger] reach[b][y]).0 == c
}

proof fn lemma_merge_in_order(reach: Seq<Seq<Arrival>>, n: int, k: int)
    requires
        0 <= n < reach.len(),
        0 <= k <= reach[n].len(),
        met_in_order(reach, pool(reach.take(n)), n, 0),
    ensures
        met_in_order(reach, merge(pool(reach.take(n)), reach[n].take(k)), n, k),
    decreases k,
{
    let start = pool(reach.take(n));
    if k > 0 {
        let m = k - 1;
        lemma_merge_in_order(reach, n, m);
        assert(reach[n].take(k).drop_last() =~= reach[n].take(m));
        let before = merge(start, reach[n].take(m));
        let c = reach[n][m].0;
        assert(reach[n].take(k).last().0 == c);
        let now = merge(start, reach[n].take(k));
        assert(now == if before.contains(c) {
            before
        } else {
            before.push(c)
        });
        assert forall|b: int, y: int|
            0 <= b < reach.len() && 0 <= y < reach[b].len() && (b < n || (b == n && y
                < k)) implies now.contains((#[trigger] reach[b][y]).0) by {
            lemma_push_contains(before, c, reach[b][y].0);
            if b < n || y < m {
                assert(before.contains(reach[b][y].0));
            }
        }
        assert forall|i: int| 0 <= i < now.len() implies met_within(
            reach,
            #[trigger] now[i],
            n,
            k,
        ) by {
            if i < before.len() {
                assert(now[i] == before[i]);
                assert(met_within(reach, before[i], n, m));
                let (b, y) = choose|b: int, y: int|
                    0 <= b < reach.len() && 0 <= y < reach[b].len() && (b < n || (b == n && y < m))
                        && (#[trigger] reach[b][y]).0 == before[i];
                assert(reach[b][y].0 == now[i]);
            } else {
                assert(reach[n][m].0 == now[i]);
            }
        }
        assert forall|i: int, j: int| 0 <= i < j < now.len() implies met_first(
            reach,
            #[trigger] now[i],
            #[trigger] now[j],
        ) by {
            assert(now[i] == before[i]);
            if j < before.len() {
                assert(now[j] == before[j]);
            } else {
                assert(now[j] == c);
                assert(met_within(reach, before[i], n, m));
                let (a, x) = choose|b: int, y: int|
                    0 <= b < reach.len() && 0 <= y < reach[b].len() && (b < n || (b == n && y < m))
                        && (#[trigger] reach[b][y]).0 == before[i];
                assert(!met_by(reach, a, x, c)) by {
                    if met_by(reach, a, x, c) {
                        let (b, y) = choose|b: int, y: int|
                            0 <= b <= a && 0 <= y < reach[b].len() && (b < a || y <= x) && (
                            #[trigger] reach[b][y]).0 == c;
                        assert(before.contains(reach[b][y].0));
                    }
                }
                assert(reach[a][x].0 == now[i]);
            }
        }
    } else {
        assert(reach[n].take(0) =~= Seq::<Arrival>::empty());
    }
}

proof fn lemma_pool_in_order(reach: Seq<Seq<Arrival>>, n: int)
    requires
        0 <= n <= reach.len(),
    ensures
        met_in_order(reach, pool(reach.take(n)), n, 0),
    decreases n,
{
    if n > 0 {
        let m = n - 1;
        lemma_pool_in_order(reach, m);
        let k = reach[m].len() as int;
        lemma_merge_in_order(reach, m, k);
        assert(reach[m].take(k) =~= reach[m]);
        assert(reach.take(n).drop_last() =~= reach.take(m));
        assert(reach.take(n).last() == reach[m]);
        let cells = pool(reach.take(n));
        assert forall|i: int| 0 <= i < cells.len() implies met_within(
            reach,
            #[trigger] cells[i],
            n,
            0,
        ) by {
            assert(met_within(reach, cells[i], m, k));
            let (b, y) = choose|b: int, y: int|
                0 <= b < reach.len() && 0 <= y < reach[b].len() && (b < m || (b == m && y < k)) && (
                #[trigger] reach[b][y]).0 == cells[i];
            assert(reach[b][y].0 == cells[i]);
        }
    }
}

/// The pool lists the cells as they are met: source by source, arrival by arrival.
pub proof fn law_the_pool_lists_cells_as_they_are_met(reach: Seq<Seq<Arrival>>, i: int, j: int)
    requires
        0 <= i < j < pool(reach).len(),
    ensures
        met_first(reach, pool(reach)[i], pool(reach)[j]),
{
    lemma_pool_in_order(reach, reach.len() as int);
    assert(reach.take(reach.len() as int) =~= reach);
}

} // verus!
