//! Charts a diagram: its cells, the walls between them, and which walls the routes
//! lead through.

use crate::generation::crossing::arrival_lists;
use crate::generation::selection::{route_lists, Chosen, Selection};
use crate::generation::voronoi::{lists, shared_wall, wall, Diagram};
use crate::generation::{routes_of, CellData, EdgeData, Generated, PathRoute};
use crate::geometry::PointBits;
use crate::graph::{chain, in_range, is_walk, linked, ordered};
use crate::sequences::{lemma_filter, lemma_push_contains};
use std::collections::HashSet;
use vstd::prelude::*;

pub mod plain;

verus! {

/// The pairs that cell `i` makes with its neighbours.
pub open spec fn row_pairs(i: usize, row: Seq<usize>) -> Seq<(usize, usize)> {
    row.map_values(|j: usize| ordered(i, j))
}

/// The pairs that all cells make with their neighbours, cell by cell.
pub open spec fn all_pairs(graph: Seq<Seq<usize>>) -> Seq<(usize, usize)>
    decreases graph.len(),
{
    if graph.len() == 0 {
        Seq::empty()
    } else {
        all_pairs(graph.drop_last()) + row_pairs((graph.len() - 1) as usize, graph.last())
    }
}

/// The list without what occurs earlier in it.
pub open spec fn distinct(s: Seq<(usize, usize)>) -> Seq<(usize, usize)>
    decreases s.len(),
{
    if s.len() == 0 {
        s
    } else {
        let before = distinct(s.drop_last());
        if before.contains(s.last()) {
            before
        } else {
            before.push(s.last())
        }
    }
}

/// The pairs of neighbours that share a wall, each once.
pub open spec fn wall_pairs(diagram: &Diagram) -> Seq<(usize, usize)> {
    distinct(all_pairs(diagram.graph())).filter(
        |p: (usize, usize)| wall(diagram, p.0 as int, p.1 as int) is Some,
    )
}

/// `edge` is the wall between its two cells.
pub open spec fn is_wall(diagram: &Diagram, edge: EdgeData) -> bool {
    match wall(diagram, edge.cells.0 as int, edge.cells.1 as int) {
        Some(ends) => edge.wall@ == ends@,
        None => false,
    }
}

/// A set of pairs of cells.
pub struct PairSet {
    rows: Vec<HashSet<usize>>,
}

impl View for PairSet {
    type V = Set<(usize, usize)>;

    closed spec fn view(&self) -> Set<(usize, usize)> {
        Set::new(
            |p: (usize, usize)| p.0 < self.rows@.len() && self.rows@[p.0 as int]@.contains(p.1),
        )
    }
}

impl PairSet {
    /// How many cells the pairs can be made from.
    pub closed spec fn cells(&self) -> nat {
        self.rows@.len()
    }

    /// No pairs of `cells` cells.
    pub fn new(cells: usize) -> (set: Self)
        ensures
            set@ == Set::<(usize, usize)>::empty(),
            set.cells() == cells,
    {
        broadcast use vstd::std_specs::hash::group_hash_axioms;

        let mut rows: Vec<HashSet<usize>> = Vec::new();
        let mut c: usize = 0;
        while c < cells
            invariant
                c <= cells,
                rows@.len() == c,
                forall|a: int| 0 <= a < c ==> (#[trigger] rows@[a])@ == Set::<usize>::empty(),
            decreases cells - c,
        {
            broadcast use vstd::std_specs::hash::group_hash_axioms;

            rows.push(HashSet::new());
            c += 1;
        }
        let set = PairSet { rows };
        assert(set@ =~= Set::<(usize, usize)>::empty());
        set
    }

    /// Adds a pair; false if it is there already.
    pub fn insert(&mut self, a: usize, b: usize) -> (added: bool)
        requires
            a < old(self).cells(),
        ensures
            final(self)@ == old(self)@.insert((a, b)),
            final(self).cells() == old(self).cells(),
            added == !old(self)@.contains((a, b)),
    {
        broadcast use vstd::std_specs::hash::group_hash_axioms;

        assert(self.rows@.len() == self.rows.len());
        let known = self.rows[a].contains(&b);
        self.rows[a].insert(b);
        proof {
            assert forall|p: (usize, usize)| self@.contains(p) <==> old(self)@.insert(
                (a, b),
            ).contains(p) by {
                if p.0 != a && p.0 < self.rows@.len() {
                    assert(self.rows@[p.0 as int] == old(self).rows@[p.0 as int]);
                }
            }
            assert(self@ =~= old(self)@.insert((a, b)));
        }
        !known
    }

    /// Whether a pair is there.
    pub fn contains(&self, a: usize, b: usize) -> (r: bool)
        ensures
            r == self@.contains((a, b)),
    {
        broadcast use vstd::std_specs::hash::group_hash_axioms;

        a < self.rows.len() && self.rows[a].contains(&b)
    }
}

proof fn lemma_distinct(s: Seq<(usize, usize)>)
    ensures
        distinct(s).no_duplicates(),
        forall|p: (usize, usize)| #[trigger] distinct(s).contains(p) <==> s.contains(p),
    decreases s.len(),
{
    if s.len() > 0 {
        let rest = s.drop_last();
        let last = s.last();
        lemma_distinct(rest);
        let before = distinct(rest);
        let now = distinct(s);
        assert forall|p: (usize, usize)| #[trigger] now.contains(p) <==> s.contains(p) by {
            assert(before.contains(p) <==> rest.contains(p));
            lemma_push_contains(before, last, p);
            lemma_push_contains(rest, last, p);
            assert(s =~= rest.push(last));
        }
        assert forall|i: int, j: int|
            0 <= i < now.len() && 0 <= j < now.len() && i != j implies now[i] != now[j] by {
            if i < before.len() {
                assert(before.contains(before[i]));
            }
            if j < before.len() {
                assert(before.contains(before[j]));
            }
        }
    }
}

proof fn lemma_filter_push(
    s: Seq<(usize, usize)>,
    v: (usize, usize),
    keep: spec_fn((usize, usize)) -> bool,
)
    ensures
        s.push(v).filter(keep) == (if keep(v) {
            s.filter(keep).push(v)
        } else {
            s.filter(keep)
        }),
{
    reveal(Seq::filter);
    assert(s.push(v).drop_last() =~= s);
}

/// The walls of a diagram, each once.
pub fn unique_edges(diagram: &Diagram) -> (edges: Vec<EdgeData>)
    requires
        diagram.meshed(),
    ensures
        edges@.map_values(|e: EdgeData| e.cells) == wall_pairs(diagram),
        forall|k: int| 0 <= k < edges@.len() ==> is_wall(diagram, #[trigger] edges@[k]),
{
    let ghost graph = diagram.graph();
    let ghost keep = |p: (usize, usize)| wall(diagram, p.0 as int, p.1 as int) is Some;
    let ghost cells = |e: EdgeData| e.cells;
    let mut edges: Vec<EdgeData> = Vec::new();
    let mut seen = PairSet::new(diagram.neighbors.len());
    let mut i: usize = 0;
    proof {
        reveal(Seq::filter);
        assert(edges@.map_values(cells) =~= distinct(all_pairs(graph.take(0))).filter(keep));
    }
    while i < diagram.neighbors.len()
        invariant
            i <= diagram.neighbors@.len(),
            diagram.meshed(),
            graph == diagram.graph(),
            keep == (|p: (usize, usize)| wall(diagram, p.0 as int, p.1 as int) is Some),
            cells == (|e: EdgeData| e.cells),
            seen.cells() == diagram.neighbors@.len(),
            forall|p: (usize, usize)| #[trigger]
                seen@.contains(p) <==> distinct(all_pairs(graph.take(i as int))).contains(p),
            edges@.map_values(cells) == distinct(all_pairs(graph.take(i as int))).filter(keep),
            forall|k: int| 0 <= k < edges@.len() ==> is_wall(diagram, #[trigger] edges@[k]),
        decreases diagram.neighbors@.len() - i,
    {
        let row = &diagram.neighbors[i];
        let ghost before = all_pairs(graph.take(i as int));
        assert(graph[i as int] == row@);
        let mut k: usize = 0;
        assert(before + row_pairs(i, row@.take(0)) =~= before);
        while k < row.len()
            invariant
                k <= row@.len(),
                i < diagram.neighbors@.len(),
                diagram.meshed(),
                graph == diagram.graph(),
                graph[i as int] == row@,
                keep == (|p: (usize, usize)| wall(diagram, p.0 as int, p.1 as int) is Some),
                cells == (|e: EdgeData| e.cells),
                seen.cells() == diagram.neighbors@.len(),
                forall|p: (usize, usize)| #[trigger]
                    seen@.contains(p) <==> distinct(
                        before + row_pairs(i, row@.take(k as int)),
                    ).contains(p),
                edges@.map_values(cells) == distinct(
                    before + row_pairs(i, row@.take(k as int)),
                ).filter(keep),
                forall|k: int| 0 <= k < edges@.len() ==> is_wall(diagram, #[trigger] edges@[k]),
            decreases row@.len() - k,
        {
            let j = row[k];
            assert(graph[i as int][k as int] < graph.len());
            let (a, b) = if i <= j {
                (i, j)
            } else {
                (j, i)
            };
            let ghost old_list = before + row_pairs(i, row@.take(k as int));
            let ghost new_list = before + row_pairs(i, row@.take(k + 1));
            proof {
                assert(new_list.drop_last() =~= old_list);
                assert(new_list.last() == (a, b));
                lemma_push_contains(distinct(old_list), (a, b), (a, b));
                lemma_filter_push(distinct(old_list), (a, b), keep);
                assert forall|p: (usize, usize)| distinct(old_list).push((a, b)).contains(p)
                    <==> distinct(old_list).contains(p) || p == (a, b) by {
                    lemma_push_contains(distinct(old_list), (a, b), p);
                }
            }
            if seen.insert(a, b) {
                if let Some(ends) = shared_wall(diagram, a, b) {
                    let ghost was = edges@;
                    let edge = EdgeData { cells: (a, b), wall: ends };
                    edges.push(edge);
                    assert(edges@.map_values(cells) =~= was.map_values(cells).push((a, b)));
                }
            }
            assert forall|p: (usize, usize)| #[trigger] seen@.contains(p) <==> distinct(
                new_list,
            ).contains(p) by {}
            k += 1;
        }
        proof {
            assert(row@.take(k as int) =~= row@);
            assert(graph.take(i + 1).drop_last() =~= graph.take(i as int));
            assert(graph.take(i + 1).last() == row@);
        }
        i += 1;
    }
    assert(graph.take(i as int) =~= graph);
    edges
}

/// Step `x` of a walk leads from one cell of the pair to the other.
pub open spec fn steps_over(cells: Seq<usize>, x: int, pair: (usize, usize)) -> bool {
    0 <= x < cells.len() - 1 && pair == ordered(cells[x], cells[x + 1])
}

/// Some step of a walk leads over the pair.
pub open spec fn leads_over(cells: Seq<usize>, pair: (usize, usize)) -> bool {
    exists|x: int| #[trigger] steps_over(cells, x, pair)
}

/// Some route leads over the pair.
pub open spec fn is_walked(chosen: Chosen, pair: (usize, usize)) -> bool {
    exists|s: int, i: int, k: int| #[trigger]
        chosen.has_route(s, i, k) && leads_over(chosen.visits(s, i, k), pair)
}

/// The pairs of cells that routes lead over.
pub open spec fn walked_pairs(chosen: Chosen) -> Set<(usize, usize)> {
    Set::new(|pair: (usize, usize)| is_walked(chosen, pair))
}

/// Adds a pair, the lower index first.
fn insert_step(set: &mut PairSet, a: usize, b: usize)
    requires
        a < old(set).cells(),
        b < old(set).cells(),
    ensures
        final(set)@ == old(set)@.insert(ordered(a, b)),
        final(set).cells() == old(set).cells(),
{
    if a <= b {
        set.insert(a, b);
    } else {
        set.insert(b, a);
    }
}

/// Adds the pairs that one route leads over.
fn insert_route(set: &mut PairSet, from: usize, path: &Vec<usize>, to: usize)
    requires
        from < old(set).cells(),
        to < old(set).cells(),
        forall|x: int| 0 <= x < path@.len() ==> (#[trigger] path@[x]) < old(set).cells(),
    ensures
        final(set).cells() == old(set).cells(),
        forall|p: (usize, usize)| #[trigger]
            final(set)@.contains(p) <==> old(set)@.contains(p) || leads_over(
                chain(from, path@, to),
                p,
            ),
{
    let ghost whole = chain(from, path@, to);
    let ghost first = set@;
    let mut prev = from;
    let mut x: usize = 0;
    while x < path.len()
        invariant
            x <= path@.len(),
            set.cells() == old(set).cells(),
            first == old(set)@,
            from < set.cells(),
            to < set.cells(),
            forall|x: int| 0 <= x < path@.len() ==> (#[trigger] path@[x]) < set.cells(),
            whole == chain(from, path@, to),
            prev == whole[x as int],
            prev < set.cells(),
            forall|p: (usize, usize)| #[trigger]
                set@.contains(p) <==> first.contains(p) || exists|y: int|
                    y < x && #[trigger] steps_over(whole, y, p),
        decreases path@.len() - x,
    {
        let c = path[x];
        let ghost before = set@;
        insert_step(set, prev, c);
        proof {
            assert(whole[x + 1] == c);
            assert forall|p: (usize, usize)| #[trigger] set@.contains(p) <==> first.contains(p)
                || exists|y: int| y < x + 1 && #[trigger] steps_over(whole, y, p) by {
                assert(before.contains(p) <==> first.contains(p) || exists|y: int|
                    y < x && #[trigger] steps_over(whole, y, p));
                if p == ordered(prev, c) {
                    assert(steps_over(whole, x as int, p));
                }
            }
        }
        prev = c;
        x += 1;
    }
    let ghost before = set@;
    insert_step(set, prev, to);
    proof {
        assert(whole[x + 1] == to);
        assert forall|p: (usize, usize)| #[trigger] set@.contains(p) <==> first.contains(p)
            || leads_over(whole, p) by {
            assert(before.contains(p) <==> first.contains(p) || exists|y: int|
                y < x && #[trigger] steps_over(whole, y, p));
            if p == ordered(prev, to) {
                assert(steps_over(whole, x as int, p));
            }
            if leads_over(whole, p) {
                let y = choose|y: int| #[trigger] steps_over(whole, y, p);
                assert(y <= x);
            }
        }
    }
}

/// A route before the given address leads over the pair.
spec fn walked_before(chosen: Chosen, s: int, i: int, k: int, pair: (usize, usize)) -> bool {
    exists|t: int, j: int, l: int|
        #![trigger chosen.has_route(t, j, l)]
        (t < s || (t == s && (j < i || (j == i && l < k)))) && chosen.has_route(t, j, l)
            && leads_over(chosen.visits(t, j, l), pair)
}

/// The cells within the corridors are cells of the diagram.
pub open spec fn within_cells(chosen: Chosen, cells: nat) -> bool {
    forall|s: int, i: int, k: int, x: int|
        #![trigger chosen.route(s, i, k).1[x]]
        chosen.has_route(s, i, k) && 0 <= x < chosen.route(s, i, k).1.len() ==> chosen.route(
            s,
            i,
            k,
        ).1[x] < cells
}

/// The pairs of cells that the routes of a selection lead over.
pub fn path_edge_keys(selection: &Selection, cells: usize) -> (set: PairSet)
    requires
        selection@.addressed(cells as nat),
        within_cells(selection@, cells as nat),
    ensures
        set@ == walked_pairs(selection@),
        set.cells() == cells,
{
    let ghost chosen = selection@;
    let mut set = PairSet::new(cells);
    let mut s: usize = 0;
    while s < selection.connections.len()
        invariant
            chosen == selection@,
            chosen.addressed(cells as nat),
            within_cells(chosen, cells as nat),
            set.cells() == cells,
            s <= selection.connections@.len(),
            forall|p: (usize, usize)| #[trigger]
                set@.contains(p) <==> walked_before(chosen, s as int, 0, 0, p),
        decreases selection.connections@.len() - s,
    {
        let stage = &selection.connections[s];
        let mut i: usize = 0;
        while i < stage.len()
            invariant
                chosen == selection@,
                chosen.addressed(cells as nat),
                within_cells(chosen, cells as nat),
                set.cells() == cells,
                s < selection.connections@.len(),
                stage == selection.connections@[s as int],
                i <= stage@.len(),
                forall|p: (usize, usize)| #[trigger]
                    set@.contains(p) <==> walked_before(chosen, s as int, i as int, 0, p),
            decreases stage@.len() - i,
        {
            let row = &stage[i];
            let mut k: usize = 0;
            while k < row.len()
                invariant
                    chosen == selection@,
                    chosen.addressed(cells as nat),
                    within_cells(chosen, cells as nat),
                    set.cells() == cells,
                    s < selection.connections@.len(),
                    stage == selection.connections@[s as int],
                    i < stage@.len(),
                    row == stage@[i as int],
                    k <= row@.len(),
                    forall|p: (usize, usize)| #[trigger]
                        set@.contains(p) <==> walked_before(
                            chosen,
                            s as int,
                            i as int,
                            k as int,
                            p,
                        ),
                decreases row@.len() - k,
            {
                let ghost before = set@;
                proof {
                    let c = chosen.connections;
                    assert(c[s as int] == arrival_lists(stage@));
                    assert(c[s as int][i as int][k as int] == (
                        row@[k as int].0,
                        row@[k as int].1@,
                    ));
                    assert(chosen.has_route(s as int, i as int, k as int));
                    assert(c[s as int].len() == chosen.levels[s as int].len());
                    assert(selection.levels@.len() == selection.levels.len());
                    assert(chosen.levels[s as int] == selection.levels@[s as int]@);
                    assert(chosen.levels[s + 1] == selection.levels@[s + 1]@);
                    assert forall|x: int| 0 <= x < row@[k as int].1@.len() implies (
                    #[trigger] row@[k as int].1@[x]) < cells by {
                        assert(chosen.route(s as int, i as int, k as int).1[x] < cells);
                    }
                }
                let from = selection.levels[s][i];
                let to = selection.levels[s + 1][row[k].0];
                assert(from == chosen.levels[s as int][i as int]);
                assert(to == chosen.levels[s + 1][row@[k as int].0 as int]);
                insert_route(&mut set, from, &row[k].1, to);
                proof {
                    lemma_walked_next(chosen, s as int, i as int, k as int);
                    assert forall|p: (usize, usize)| #[trigger] set@.contains(p)
                        <==> walked_before(chosen, s as int, i as int, k + 1, p) by {
                        assert(before.contains(p) <==> walked_before(
                            chosen,
                            s as int,
                            i as int,
                            k as int,
                            p,
                        ));
                    }
                }
                k += 1;
            }
            proof {
                assert(chosen.connections[s as int][i as int].len() == row@.len());
                assert forall|p: (usize, usize)| #[trigger] set@.contains(p) <==> walked_before(
                    chosen,
                    s as int,
                    i + 1,
                    0,
                    p,
                ) by {
                    lemma_walked_row(chosen, s as int, i as int, p);
                }
            }
            i += 1;
        }
        proof {
            assert(chosen.connections[s as int].len() == stage@.len());
            assert forall|p: (usize, usize)| #[trigger] set@.contains(p) <==> walked_before(
                chosen,
                s + 1,
                0,
                0,
                p,
            ) by {
                lemma_walked_stage(chosen, s as int, p);
            }
        }
        s += 1;
    }
    proof {
        assert forall|p: (usize, usize)| set@.contains(p) <==> walked_pairs(chosen).contains(p) by {
            assert(set@.contains(p) <==> walked_before(chosen, s as int, 0, 0, p));
            if is_walked(chosen, p) {
                let (t, j, l) = choose|t: int, j: int, l: int| #[trigger]
                    chosen.has_route(t, j, l) && leads_over(chosen.visits(t, j, l), p);
                assert(chosen.has_route(t, j, l));
            }
        }
        assert(set@ =~= walked_pairs(chosen));
    }
    set
}

proof fn lemma_walked_next(chosen: Chosen, s: int, i: int, k: int)
    requires
        chosen.has_route(s, i, k),
    ensures
        forall|p: (usize, usize)| #[trigger]
            walked_before(chosen, s, i, k + 1, p) <==> walked_before(chosen, s, i, k, p)
                || leads_over(chosen.visits(s, i, k), p),
{
    assert forall|p: (usize, usize)| #[trigger] walked_before(chosen, s, i, k + 1, p)
        <==> walked_before(chosen, s, i, k, p) || leads_over(chosen.visits(s, i, k), p) by {
        if walked_before(chosen, s, i, k, p) {
            let (t, j, l) = choose|t: int, j: int, l: int|
                #![trigger chosen.has_route(t, j, l)]
                (t < s || (t == s && (j < i || (j == i && l < k)))) && chosen.has_route(t, j, l)
                    && leads_over(chosen.visits(t, j, l), p);
            assert(chosen.has_route(t, j, l));
        }
        if walked_before(chosen, s, i, k + 1, p) {
            let (t, j, l) = choose|t: int, j: int, l: int|
                #![trigger chosen.has_route(t, j, l)]
                (t < s || (t == s && (j < i || (j == i && l < k + 1)))) && chosen.has_route(
                    t,
                    j,
                    l,
                ) && leads_over(chosen.visits(t, j, l), p);
            assert(chosen.has_route(t, j, l));
        }
    }
}

proof fn lemma_walked_row(chosen: Chosen, s: int, i: int, p: (usize, usize))
    requires
        0 <= s < chosen.connections.len(),
        0 <= i < chosen.connections[s].len(),
    ensures
        walked_before(chosen, s, i + 1, 0, p) <==> walked_before(
            chosen,
            s,
            i,
            chosen.connections[s][i].len() as int,
            p,
        ),
{
    let n = chosen.connections[s][i].len() as int;
    if walked_before(chosen, s, i, n, p) {
        let (t, j, l) = choose|t: int, j: int, l: int|
            #![trigger chosen.has_route(t, j, l)]
            (t < s || (t == s && (j < i || (j == i && l < n)))) && chosen.has_route(t, j, l)
                && leads_over(chosen.visits(t, j, l), p);
        assert(chosen.has_route(t, j, l));
    }
    if walked_before(chosen, s, i + 1, 0, p) {
        let (t, j, l) = choose|t: int, j: int, l: int|
            #![trigger chosen.has_route(t, j, l)]
            (t < s || (t == s && (j < i + 1 || (j == i + 1 && l < 0)))) && chosen.has_route(
                t,
                j,
                l,
            ) && leads_over(chosen.visits(t, j, l), p);
        assert(chosen.has_route(t, j, l));
    }
}

proof fn lemma_walked_stage(chosen: Chosen, s: int, p: (usize, usize))
    requires
        0 <= s < chosen.connections.len(),
    ensures
        walked_before(chosen, s + 1, 0, 0, p) <==> walked_before(
            chosen,
            s,
            chosen.connections[s].len() as int,
            0,
            p,
        ),
{
    let n = chosen.connections[s].len() as int;
    if walked_before(chosen, s, n, 0, p) {
        let (t, j, l) = choose|t: int, j: int, l: int|
            #![trigger chosen.has_route(t, j, l)]
            (t < s || (t == s && (j < n || (j == n && l < 0)))) && chosen.has_route(t, j, l)
                && leads_over(chosen.visits(t, j, l), p);
        assert(chosen.has_route(t, j, l));
    }
    if walked_before(chosen, s + 1, 0, 0, p) {
        let (t, j, l) = choose|t: int, j: int, l: int|
            #![trigger chosen.has_route(t, j, l)]
            (t < s + 1 || (t == s + 1 && (j < 0 || (j == 0 && l < 0)))) && chosen.has_route(
                t,
                j,
                l,
            ) && leads_over(chosen.visits(t, j, l), p);
        assert(chosen.has_route(t, j, l));
    }
}

/// The heights of points, list by list.
pub open spec fn point_heights(points: Seq<Seq<PointBits>>) -> Seq<u32>
    decreases points.len(),
{
    if points.len() == 0 {
        Seq::empty()
    } else {
        point_heights(points.drop_last()) + points.last().map_values(|p: PointBits| p.y)
    }
}

/// The heights of both ends of each wall that a route leads through.
pub open spec fn wall_heights(edges: Seq<EdgeData>, walked: Set<(usize, usize)>) -> Seq<u32>
    decreases edges.len(),
{
    if edges.len() == 0 {
        Seq::empty()
    } else {
        let before = wall_heights(edges.drop_last(), walked);
        let edge = edges.last();
        if walked.contains(edge.cells) {
            before.push(edge.wall@[0].y).push(edge.wall@[1].y)
        } else {
            before
        }
    }
}

/// The heights that a map is centred by: those of its stops, and those of the walls
/// that routes lead through.
pub fn traversable_heights(
    stops: &Vec<Vec<PointBits>>,
    edges: &Vec<EdgeData>,
    walked: &PairSet,
) -> (ys: Vec<u32>)
    ensures
        ys@ == point_heights(lists(stops@)) + wall_heights(edges@, walked@),
{
    let ghost points = lists(stops@);
    let mut ys: Vec<u32> = Vec::new();
    let mut s: usize = 0;
    assert(ys@ =~= point_heights(points.take(0)));
    while s < stops.len()
        invariant
            s <= stops@.len(),
            points == lists(stops@),
            ys@ == point_heights(points.take(s as int)),
        decreases stops@.len() - s,
    {
        let row = &stops[s];
        let ghost before = ys@;
        let ghost height = |p: PointBits| p.y;
        let mut i: usize = 0;
        assert(ys@ =~= before + row@.take(0).map_values(height));
        while i < row.len()
            invariant
                i <= row@.len(),
                height == (|p: PointBits| p.y),
                ys@ == before + row@.take(i as int).map_values(height),
            decreases row@.len() - i,
        {
            ys.push(row[i].y);
            i += 1;
            assert(ys@ =~= before + row@.take(i as int).map_values(height));
        }
        proof {
            assert(row@.take(i as int) =~= row@);
            assert(points.take(s + 1).drop_last() =~= points.take(s as int));
            assert(points.take(s + 1).last() == row@);
            assert(ys@ =~= point_heights(points.take(s + 1)));
        }
        s += 1;
    }
    assert(points.take(s as int) =~= points);
    let ghost first = ys@;
    let mut e: usize = 0;
    assert(ys@ =~= first + wall_heights(edges@.take(0), walked@));
    while e < edges.len()
        invariant
            e <= edges@.len(),
            ys@ == first + wall_heights(edges@.take(e as int), walked@),
        decreases edges@.len() - e,
    {
        let edge = edges[e];
        proof {
            assert(edges@.take(e + 1).drop_last() =~= edges@.take(e as int));
        }
        if walked.contains(edge.cells.0, edge.cells.1) {
            let ghost before = ys@;
            ys.push(edge.wall[0].y);
            ys.push(edge.wall[1].y);
            assert(ys@ =~= first + wall_heights(edges@.take(e + 1), walked@));
        }
        e += 1;
    }
    assert(edges@.take(e as int) =~= edges@);
    ys
}

/// The connections of a selection as routes.
pub fn routes(connections: &Vec<Vec<Vec<(usize, Vec<usize>)>>>) -> (r: Vec<Vec<Vec<PathRoute>>>)
    ensures
        routes_of(r@) == route_lists(connections@),
{
    let mut r: Vec<Vec<Vec<PathRoute>>> = Vec::new();
    let mut s: usize = 0;
    while s < connections.len()
        invariant
            s <= connections@.len(),
            r@.len() == s,
            forall|t: int|
                0 <= t < s ==> #[trigger] routes_of(r@)[t] == route_lists(connections@)[t],
        decreases connections@.len() - s,
    {
        let stage = &connections[s];
        let mut rows: Vec<Vec<PathRoute>> = Vec::new();
        let mut i: usize = 0;
        while i < stage.len()
            invariant
                i <= stage@.len(),
                rows@.len() == i,
                forall|j: int|
                    0 <= j < i ==> (#[trigger] rows@[j])@.map_values(|p: PathRoute| p.route())
                        == arrival_lists(stage@)[j],
            decreases stage@.len() - i,
        {
            let row = &stage[i];
            let mut list: Vec<PathRoute> = Vec::new();
            let mut k: usize = 0;
            while k < row.len()
                invariant
                    k <= row@.len(),
                    list@.len() == k,
                    forall|l: int|
                        0 <= l < k ==> (#[trigger] list@[l]).route() == (row@[l].0, row@[l].1@),
                decreases row@.len() - k,
            {
                let intermediate_cells = row[k].1.clone();
                assert(intermediate_cells@ =~= row@[k as int].1@);
                list.push(PathRoute { target_in_next: row[k].0, intermediate_cells });
                k += 1;
            }
            assert(list@.map_values(|p: PathRoute| p.route()) =~= arrival_lists(stage@)[i as int]);
            rows.push(list);
            i += 1;
        }
        let ghost before = r@;
        r.push(rows);
        proof {
            assert forall|t: int| 0 <= t < s + 1 implies #[trigger] routes_of(r@)[t]
                == route_lists(connections@)[t] by {
                if t < s {
                    assert(routes_of(before)[t] == routes_of(r@)[t]);
                } else {
                    assert(routes_of(r@)[t] =~= route_lists(connections@)[t]);
                }
            }
        }
        s += 1;
    }
    assert(routes_of(r@) =~= route_lists(connections@));
    r
}

/// The cells of a diagram as values.
pub open spec fn charted_cells(diagram: &Diagram, cells: Seq<CellData>) -> bool {
    &&& cells.len() == diagram.sites@.len()
    &&& forall|c: int|
        0 <= c < cells.len() ==> (#[trigger] cells[c]).site == diagram.sites@[c]
            && cells[c].vertices@ == diagram.cell_vertices@[c]@
}

/// The cells of a diagram: their sites and polygons.
pub fn cells(diagram: &Diagram) -> (cells: Vec<CellData>)
    requires
        diagram.meshed(),
    ensures
        charted_cells(diagram, cells@),
{
    let mut cells: Vec<CellData> = Vec::new();
    let mut c: usize = 0;
    assert(lists(diagram.cell_vertices@).len() == diagram.cell_vertices@.len());
    while c < diagram.sites.len()
        invariant
            c <= diagram.sites@.len(),
            diagram.sites@.len() == diagram.cell_vertices@.len(),
            cells@.len() == c,
            forall|d: int|
                0 <= d < c ==> (#[trigger] cells@[d]).site == diagram.sites@[d]
                    && cells@[d].vertices@ == diagram.cell_vertices@[d]@,
        decreases diagram.sites@.len() - c,
    {
        let vertices = diagram.cell_vertices[c].clone();
        assert(vertices@ =~= diagram.cell_vertices@[c as int]@);
        cells.push(CellData { site: diagram.sites[c], vertices });
        c += 1;
    }
    cells
}

proof fn lemma_all_pairs(graph: Seq<Seq<usize>>, a: usize, b: usize)
    requires
        in_range(graph),
        graph.len() <= usize::MAX,
    ensures
        a < graph.len() && linked(graph, a, b) ==> all_pairs(graph).contains(ordered(a, b)),
    decreases graph.len(),
{
    lemma_all_pairs_part(graph, graph.len(), a, b);
    assert(graph.take(graph.len() as int) =~= graph);
}

proof fn lemma_all_pairs_part(graph: Seq<Seq<usize>>, n: nat, a: usize, b: usize)
    requires
        n <= graph.len() <= usize::MAX,
    ensures
        a < n && linked(graph, a, b) ==> all_pairs(graph.take(n as int)).contains(ordered(a, b)),
    decreases n,
{
    if n > 0 && a < n && linked(graph, a, b) {
        let part = graph.take(n as int);
        let rest = graph.take(n - 1);
        assert(part.drop_last() =~= rest);
        let head = all_pairs(rest);
        let tail = row_pairs((n - 1) as usize, graph[n - 1]);
        let all = all_pairs(part);
        assert(all =~= head + tail);
        if a < n - 1 {
            lemma_all_pairs_part(graph, (n - 1) as nat, a, b);
            let i = choose|i: int| 0 <= i < head.len() && head[i] == ordered(a, b);
            assert(all[i] == ordered(a, b));
        } else {
            let row = graph[n - 1];
            let k = choose|k: int| 0 <= k < row.len() && row[k] == b;
            assert(tail[k] == ordered(a, b));
            assert(all[head.len() + k] == ordered(a, b));
        }
    }
}

proof fn lemma_pairs_come_from_links(graph: Seq<Seq<usize>>, i: int)
    requires
        in_range(graph),
        graph.len() <= usize::MAX,
        0 <= i < all_pairs(graph).len(),
    ensures
        exists|a: usize, b: usize|
            a < graph.len() && b < graph.len() && #[trigger] linked(graph, a, b) && all_pairs(
                graph,
            )[i] == ordered(a, b),
{
    assert(graph.take(graph.len() as int) =~= graph);
    lemma_pairs_come_from_links_part(graph, graph.len(), i);
}

proof fn lemma_pairs_come_from_links_part(graph: Seq<Seq<usize>>, n: nat, i: int)
    requires
        in_range(graph),
        n <= graph.len() <= usize::MAX,
        0 <= i < all_pairs(graph.take(n as int)).len(),
    ensures
        exists|a: usize, b: usize|
            a < graph.len() && b < graph.len() && #[trigger] linked(graph, a, b) && all_pairs(
                graph.take(n as int),
            )[i] == ordered(a, b),
    decreases n,
{
    if n > 0 {
        let rest = graph.take(n - 1);
        assert(graph.take(n as int).drop_last() =~= rest);
        let head = all_pairs(rest);
        if i < head.len() {
            lemma_pairs_come_from_links_part(graph, (n - 1) as nat, i);
        } else {
            let row = graph[n - 1];
            let k = i - head.len();
            assert(row[k] < graph.len());
            assert(linked(graph, (n - 1) as usize, row[k]));
        }
    }
}

/// The pairs on the list of walls occur once each, and are pairs of neighbours.
proof fn lemma_wall_pairs(diagram: &Diagram)
    requires
        diagram.meshed(),
        diagram.graph().len() <= usize::MAX,
    ensures
        wall_pairs(diagram).no_duplicates(),
        forall|k: int|
            #![trigger wall_pairs(diagram)[k]]
            0 <= k < wall_pairs(diagram).len() ==> {
                let (a, b) = wall_pairs(diagram)[k];
                &&& a <= b < diagram.graph().len()
                &&& linked(diagram.graph(), a, b) || linked(diagram.graph(), b, a)
            },
{
    let graph = diagram.graph();
    let all = all_pairs(graph);
    let keep = |p: (usize, usize)| wall(diagram, p.0 as int, p.1 as int) is Some;
    lemma_distinct(all);
    lemma_filter(distinct(all), keep);
    let pairs = wall_pairs(diagram);
    assert forall|k: int| 0 <= k < pairs.len() implies ({
        let (a, b) = #[trigger] pairs[k];
        &&& a <= b < graph.len()
        &&& linked(graph, a, b) || linked(graph, b, a)
    }) by {
        assert(pairs.contains(pairs[k]));
        assert(distinct(all).contains(pairs[k]));
        assert(all.contains(pairs[k]));
        let i = choose|i: int| 0 <= i < all.len() && all[i] == pairs[k];
        lemma_pairs_come_from_links(graph, i);
        let (a, b) = choose|a: usize, b: usize|
            a < graph.len() && b < graph.len() && #[trigger] linked(graph, a, b) && all[i]
                == ordered(a, b);
        assert(linked(graph, a, b));
    }
}

/// The walls of a diagram are listed once each, with the lower cell first, and the
/// two cells of a wall are neighbours.
pub proof fn law_edges_are_unique(diagram: &Diagram)
    requires
        diagram.meshed(),
        diagram.walled(),
        diagram.graph().len() <= usize::MAX,
    ensures
        wall_pairs(diagram).no_duplicates(),
        forall|k: int|
            #![trigger wall_pairs(diagram)[k]]
            0 <= k < wall_pairs(diagram).len() ==> {
                let (a, b) = wall_pairs(diagram)[k];
                &&& a < b < diagram.graph().len()
                &&& linked(diagram.graph(), a, b)
                &&& linked(diagram.graph(), b, a)
            },
{
    lemma_wall_pairs(diagram);
}

/// Neighbours have an edge: the wall between them is charted.
pub proof fn law_every_wall_has_an_edge(diagram: &Diagram, a: usize, b: usize)
    requires
        diagram.meshed(),
        diagram.walled(),
        diagram.graph().len() <= usize::MAX,
        a < diagram.graph().len(),
        b < diagram.graph().len(),
        linked(diagram.graph(), a, b),
    ensures
        wall_pairs(diagram).contains(ordered(a, b)),
{
    let all = all_pairs(diagram.graph());
    let keep = |p: (usize, usize)| wall(diagram, p.0 as int, p.1 as int) is Some;
    lemma_all_pairs(diagram.graph(), a, b);
    lemma_distinct(all);
    lemma_filter(distinct(all), keep);
    assert(distinct(all).contains(ordered(a, b)));
    assert(distinct(all).filter(keep).contains(ordered(a, b)));
}

/// Each step of a walk from neighbour to neighbour crosses an edge: routes never leave
/// the charted walls.
pub proof fn law_walks_follow_edges(diagram: &Diagram, cells: Seq<usize>)
    requires
        diagram.meshed(),
        diagram.walled(),
        diagram.graph().len() <= usize::MAX,
        is_walk(diagram.graph(), cells),
    ensures
        forall|i: int|
            #![trigger cells[i]]
            0 <= i < cells.len() - 1 ==> wall_pairs(diagram).contains(
                ordered(cells[i], cells[i + 1]),
            ),
{
    assert forall|i: int|
        #![trigger cells[i]]
        0 <= i < cells.len() - 1 implies wall_pairs(diagram).contains(
        ordered(cells[i], cells[i + 1]),
    ) by {
        let a = cells[i];
        let b = cells[i + 1];
        assert(linked(diagram.graph(), a, b));
        law_every_wall_has_an_edge(diagram, a, b);
    }
}

/// Every cell of a list is below `n`.
pub open spec fn below(cells: Seq<usize>, n: nat) -> bool {
    forall|x: int| 0 <= x < cells.len() ==> (#[trigger] cells[x]) < n
}

/// Whether every cell of a list is below `n`.
pub fn all_below(cells: &Vec<usize>, n: usize) -> (r: bool)
    ensures
        r == below(cells@, n as nat),
{
    let mut x: usize = 0;
    while x < cells.len()
        invariant
            x <= cells@.len(),
            forall|y: int| 0 <= y < x ==> (#[trigger] cells@[y]) < n,
        decreases cells@.len() - x,
    {
        if cells[x] >= n {
            assert(cells@[x as int] >= n);
            return false;
        }
        x += 1;
    }
    true
}

/// Whether the stops and corridors of a selection are made of `cells` cells, and
/// every connection names a stop of the next stage.
pub fn fits(selection: &Selection, cells: usize) -> (r: bool)
    ensures
        r == (selection@.addressed(cells as nat) && within_cells(selection@, cells as nat)),
{
    let ghost chosen = selection@;
    assert(selection.levels@.len() == selection.levels.len());
    assert(selection.connections@.len() == selection.connections.len());
    let stages = selection.connections.len();
    if selection.levels.len() == 0 || selection.levels.len() - 1 != stages {
        return false;
    }
    let mut s: usize = 0;
    while s < selection.levels.len()
        invariant
            s <= selection.levels@.len(),
            chosen == selection@,
            forall|t: int, i: int|
                0 <= t < s && 0 <= i < chosen.levels[t].len() ==> (#[trigger] chosen.levels[t][i])
                    < cells,
        decreases selection.levels@.len() - s,
    {
        assert(chosen.levels[s as int] == selection.levels@[s as int]@);
        if !all_below(&selection.levels[s], cells) {
            proof {
                let row = chosen.levels[s as int];
                let x = choose|x: int| 0 <= x < row.len() && !((#[trigger] row[x]) < cells);
                assert(chosen.levels[s as int][x] >= cells);
            }
            return false;
        }
        s += 1;
    }
    let mut s: usize = 0;
    while s < stages
        invariant
            s <= stages,
            chosen == selection@,
            stages == selection.connections@.len(),
            selection.levels@.len() == stages + 1,
            forall|t: int|
                0 <= t < s ==> (#[trigger] chosen.connections[t]).len() == chosen.levels[t].len(),
            forall|t: int, i: int, k: int| #[trigger]
                chosen.has_route(t, i, k) && t < s ==> route_fits(chosen, t, i, k, cells as nat),
        decreases stages - s,
    {
        let stage = &selection.connections[s];
        proof {
            assert(chosen.connections[s as int] == arrival_lists(stage@));
            assert(chosen.levels[s as int] == selection.levels@[s as int]@);
            assert(chosen.levels[s + 1] == selection.levels@[s + 1]@);
        }
        if stage.len() != selection.levels[s].len() {
            assert(chosen.connections[s as int].len() != chosen.levels[s as int].len());
            return false;
        }
        let next = selection.levels[s + 1].len();
        let mut i: usize = 0;
        while i < stage.len()
            invariant
                i <= stage@.len(),
                chosen == selection@,
                s < stages,
                stages == selection.connections@.len(),
                stage == selection.connections@[s as int],
                next == chosen.levels[s + 1].len(),
                forall|j: int, k: int| #[trigger]
                    chosen.has_route(s as int, j, k) && j < i ==> route_fits(
                        chosen,
                        s as int,
                        j,
                        k,
                        cells as nat,
                    ),
            decreases stage@.len() - i,
        {
            let row = &stage[i];
            let mut k: usize = 0;
            while k < row.len()
                invariant
                    k <= row@.len(),
                    chosen == selection@,
                    s < stages,
                    stages == selection.connections@.len(),
                    stage == selection.connections@[s as int],
                    i < stage@.len(),
                    row == stage@[i as int],
                    next == chosen.levels[s + 1].len(),
                    forall|l: int| #[trigger]
                        chosen.has_route(s as int, i as int, l) && l < k ==> route_fits(
                            chosen,
                            s as int,
                            i as int,
                            l,
                            cells as nat,
                        ),
                decreases row@.len() - k,
            {
                proof {
                    assert(chosen.connections[s as int] == arrival_lists(stage@));
                    assert(chosen.has_route(s as int, i as int, k as int));
                    assert(chosen.route(s as int, i as int, k as int) == (
                        row@[k as int].0,
                        row@[k as int].1@,
                    ));
                }
                if row[k].0 >= next || !all_below(&row[k].1, cells) {
                    proof {
                        if row@[k as int].0 < next {
                            let path = row@[k as int].1@;
                            let x = choose|x: int|
                                0 <= x < path.len() && !((#[trigger] path[x]) < cells);
                            assert(chosen.route(s as int, i as int, k as int).1[x] >= cells);
                        }
                    }
                    return false;
                }
                assert(route_fits(chosen, s as int, i as int, k as int, cells as nat));
                k += 1;
            }
            assert(chosen.connections[s as int][i as int].len() == row@.len());
            i += 1;
        }
        s += 1;
    }
    proof {
        assert forall|t: int, i: int, k: int| #[trigger] chosen.has_route(t, i, k) implies route_fits(
            chosen,
            t,
            i,
            k,
            cells as nat,
        ) by {}
        assert forall|t: int, i: int, k: int, x: int|
            #![trigger chosen.route(t, i, k).1[x]]
            chosen.has_route(t, i, k) && 0 <= x < chosen.route(t, i, k).1.len() implies chosen.route(
            t,
            i,
            k,
        ).1[x] < cells by {
            assert(route_fits(chosen, t, i, k, cells as nat));
        }
    }
    true
}

/// A route names a stop of the next stage, and leads through cells.
spec fn route_fits(chosen: Chosen, s: int, i: int, k: int, cells: nat) -> bool {
    chosen.route(s, i, k).0 < chosen.levels[s + 1].len() && below(chosen.route(s, i, k).1, cells)
}

/// Connections that walk from neighbour to neighbour lead through cells.
pub proof fn law_linked_routes_fit(chosen: Chosen, graph: Seq<Seq<usize>>)
    requires
        chosen.linked(graph),
    ensures
        chosen.addressed(graph.len()),
        within_cells(chosen, graph.len()),
{
    assert forall|s: int, i: int, k: int, x: int|
        #![trigger chosen.route(s, i, k).1[x]]
        chosen.has_route(s, i, k) && 0 <= x < chosen.route(s, i, k).1.len() implies chosen.route(
        s,
        i,
        k,
    ).1[x] < graph.len() by {
        let cells = chosen.visits(s, i, k);
        assert(is_walk(graph, cells));
        assert(cells[x + 1] == chosen.route(s, i, k).1[x]);
    }
}

/// Where everything on a map lies.
pub struct Placement {
    /// Width and height of the visible region.
    pub size: PointBits,
    /// The cells of the diagram, turned and centred.
    pub cells: Vec<CellData>,
    /// The walls of the diagram, turned and centred.
    pub edges: Vec<EdgeData>,
    /// The positions of the stops.
    pub stops: Vec<Vec<PointBits>>,
    /// The angle by which the map was turned, as the bits of a number.
    pub rotation: u32,
    /// What was subtracted from every y after that, as the bits of a number.
    pub y_offset: u32,
}

/// There is a position for each cell, wall and stop.
pub open spec fn placed(diagram: &Diagram, chosen: Chosen, placement: &Placement) -> bool {
    &&& placement.cells@.len() == diagram.neighbors@.len()
    &&& placement.edges@.map_values(|e: EdgeData| e.cells) == wall_pairs(diagram)
    &&& placement.stops@.len() == chosen.levels.len()
    &&& forall|s: int|
        0 <= s < chosen.levels.len() ==> (#[trigger] placement.stops@[s])@.len()
            == chosen.levels[s].len()
}

/// Puts a map together: the stops and connections of the selection, on the cells and
/// walls of the diagram.
pub fn finish(
    diagram: &Diagram,
    selection: Selection,
    placement: Placement,
    seed: u64,
    requested_seed: u64,
) -> (g: Generated)
    requires
        diagram.meshed(),
        selection@.addressed(diagram.neighbors@.len()),
        within_cells(selection@, diagram.neighbors@.len()),
        placed(diagram, selection@, &placement),
    ensures
        selection@.levels[0].len() > 0 ==> g.wf(),
        g.chosen() == selection@,
        g.pairs() == wall_pairs(diagram),
        g.size == placement.size,
        g.cells == placement.cells,
        g.edges == placement.edges,
        g.level_jitters == placement.stops,
        g.rotation == placement.rotation,
        g.y_offset == placement.y_offset,
        g.seed == seed,
        g.requested_seed == requested_seed,
{
    let connections = routes(&selection.connections);
    let g = Generated {
        size: placement.size,
        cells: placement.cells,
        edges: placement.edges,
        levels: selection.levels,
        level_jitters: placement.stops,
        connections,
        rotation: placement.rotation,
        y_offset: placement.y_offset,
        seed,
        requested_seed,
    };
    proof {
        assert(g.chosen() == selection@);
        assert(diagram.neighbors@.len() == diagram.neighbors.len());
        lemma_wall_pairs(diagram);
        assert forall|e: int| 0 <= e < g.edges@.len() implies (#[trigger] g.edges@[e]).cells.0
            < g.cells@.len() && g.edges@[e].cells.1 < g.cells@.len() by {
            assert(g.pairs()[e] == g.edges@[e].cells);
            assert(wall_pairs(diagram)[e] == g.edges@[e].cells);
        }
        assert forall|s: int| 0 <= s < g.levels@.len() implies (
        #[trigger] g.level_jitters@[s])@.len() == g.levels@[s]@.len() by {
            assert(g.chosen().levels[s] == g.levels@[s]@);
        }
        assert(g.chosen().levels[0] == g.levels@[0]@);
    }
    g
}

} // verus!
