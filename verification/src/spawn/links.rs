//! Which edges each path crosses, and which paths cross each edge.

use crate::generation::charting::{law_walks_follow_edges, wall_pairs};
use crate::generation::crossing::Route;
use crate::generation::reach::plain::comes_before;
use crate::generation::selection::Chosen;
use crate::generation::voronoi::{lists, Diagram};
use crate::generation::{EdgeData, Generated, PathRoute};
use crate::graph::{chain, ordered};
use crate::sequences::lemma_push_contains;
use std::collections::HashMap;
use vstd::prelude::*;
use vstd::seq_lib::{to_multiset_build, to_multiset_contains};

verus! {

/// An edge, and the paths that cross it.
pub type Link = (usize, Seq<usize>);

/// The edge between a pair of cells; the last one, should a pair occur twice.
pub open spec fn find_edge(pairs: Seq<(usize, usize)>, pair: (usize, usize)) -> Option<usize>
    decreases pairs.len(),
{
    if pairs.len() == 0 {
        None
    } else if pairs.last() == pair {
        Some((pairs.len() - 1) as usize)
    } else {
        find_edge(pairs.drop_last(), pair)
    }
}

/// The edges between the cells that a route visits, in order. Cells without an edge
/// between them are passed over.
pub open spec fn crossed_edges(pairs: Seq<(usize, usize)>, cells: Seq<usize>) -> Seq<usize>
    decreases cells.len(),
{
    if cells.len() < 2 {
        Seq::empty()
    } else {
        let before = crossed_edges(pairs, cells.drop_last());
        match find_edge(pairs, ordered(cells[cells.len() - 2], cells[cells.len() - 1])) {
            Some(e) => before.push(e),
            None => before,
        }
    }
}

/// The addresses of all stops, stage by stage.
pub open spec fn site_list(levels: Seq<Seq<usize>>) -> Seq<(usize, usize)>
    decreases levels.len(),
{
    if levels.len() == 0 {
        Seq::empty()
    } else {
        site_list(levels.drop_last()) + Seq::new(
            levels.last().len(),
            |i: int| ((levels.len() - 1) as usize, i as usize),
        )
    }
}

/// The addresses of the routes that leave a stage, stop by stop.
pub open spec fn stage_routes(stage: usize, rows: Seq<Seq<Route>>) -> Seq<(usize, usize, usize)>
    decreases rows.len(),
{
    if rows.len() == 0 {
        Seq::empty()
    } else {
        stage_routes(stage, rows.drop_last()) + Seq::new(
            rows.last().len(),
            |k: int| (stage, (rows.len() - 1) as usize, k as usize),
        )
    }
}

/// The addresses of all routes, stage by stage.
pub open spec fn route_list(connections: Seq<Seq<Seq<Route>>>) -> Seq<(usize, usize, usize)>
    decreases connections.len(),
{
    if connections.len() == 0 {
        Seq::empty()
    } else {
        route_list(connections.drop_last()) + stage_routes(
            (connections.len() - 1) as usize,
            connections.last(),
        )
    }
}

/// The edges that each path crosses.
pub open spec fn path_edges(chosen: Chosen, pairs: Seq<(usize, usize)>) -> Seq<Seq<usize>> {
    route_list(chosen.connections).map_values(
        |r: (usize, usize, usize)|
            crossed_edges(pairs, chosen.visits(r.0 as int, r.1 as int, r.2 as int)),
    )
}

/// The place of an edge in a list of links.
pub open spec fn place_of(links: Seq<Link>, edge: usize) -> Option<int>
    decreases links.len(),
{
    if links.len() == 0 {
        None
    } else if links.last().0 == edge {
        Some(links.len() - 1)
    } else {
        place_of(links.drop_last(), edge)
    }
}

/// The links, with one more crossing.
pub open spec fn note(links: Seq<Link>, edge: usize, path: usize) -> Seq<Link> {
    match place_of(links, edge) {
        Some(m) => links.update(m, (edge, links[m].1.push(path))),
        None => links.push((edge, seq![path])),
    }
}

/// The links, with all crossings of a path.
pub open spec fn note_all(links: Seq<Link>, edges: Seq<usize>, path: usize) -> Seq<Link>
    decreases edges.len(),
{
    if edges.len() == 0 {
        links
    } else {
        note(note_all(links, edges.drop_last(), path), edges.last(), path)
    }
}

/// The paths that cross each edge, in the order in which edges are first crossed.
pub open spec fn edge_links(crossed: Seq<Seq<usize>>) -> Seq<Link>
    decreases crossed.len(),
{
    if crossed.len() == 0 {
        Seq::empty()
    } else {
        note_all(
            edge_links(crossed.drop_last()),
            crossed.last(),
            (crossed.len() - 1) as usize,
        )
    }
}

/// The edges of a map by the cells that they lie between.
struct EdgeIndex {
    rows: Vec<HashMap<usize, usize>>,
}

impl EdgeIndex {
    /// What the index says of a pair of cells.
    spec fn lookup(&self, pair: (usize, usize)) -> Option<usize> {
        if pair.0 < self.rows@.len() && self.rows@[pair.0 as int]@.contains_key(pair.1) {
            Some(self.rows@[pair.0 as int]@[pair.1])
        } else {
            None
        }
    }

    /// The index is that of these pairs.
    spec fn indexes(&self, pairs: Seq<(usize, usize)>) -> bool {
        forall|pair: (usize, usize)| #[trigger] self.lookup(pair) == find_edge(pairs, pair)
    }

    /// Indexes the edges between `cells` cells.
    fn build(edges: &Vec<EdgeData>, cells: usize) -> (index: Self)
        requires
            forall|e: int| 0 <= e < edges@.len() ==> (#[trigger] edges@[e]).cells.0 < cells,
        ensures
            index.indexes(edges@.map_values(|e: EdgeData| e.cells)),
    {
        broadcast use vstd::std_specs::hash::group_hash_axioms;

        let ghost pairs = edges@.map_values(|e: EdgeData| e.cells);
        let mut rows: Vec<HashMap<usize, usize>> = Vec::new();
        let mut c: usize = 0;
        while c < cells
            invariant
                c <= cells,
                rows@.len() == c,
                forall|a: int|
                    0 <= a < c ==> (#[trigger] rows@[a])@ == Map::<usize, usize>::empty(),
            decreases cells - c,
        {
            rows.push(HashMap::new());
            c += 1;
        }
        let mut index = EdgeIndex { rows };
        let mut e: usize = 0;
        assert(index.indexes(pairs.take(0))) by {
            assert forall|pair: (usize, usize)| #[trigger] index.lookup(pair) == find_edge(
                pairs.take(0),
                pair,
            ) by {
                if pair.0 < index.rows@.len() {
                    assert(index.rows@[pair.0 as int]@ == Map::<usize, usize>::empty());
                }
            }
        }
        while e < edges.len()
            invariant
                e <= edges@.len(),
                pairs == edges@.map_values(|e: EdgeData| e.cells),
                index.rows@.len() == cells,
                forall|e: int| 0 <= e < edges@.len() ==> (#[trigger] edges@[e]).cells.0 < cells,
                index.indexes(pairs.take(e as int)),
            decreases edges@.len() - e,
        {
            broadcast use vstd::std_specs::hash::group_hash_axioms;

            let (a, b) = edges[e].cells;
            let ghost before = index;
            index.rows[a].insert(b, e);
            proof {
                let now = pairs.take(e + 1);
                assert(now.drop_last() =~= pairs.take(e as int));
                assert(now.last() == (a, b));
                assert forall|pair: (usize, usize)| #[trigger] index.lookup(pair) == find_edge(
                    now,
                    pair,
                ) by {
                    assert(before.lookup(pair) == find_edge(pairs.take(e as int), pair));
                    if pair.0 != a && pair.0 < cells {
                        assert(index.rows@[pair.0 as int] == before.rows@[pair.0 as int]);
                    }
                }
            }
            e += 1;
        }
        assert(pairs.take(e as int) =~= pairs);
        index
    }

    /// Finds the edge between two cells.
    fn find(&self, a: usize, b: usize, Ghost(pairs): Ghost<Seq<(usize, usize)>>) -> (r: Option<
        usize,
    >)
        requires
            self.indexes(pairs),
        ensures
            r == find_edge(pairs, ordered(a, b)),
    {
        broadcast use vstd::std_specs::hash::group_hash_axioms;

        let (low, high) = if a <= b {
            (a, b)
        } else {
            (b, a)
        };
        assert(self.lookup((low, high)) == find_edge(pairs, (low, high)));
        if low < self.rows.len() {
            match self.rows[low].get(&high) {
                Some(e) => Some(*e),
                None => None,
            }
        } else {
            None
        }
    }
}

/// The addresses of all stops.
pub fn list_sites(levels: &Vec<Vec<usize>>) -> (r: Vec<(usize, usize)>)
    ensures
        r@ == site_list(lists(levels@)),
{
    let ghost stages = lists(levels@);
    let mut r: Vec<(usize, usize)> = Vec::new();
    let mut s: usize = 0;
    assert(r@ =~= site_list(stages.take(0)));
    while s < levels.len()
        invariant
            s <= levels@.len(),
            stages == lists(levels@),
            r@ == site_list(stages.take(s as int)),
        decreases levels@.len() - s,
    {
        let n = levels[s].len();
        let ghost before = r@;
        let mut i: usize = 0;
        while i < n
            invariant
                i <= n,
                r@ == before + Seq::new(i as nat, |i: int| (s, i as usize)),
            decreases n - i,
        {
            r.push((s, i));
            i += 1;
            assert(r@ =~= before + Seq::new(i as nat, |i: int| (s, i as usize)));
        }
        proof {
            assert(stages.take(s + 1).drop_last() =~= stages.take(s as int));
            assert(stages.take(s + 1).last() == levels@[s as int]@);
            assert(r@ =~= site_list(stages.take(s + 1)));
        }
        s += 1;
    }
    assert(stages.take(s as int) =~= stages);
    r
}

/// The addresses of all routes.
pub fn list_routes(connections: &Vec<Vec<Vec<PathRoute>>>) -> (r: Vec<(usize, usize, usize)>)
    ensures
        r@ == route_list(crate::generation::routes_of(connections@)),
{
    let ghost stages = crate::generation::routes_of(connections@);
    let mut r: Vec<(usize, usize, usize)> = Vec::new();
    let mut s: usize = 0;
    assert(r@ =~= route_list(stages.take(0)));
    while s < connections.len()
        invariant
            s <= connections@.len(),
            stages == crate::generation::routes_of(connections@),
            r@ == route_list(stages.take(s as int)),
        decreases connections@.len() - s,
    {
        let rows = &connections[s];
        let ghost stage = stages[s as int];
        let ghost before = r@;
        let mut i: usize = 0;
        assert(r@ =~= before + stage_routes(s, stage.take(0)));
        while i < rows.len()
            invariant
                i <= rows@.len(),
                s < connections@.len(),
                stages == crate::generation::routes_of(connections@),
                rows == connections@[s as int],
                stage == stages[s as int],
                r@ == before + stage_routes(s, stage.take(i as int)),
            decreases rows@.len() - i,
        {
            let n = rows[i].len();
            let ghost so_far = r@;
            let mut k: usize = 0;
            while k < n
                invariant
                    k <= n,
                    r@ == so_far + Seq::new(k as nat, |k: int| (s, i, k as usize)),
                decreases n - k,
            {
                r.push((s, i, k));
                k += 1;
                assert(r@ =~= so_far + Seq::new(k as nat, |k: int| (s, i, k as usize)));
            }
            proof {
                assert(stage.take(i + 1).drop_last() =~= stage.take(i as int));
                assert(stage.take(i + 1).last().len() == n);
                assert(r@ =~= before + stage_routes(s, stage.take(i + 1)));
            }
            i += 1;
        }
        proof {
            assert(stage.take(i as int) =~= stage);
            assert(stages.take(s + 1).drop_last() =~= stages.take(s as int));
            assert(r@ =~= route_list(stages.take(s + 1)));
        }
        s += 1;
    }
    assert(stages.take(s as int) =~= stages);
    r
}

/// An address on the list of a stage is one of a route of that stage.
pub(crate) proof fn lemma_stage_routes(stage: usize, rows: Seq<Seq<Route>>, j: int)
    requires
        rows.len() <= usize::MAX,
        forall|i: int| 0 <= i < rows.len() ==> (#[trigger] rows[i]).len() <= usize::MAX,
        0 <= j < stage_routes(stage, rows).len(),
    ensures
        ({
            let (s, i, k) = stage_routes(stage, rows)[j];
            s == stage && i < rows.len() && k < rows[i as int].len()
        }),
    decreases rows.len(),
{
    if rows.len() > 0 {
        let rest = stage_routes(stage, rows.drop_last());
        assert(rows[rows.len() - 1].len() <= usize::MAX);
        if j < rest.len() {
            assert forall|i: int| 0 <= i < rows.drop_last().len() implies (
            #[trigger] rows.drop_last()[i]).len() <= usize::MAX by {
                assert(rows[i].len() <= usize::MAX);
            }
            lemma_stage_routes(stage, rows.drop_last(), j);
            let (s, i, k) = rest[j];
            assert(rows.drop_last()[i as int] == rows[i as int]);
        }
    }
}

/// No list is longer than an index can say.
pub open spec fn countable(connections: Seq<Seq<Seq<Route>>>) -> bool {
    &&& connections.len() <= usize::MAX
    &&& forall|s: int| 0 <= s < connections.len() ==> (#[trigger] connections[s]).len() <= usize::MAX
    &&& forall|s: int, i: int|
        0 <= s < connections.len() && 0 <= i < connections[s].len() ==> (
        #[trigger] connections[s][i]).len() <= usize::MAX
}

/// Every address on the list is one of a route.
pub proof fn lemma_route_list(connections: Seq<Seq<Seq<Route>>>, j: int)
    requires
        countable(connections),
        0 <= j < route_list(connections).len(),
    ensures
        ({
            let (s, i, k) = route_list(connections)[j];
            &&& s < connections.len()
            &&& i < connections[s as int].len()
            &&& k < connections[s as int][i as int].len()
        }),
    decreases connections.len(),
{
    if connections.len() > 0 {
        let short = connections.drop_last();
        let rest = route_list(short);
        assert(connections[connections.len() - 1].len() <= usize::MAX);
        if j < rest.len() {
            assert forall|s: int| 0 <= s < short.len() implies (#[trigger] short[s]).len()
                <= usize::MAX by {
                assert(connections[s].len() <= usize::MAX);
            }
            assert forall|s: int, i: int|
                0 <= s < short.len() && 0 <= i < short[s].len() implies (
            #[trigger] short[s][i]).len() <= usize::MAX by {
                assert(connections[s][i].len() <= usize::MAX);
            }
            lemma_route_list(short, j);
            let (s, i, k) = rest[j];
            assert(short[s as int] == connections[s as int]);
        } else {
            let last = connections.last();
            assert forall|i: int| 0 <= i < last.len() implies (#[trigger] last[i]).len()
                <= usize::MAX by {
                assert(connections[connections.len() - 1][i].len() <= usize::MAX);
            }
            lemma_stage_routes((connections.len() - 1) as usize, last, j - rest.len());
        }
    }
}

/// Every address on the list is one of a stop.
pub proof fn lemma_site_list(levels: Seq<Seq<usize>>, j: int)
    requires
        levels.len() <= usize::MAX,
        forall|s: int| 0 <= s < levels.len() ==> (#[trigger] levels[s]).len() <= usize::MAX,
        0 <= j < site_list(levels).len(),
    ensures
        ({
            let (s, i) = site_list(levels)[j];
            s < levels.len() && i < levels[s as int].len()
        }),
    decreases levels.len(),
{
    if levels.len() > 0 {
        let short = levels.drop_last();
        let rest = site_list(short);
        assert(levels[levels.len() - 1].len() <= usize::MAX);
        if j < rest.len() {
            assert forall|s: int| 0 <= s < short.len() implies (#[trigger] short[s]).len()
                <= usize::MAX by {
                assert(levels[s].len() <= usize::MAX);
            }
            lemma_site_list(short, j);
            let (s, i) = rest[j];
            assert(short[s as int] == levels[s as int]);
        }
    }
}

/// An edge that is found is one of the list.
pub proof fn lemma_find_edge(pairs: Seq<(usize, usize)>, pair: (usize, usize))
    requires
        pairs.len() <= usize::MAX,
    ensures
        match find_edge(pairs, pair) {
            Some(e) => e < pairs.len() && pairs[e as int] == pair,
            None => !pairs.contains(pair),
        },
    decreases pairs.len(),
{
    if pairs.len() > 0 && pairs.last() != pair {
        lemma_find_edge(pairs.drop_last(), pair);
        if pairs.contains(pair) {
            let i = choose|i: int| 0 <= i < pairs.len() && pairs[i] == pair;
            assert(pairs.drop_last()[i] == pair);
        }
    }
}

/// Crossed edges are edges of the list.
pub proof fn lemma_crossed_edges(pairs: Seq<(usize, usize)>, cells: Seq<usize>)
    requires
        pairs.len() <= usize::MAX,
    ensures
        forall|k: int|
            0 <= k < crossed_edges(pairs, cells).len() ==> (#[trigger] crossed_edges(
                pairs,
                cells,
            )[k]) < pairs.len(),
        crossed_edges(pairs, cells).len() < cells.len() || cells.len() == 0,
    decreases cells.len(),
{
    if cells.len() >= 2 {
        lemma_crossed_edges(pairs, cells.drop_last());
        lemma_find_edge(pairs, ordered(cells[cells.len() - 2], cells[cells.len() - 1]));
    }
}

/// The edges between the cells of one route.
fn crossed(
    index: &EdgeIndex,
    from: usize,
    path: &Vec<usize>,
    to: usize,
    Ghost(pairs): Ghost<Seq<(usize, usize)>>,
) -> (r: Vec<usize>)
    requires
        index.indexes(pairs),
    ensures
        r@ == crossed_edges(pairs, chain(from, path@, to)),
{
    let ghost start = seq![from] + path@;
    let ghost whole = chain(from, path@, to);
    let mut r: Vec<usize> = Vec::new();
    let mut prev = from;
    let mut k: usize = 0;
    assert(r@ =~= crossed_edges(pairs, start.take(1)));
    while k < path.len()
        invariant
            k <= path@.len(),
            index.indexes(pairs),
            start == seq![from] + path@,
            prev == start[k as int],
            r@ == crossed_edges(pairs, start.take(k + 1)),
        decreases path@.len() - k,
    {
        let c = path[k];
        proof {
            assert(start.take(k + 2).drop_last() =~= start.take(k + 1));
            assert(start.take(k + 2)[k as int] == prev);
            assert(start.take(k + 2)[k + 1] == c);
        }
        if let Some(e) = index.find(prev, c, Ghost(pairs)) {
            r.push(e);
        }
        prev = c;
        k += 1;
    }
    proof {
        assert(start.take(k + 1) =~= start);
        assert(whole.drop_last() =~= start);
        assert(whole[whole.len() - 2] == prev);
        assert(whole[whole.len() - 1] == to);
    }
    if let Some(e) = index.find(prev, to, Ghost(pairs)) {
        r.push(e);
    }
    r
}

/// The edges that each path crosses.
pub fn list_path_edges(g: &Generated, routes: &Vec<(usize, usize, usize)>) -> (r: Vec<Vec<usize>>)
    requires
        g.wf(),
        routes@ == route_list(g.chosen().connections),
    ensures
        lists(r@) == path_edges(g.chosen(), g.pairs()),
{
    let ghost pairs = g.pairs();
    let ghost chosen = g.chosen();
    let index = EdgeIndex::build(&g.edges, g.cells.len());
    let mut r: Vec<Vec<usize>> = Vec::new();
    let mut j: usize = 0;
    while j < routes.len()
        invariant
            g.wf(),
            pairs == g.pairs(),
            chosen == g.chosen(),
            index.indexes(pairs),
            routes@ == route_list(chosen.connections),
            j <= routes@.len(),
            r@.len() == j,
            forall|m: int|
                0 <= m < j ==> (#[trigger] r@[m])@ == path_edges(chosen, pairs)[m],
        decreases routes@.len() - j,
    {
        let (s, i, k) = routes[j];
        proof {
            lemma_countable(g);
            lemma_route_list(chosen.connections, j as int);
            assert(chosen.has_route(s as int, i as int, k as int));
            assert(chosen.connections[s as int].len() == chosen.levels[s as int].len());
            assert(g.levels@.len() == g.levels.len());
        }
        let route = &g.connections[s][i][k];
        assert(route.route() == chosen.route(s as int, i as int, k as int));
        let row = crossed(
            &index,
            g.levels[s][i],
            &route.intermediate_cells,
            g.levels[s + 1][route.target_in_next],
            Ghost(pairs),
        );
        r.push(row);
        j += 1;
    }
    assert(lists(r@) =~= path_edges(chosen, pairs));
    r
}

/// The lists of a map are vectors, so their lengths are indices.
pub proof fn lemma_countable(g: &Generated)
    ensures
        countable(g.chosen().connections),
        g.chosen().levels.len() <= usize::MAX,
        forall|s: int|
            0 <= s < g.chosen().levels.len() ==> (#[trigger] g.chosen().levels[s]).len()
                <= usize::MAX,
        g.pairs().len() <= usize::MAX,
        g.cells@.len() <= usize::MAX,
{
    let c = g.chosen().connections;
    assert(g.connections@.len() == g.connections.len());
    assert forall|s: int| 0 <= s < c.len() implies (#[trigger] c[s]).len() <= usize::MAX by {
        assert(g.connections@[s]@.len() == g.connections@[s].len());
    }
    assert forall|s: int, i: int|
        0 <= s < c.len() && 0 <= i < c[s].len() implies (#[trigger] c[s][i]).len()
        <= usize::MAX by {
        assert(g.connections@[s]@[i]@.len() == g.connections@[s]@[i].len());
    }
    assert(g.levels@.len() == g.levels.len());
    assert forall|s: int| 0 <= s < g.chosen().levels.len() implies (
    #[trigger] g.chosen().levels[s]).len() <= usize::MAX by {
        assert(g.levels@[s]@.len() == g.levels@[s].len());
    }
    assert(g.edges@.len() == g.edges.len());
    assert(g.cells@.len() == g.cells.len());
}

/// Links as values.
pub open spec fn links_of(v: Seq<(usize, Vec<usize>)>) -> Seq<Link> {
    v.map_values(|l: (usize, Vec<usize>)| (l.0, l.1@))
}

pub(crate) proof fn lemma_place_of(links: Seq<Link>, edge: usize)
    ensures
        match place_of(links, edge) {
            Some(m) => 0 <= m < links.len() && links[m].0 == edge,
            None => forall|m: int| 0 <= m < links.len() ==> (#[trigger] links[m]).0 != edge,
        },
    decreases links.len(),
{
    if links.len() > 0 && links.last().0 != edge {
        lemma_place_of(links.drop_last(), edge);
        if place_of(links, edge) is None {
            assert forall|m: int| 0 <= m < links.len() implies (#[trigger] links[m]).0 != edge by {
                if m < links.len() - 1 {
                    assert(links.drop_last()[m].0 != edge);
                }
            }
        }
    }
}

/// Changing the paths of a link moves no edge.
proof fn lemma_place_stays(links: Seq<Link>, m: int, paths: Seq<usize>, edge: usize)
    requires
        0 <= m < links.len(),
    ensures
        place_of(links.update(m, (links[m].0, paths)), edge) == place_of(links, edge),
    decreases links.len(),
{
    let now = links.update(m, (links[m].0, paths));
    if m < links.len() - 1 {
        assert(now.drop_last() =~= links.drop_last().update(m, (links[m].0, paths)));
        lemma_place_stays(links.drop_last(), m, paths, edge);
    } else {
        assert(now.drop_last() =~= links.drop_last());
    }
}

/// The links of some paths, and the place of each edge among them.
struct LinkTable {
    links: Vec<(usize, Vec<usize>)>,
    slots: Vec<Option<usize>>,
}

impl LinkTable {
    spec fn wf(&self) -> bool {
        forall|e: int|
            #![trigger self.slots@[e]]
            0 <= e < self.slots@.len() ==> self.knows(e)
    }

    /// The slot of an edge holds its place.
    spec fn knows(&self, e: int) -> bool {
        match self.slots@[e] {
            Some(m) => place_of(links_of(self.links@), e as usize) == Some(m as int),
            None => place_of(links_of(self.links@), e as usize) is None,
        }
    }

    /// Adds a crossing.
    fn note(&mut self, edge: usize, path: usize)
        requires
            old(self).wf(),
            edge < old(self).slots@.len(),
        ensures
            final(self).wf(),
            final(self).slots@.len() == old(self).slots@.len(),
            links_of(final(self).links@) == note(links_of(old(self).links@), edge, path),
    {
        let ghost before = links_of(self.links@);
        assert(self.slots@.len() == self.slots.len());
        assert(self.links@.len() == self.links.len());
        assert(self.knows(edge as int));
        proof {
            lemma_place_of(before, edge);
        }
        match self.slots[edge] {
            Some(m) => {
                self.links[m].1.push(path);
                proof {
                    let now = links_of(self.links@);
                    let paths = before[m as int].1.push(path);
                    assert(now =~= before.update(m as int, (edge, paths)));
                    assert forall|e: int|
                        #![trigger self.slots@[e]]
                        0 <= e < self.slots@.len() implies self.knows(e) by {
                        assert(old(self).slots@[e] == self.slots@[e]);
                        assert(old(self).knows(e));
                        lemma_place_stays(before, m as int, paths, e as usize);
                    }
                }
            },
            None => {
                let m = self.links.len();
                let mut paths: Vec<usize> = Vec::new();
                paths.push(path);
                assert(paths@ =~= seq![path]);
                self.links.push((edge, paths));
                self.slots[edge] = Some(m);
                proof {
                    let now = links_of(self.links@);
                    assert(now =~= before.push((edge, seq![path])));
                    assert(now.drop_last() =~= before);
                    assert forall|e: int|
                        #![trigger self.slots@[e]]
                        0 <= e < self.slots@.len() implies self.knows(e) by {
                        if e != edge {
                            assert(old(self).slots@[e] == self.slots@[e]);
                            assert(old(self).knows(e));
                        }
                    }
                }
            },
        }
    }
}

/// The paths that cross each edge.
pub fn list_edge_links(crossed: &Vec<Vec<usize>>, edges: usize) -> (r: Vec<(usize, Vec<usize>)>)
    requires
        forall|j: int, k: int|
            0 <= j < crossed@.len() && 0 <= k < crossed@[j]@.len() ==> (
            #[trigger] crossed@[j]@[k]) < edges,
    ensures
        links_of(r@) == edge_links(lists(crossed@)),
{
    let ghost rows = lists(crossed@);
    let mut slots: Vec<Option<usize>> = Vec::new();
    let mut e: usize = 0;
    while e < edges
        invariant
            e <= edges,
            slots@.len() == e,
            forall|m: int| 0 <= m < e ==> #[trigger] slots@[m] is None,
        decreases edges - e,
    {
        slots.push(None);
        e += 1;
    }
    let mut table = LinkTable { links: Vec::new(), slots };
    let mut j: usize = 0;
    assert(links_of(table.links@) =~= edge_links(rows.take(0)));
    while j < crossed.len()
        invariant
            j <= crossed@.len(),
            rows == lists(crossed@),
            table.wf(),
            table.slots@.len() == edges,
            forall|j: int, k: int|
                0 <= j < crossed@.len() && 0 <= k < crossed@[j]@.len() ==> (
                #[trigger] crossed@[j]@[k]) < edges,
            links_of(table.links@) == edge_links(rows.take(j as int)),
        decreases crossed@.len() - j,
    {
        let row = &crossed[j];
        let ghost before = links_of(table.links@);
        let mut k: usize = 0;
        assert(row@.take(0) =~= Seq::empty());
        while k < row.len()
            invariant
                k <= row@.len(),
                j < crossed@.len(),
                row == crossed@[j as int],
                table.wf(),
                table.slots@.len() == edges,
                forall|j: int, k: int|
                    0 <= j < crossed@.len() && 0 <= k < crossed@[j]@.len() ==> (
                    #[trigger] crossed@[j]@[k]) < edges,
                links_of(table.links@) == note_all(before, row@.take(k as int), j),
            decreases row@.len() - k,
        {
            assert(crossed@[j as int]@[k as int] < edges);
            table.note(row[k], j);
            assert(row@.take(k + 1).drop_last() =~= row@.take(k as int));
            k += 1;
        }
        proof {
            assert(row@.take(k as int) =~= row@);
            assert(rows.take(j + 1).drop_last() =~= rows.take(j as int));
            assert(rows.take(j + 1).last() == row@);
        }
        j += 1;
    }
    assert(rows.take(j as int) =~= rows);
    table.links
}

/// The links say that the path crosses the edge.
pub open spec fn tells(links: Seq<Link>, edge: usize, path: usize) -> bool {
    exists|m: int|
        0 <= m < links.len() && (#[trigger] links[m]).0 == edge && links[m].1.contains(path)
}

/// No edge has two links.
pub open spec fn single(links: Seq<Link>) -> bool {
    forall|m: int, n: int|
        #![trigger links[m], links[n]]
        0 <= m < n < links.len() ==> links[m].0 != links[n].0
}

proof fn lemma_note(links: Seq<Link>, edge: usize, path: usize, e: usize, p: usize)
    requires
        single(links),
    ensures
        single(note(links, edge, path)),
        tells(note(links, edge, path), e, p) <==> tells(links, e, p) || (e == edge && p == path),
{
    let now = note(links, edge, path);
    lemma_place_of(links, edge);
    match place_of(links, edge) {
        Some(m) => {
            let paths = links[m].1;
            lemma_push_contains(paths, path, p);
            if tells(links, e, p) {
                let n = choose|n: int|
                    0 <= n < links.len() && (#[trigger] links[n]).0 == e && links[n].1.contains(p);
                assert(now[n].0 == e && now[n].1.contains(p));
            }
            if tells(now, e, p) {
                let n = choose|n: int|
                    0 <= n < now.len() && (#[trigger] now[n]).0 == e && now[n].1.contains(p);
                assert(links[n].0 == now[n].0);
            }
            if e == edge && p == path {
                assert(now[m].0 == e && now[m].1.contains(p));
            }
            assert forall|a: int, b: int|
                #![trigger now[a], now[b]]
                0 <= a < b < now.len() implies now[a].0 != now[b].0 by {
                assert(links[a].0 != links[b].0);
            }
        },
        None => {
            assert(seq![path][0] == path);
            if tells(links, e, p) {
                let n = choose|n: int|
                    0 <= n < links.len() && (#[trigger] links[n]).0 == e && links[n].1.contains(p);
                assert(now[n].0 == e && now[n].1.contains(p));
            }
            if tells(now, e, p) {
                let n = choose|n: int|
                    0 <= n < now.len() && (#[trigger] now[n]).0 == e && now[n].1.contains(p);
                if n < links.len() {
                    assert(links[n].0 == e && links[n].1.contains(p));
                }
            }
            if e == edge && p == path {
                assert(now[links.len() as int].0 == e && now[links.len() as int].1.contains(p));
            }
            assert forall|a: int, b: int|
                #![trigger now[a], now[b]]
                0 <= a < b < now.len() implies now[a].0 != now[b].0 by {
                if b < links.len() {
                    assert(links[a].0 != links[b].0);
                } else {
                    assert(links[a].0 != edge);
                }
            }
        },
    }
}

proof fn lemma_note_all(links: Seq<Link>, edges: Seq<usize>, path: usize, e: usize, p: usize)
    requires
        single(links),
    ensures
        single(note_all(links, edges, path)),
        tells(note_all(links, edges, path), e, p) <==> tells(links, e, p) || (p == path
            && edges.contains(e)),
    decreases edges.len(),
{
    if edges.len() > 0 {
        let rest = edges.drop_last();
        lemma_note_all(links, rest, path, e, p);
        lemma_note(note_all(links, rest, path), edges.last(), path, e, p);
        assert(edges =~= rest.push(edges.last()));
        lemma_push_contains(rest, edges.last(), e);
    }
}

/// The links between paths and edges are the same from both sides: an edge lists a
/// path if and only if the path crosses the edge, and every edge that is crossed is
/// listed once.
pub proof fn law_links_mirror(crossed: Seq<Seq<usize>>, edge: usize, path: usize)
    requires
        crossed.len() <= usize::MAX,
    ensures
        single(edge_links(crossed)),
        tells(edge_links(crossed), edge, path) <==> path < crossed.len()
            && crossed[path as int].contains(edge),
    decreases crossed.len(),
{
    if crossed.len() > 0 {
        let rest = crossed.drop_last();
        law_links_mirror(rest, edge, path);
        lemma_note_all(
            edge_links(rest),
            crossed.last(),
            (crossed.len() - 1) as usize,
            edge,
            path,
        );
        if path < rest.len() {
            assert(rest[path as int] == crossed[path as int]);
        }
    }
}

/// How often the links list a path with an edge.
pub open spec fn told(links: Seq<Link>, edge: usize, path: usize) -> nat {
    match place_of(links, edge) {
        Some(m) => links[m].1.to_multiset().count(path),
        None => 0,
    }
}

proof fn lemma_note_told(links: Seq<Link>, edge: usize, path: usize, e: usize, p: usize)
    ensures
        told(note(links, edge, path), e, p) == told(links, e, p) + if e == edge && p == path {
            1nat
        } else {
            0
        },
{
    broadcast use to_multiset_build;

    let now = note(links, edge, path);
    lemma_place_of(links, edge);
    lemma_place_of(links, e);
    match place_of(links, edge) {
        Some(m) => {
            lemma_place_stays(links, m, links[m].1.push(path), e);
        },
        None => {
            assert(now.drop_last() =~= links);
            assert(seq![path] =~= Seq::<usize>::empty().push(path));
            assert(Seq::<usize>::empty().to_multiset().count(p) == 0) by {
                broadcast use to_multiset_contains;

                assert(!Seq::<usize>::empty().contains(p));
            }
        },
    }
}

proof fn lemma_note_all_told(links: Seq<Link>, edges: Seq<usize>, path: usize, e: usize, p: usize)
    ensures
        told(note_all(links, edges, path), e, p) == told(links, e, p) + if p == path {
            edges.to_multiset().count(e)
        } else {
            0
        },
    decreases edges.len(),
{
    broadcast use to_multiset_build;

    if edges.len() > 0 {
        let rest = edges.drop_last();
        lemma_note_all_told(links, rest, path, e, p);
        lemma_note_told(note_all(links, rest, path), edges.last(), path, e, p);
        assert(edges =~= rest.push(edges.last()));
    } else {
        assert(edges.to_multiset().count(e) == 0) by {
            broadcast use to_multiset_contains;

            assert(!edges.contains(e));
        }
    }
}

/// An edge lists a path as often as the path crosses it.
pub proof fn law_links_count_crossings(crossed: Seq<Seq<usize>>, edge: usize, path: usize)
    requires
        crossed.len() <= usize::MAX,
    ensures
        told(edge_links(crossed), edge, path) == if path < crossed.len() {
            crossed[path as int].to_multiset().count(edge)
        } else {
            0
        },
    decreases crossed.len(),
{
    if crossed.len() > 0 {
        let rest = crossed.drop_last();
        law_links_count_crossings(rest, edge, path);
        lemma_note_all_told(
            edge_links(rest),
            crossed.last(),
            (crossed.len() - 1) as usize,
            edge,
            path,
        );
        if path < rest.len() {
            assert(rest[path as int] == crossed[path as int]);
        }
    }
}

/// Where there is an edge between each two cells that a route visits in turn, the
/// route crosses one edge for each step, and it is the edge of that step.
pub proof fn law_every_step_crosses_an_edge(pairs: Seq<(usize, usize)>, cells: Seq<usize>)
    requires
        pairs.len() <= usize::MAX,
        forall|i: int|
            #![trigger cells[i]]
            0 <= i < cells.len() - 1 ==> pairs.contains(ordered(cells[i], cells[i + 1])),
    ensures
        cells.len() > 0 ==> crossed_edges(pairs, cells).len() == cells.len() - 1,
        forall|i: int|
            0 <= i < crossed_edges(pairs, cells).len() ==> pairs[(#[trigger] crossed_edges(
                pairs,
                cells,
            )[i]) as int] == ordered(cells[i], cells[i + 1]),
    decreases cells.len(),
{
    if cells.len() >= 2 {
        let rest = cells.drop_last();
        assert forall|i: int|
            #![trigger rest[i]]
            0 <= i < rest.len() - 1 implies pairs.contains(ordered(rest[i], rest[i + 1])) by {
            assert(cells[i] == rest[i]);
        }
        law_every_step_crosses_an_edge(pairs, rest);
        let i = cells.len() - 2;
        assert(pairs.contains(ordered(cells[i], cells[i + 1])));
        lemma_find_edge(pairs, ordered(cells[i], cells[i + 1]));
        assert forall|j: int| 0 <= j < crossed_edges(pairs, cells).len() implies pairs[(
        #[trigger] crossed_edges(pairs, cells)[j]) as int] == ordered(cells[j], cells[j + 1]) by {
            if j < crossed_edges(pairs, rest).len() {
                assert(crossed_edges(pairs, rest)[j] == crossed_edges(pairs, cells)[j]);
                assert(rest[j] == cells[j] && rest[j + 1] == cells[j + 1]);
            }
        }
    }
}

/// Every link is between an edge below `edges` and paths below `paths`.
spec fn bounded(links: Seq<Link>, edges: nat, paths: nat) -> bool {
    forall|m: int|
        #![trigger links[m]]
        0 <= m < links.len() ==> links[m].0 < edges && forall|x: int|
            0 <= x < links[m].1.len() ==> (#[trigger] links[m].1[x]) < paths
}

proof fn lemma_note_all_bounded(
    links: Seq<Link>,
    row: Seq<usize>,
    path: usize,
    edges: nat,
    paths: nat,
)
    requires
        bounded(links, edges, paths),
        forall|x: int| 0 <= x < row.len() ==> (#[trigger] row[x]) < edges,
        path < paths,
    ensures
        bounded(note_all(links, row, path), edges, paths),
    decreases row.len(),
{
    if row.len() > 0 {
        lemma_note_all_bounded(links, row.drop_last(), path, edges, paths);
        let before = note_all(links, row.drop_last(), path);
        let now = note_all(links, row, path);
        let edge = row.last();
        assert(row[row.len() - 1] == edge);
        lemma_place_of(before, edge);
        assert forall|m: int|
            #![trigger now[m]]
            0 <= m < now.len() implies now[m].0 < edges && forall|x: int|
            0 <= x < now[m].1.len() ==> (#[trigger] now[m].1[x]) < paths by {
            if m < before.len() {
                assert(before[m].0 < edges);
                assert forall|x: int| 0 <= x < now[m].1.len() implies (#[trigger] now[m].1[x])
                    < paths by {
                    if x < before[m].1.len() {
                        assert(before[m].1[x] < paths);
                    }
                }
            }
        }
    }
}

/// Links are between edges that are crossed and paths that cross them.
pub proof fn lemma_edge_links(crossed: Seq<Seq<usize>>, edges: nat)
    requires
        crossed.len() <= usize::MAX,
        forall|j: int, x: int|
            0 <= j < crossed.len() && 0 <= x < crossed[j].len() ==> (#[trigger] crossed[j][x])
                < edges,
    ensures
        forall|m: int|
            #![trigger edge_links(crossed)[m]]
            0 <= m < edge_links(crossed).len() ==> edge_links(crossed)[m].0 < edges && forall|
                x: int,
            |
                0 <= x < edge_links(crossed)[m].1.len() ==> (#[trigger] edge_links(
                    crossed,
                )[m].1[x]) < crossed.len(),
{
    lemma_edge_links_bounded(crossed, edges, crossed.len());
}

proof fn lemma_edge_links_bounded(crossed: Seq<Seq<usize>>, edges: nat, paths: nat)
    requires
        crossed.len() <= paths <= usize::MAX,
        forall|j: int, x: int|
            0 <= j < crossed.len() && 0 <= x < crossed[j].len() ==> (#[trigger] crossed[j][x])
                < edges,
    ensures
        bounded(edge_links(crossed), edges, paths),
    decreases crossed.len(),
{
    if crossed.len() > 0 {
        let rest = crossed.drop_last();
        assert forall|j: int, x: int|
            0 <= j < rest.len() && 0 <= x < rest[j].len() implies (#[trigger] rest[j][x])
            < edges by {
            assert(crossed[j][x] < edges);
        }
        lemma_edge_links_bounded(rest, edges, paths);
        let row = crossed.last();
        assert forall|x: int| 0 <= x < row.len() implies (#[trigger] row[x]) < edges by {
            assert(crossed[crossed.len() - 1][x] < edges);
        }
        lemma_note_all_bounded(
            edge_links(rest),
            row,
            (crossed.len() - 1) as usize,
            edges,
            paths,
        );
    }
}

/// On a map whose connections walk from neighbour to neighbour, every path crosses one
/// edge for each of its steps, and these are the walls between the cells that it
/// visits.
pub proof fn law_paths_cross_walls(
    diagram: &Diagram,
    chosen: Chosen,
    s: int,
    i: int,
    k: int,
)
    requires
        diagram.meshed(),
        diagram.graph().len() <= usize::MAX,
        wall_pairs(diagram).len() <= usize::MAX,
        diagram.walled(),
        chosen.linked(diagram.graph()),
        chosen.has_route(s, i, k),
    ensures
        ({
            let pairs = wall_pairs(diagram);
            let cells = chosen.visits(s, i, k);
            let crossed = crossed_edges(pairs, cells);
            &&& crossed.len() == cells.len() - 1
            &&& forall|x: int|
                0 <= x < crossed.len() ==> pairs[(#[trigger] crossed[x]) as int] == ordered(
                    cells[x],
                    cells[x + 1],
                )
        }),
{
    let cells = chosen.visits(s, i, k);
    law_walks_follow_edges(diagram, cells);
    law_every_step_crosses_an_edge(wall_pairs(diagram), cells);
}

/// The paths of a link do not fall, and none of them is `upto` or later.
spec fn climbs(links: Seq<Link>, upto: int) -> bool {
    &&& forall|m: int, x: int|
        0 <= m < links.len() && 0 <= x < links[m].1.len() ==> (#[trigger] links[m].1[x]) < upto
    &&& forall|m: int, x: int, y: int|
        0 <= m < links.len() && 0 <= x < y < links[m].1.len() ==> (#[trigger] links[m].1[x]) <= (
        #[trigger] links[m].1[y])
}

proof fn lemma_note_climbs(links: Seq<Link>, edge: usize, path: usize)
    requires
        climbs(links, path + 1),
    ensures
        climbs(note(links, edge, path), path + 1),
{
    let now = note(links, edge, path);
    lemma_place_of(links, edge);
    assert forall|m: int, x: int| 0 <= m < now.len() && 0 <= x < now[m].1.len() implies (
    #[trigger] now[m].1[x]) < path + 1 by {
        if m < links.len() && x < links[m].1.len() {
            assert(now[m].1[x] == links[m].1[x]);
        }
    }
    assert forall|m: int, x: int, y: int|
        0 <= m < now.len() && 0 <= x < y < now[m].1.len() implies (#[trigger] now[m].1[x]) <= (
    #[trigger] now[m].1[y]) by {
        assert(m < links.len());
        assert(now[m].1[x] == links[m].1[x]);
        if y < links[m].1.len() {
            assert(now[m].1[y] == links[m].1[y]);
        } else {
            assert(links[m].1[x] < path + 1);
        }
    }
}

proof fn lemma_note_all_climbs(links: Seq<Link>, edges: Seq<usize>, path: usize)
    requires
        climbs(links, path + 1),
    ensures
        climbs(note_all(links, edges, path), path + 1),
    decreases edges.len(),
{
    if edges.len() > 0 {
        lemma_note_all_climbs(links, edges.drop_last(), path);
        lemma_note_climbs(note_all(links, edges.drop_last(), path), edges.last(), path);
    }
}

proof fn lemma_links_climb(crossed: Seq<Seq<usize>>)
    requires
        crossed.len() <= usize::MAX,
    ensures
        climbs(edge_links(crossed), crossed.len() as int),
    decreases crossed.len(),
{
    if crossed.len() > 0 {
        let rest = crossed.drop_last();
        lemma_links_climb(rest);
        let path = (crossed.len() - 1) as usize;
        lemma_note_all_climbs(edge_links(rest), crossed.last(), path);
    }
}

/// An edge lists the paths that cross it in their order.
pub proof fn law_an_edge_lists_its_paths_in_order(
    crossed: Seq<Seq<usize>>,
    m: int,
    x: int,
    y: int,
)
    requires
        crossed.len() <= usize::MAX,
        0 <= m < edge_links(crossed).len(),
        0 <= x < y < edge_links(crossed)[m].1.len(),
    ensures
        edge_links(crossed)[m].1[x] <= edge_links(crossed)[m].1[y] < crossed.len(),
{
    lemma_links_climb(crossed);
}

/// One link comes before another: its edge is crossed first, by an earlier path or
/// earlier on the same path.
pub open spec fn crossed_first(crossed: Seq<Seq<usize>>, a: Link, b: Link) -> bool {
    a.1[0] < b.1[0] || (a.1[0] == b.1[0] && comes_before(crossed[a.1[0] as int], a.0, b.0))
}

/// What holds of the links of the first `p` paths and the first `k` crossings of the
/// next one.
spec fn met(crossed: Seq<Seq<usize>>, links: Seq<Link>, p: int, k: int) -> bool {
    &&& forall|m: int|
        0 <= m < links.len() ==> (#[trigger] links[m]).1.len() > 0 && links[m].1[0] <= p && (
        links[m].1[0] == p ==> exists|x: int| 0 <= x < k && #[trigger] crossed[p][x] == links[m].0)
    &&& forall|y: int| 0 <= y < k ==> place_of(links, #[trigger] crossed[p][y]) is Some
    &&& forall|m: int, n: int|
        0 <= m < n < links.len() ==> crossed_first(
            crossed,
            #[trigger] links[m],
            #[trigger] links[n],
        )
}

proof fn lemma_note_keeps_places(links: Seq<Link>, edge: usize, path: usize, e: usize)
    ensures
        place_of(links, e) is Some ==> place_of(note(links, edge, path), e) is Some,
        place_of(note(links, edge, path), edge) is Some,
{
    let now = note(links, edge, path);
    lemma_place_of(links, e);
    lemma_place_of(links, edge);
    lemma_place_of(now, e);
    lemma_place_of(now, edge);
    if let Some(m) = place_of(links, e) {
        assert(now[m].0 == e);
    }
    if let Some(m) = place_of(links, edge) {
        assert(now[m].0 == edge);
    } else {
        assert(now[links.len() as int].0 == edge);
    }
}

proof fn lemma_row_met(crossed: Seq<Seq<usize>>, links: Seq<Link>, p: int, k: int)
    requires
        crossed.len() <= usize::MAX,
        0 <= p < crossed.len(),
        0 <= k <= crossed[p].len(),
        met(crossed, links, p, 0),
    ensures
        met(crossed, note_all(links, crossed[p].take(k), p as usize), p, k),
    decreases k,
{
    let row = crossed[p];
    if k > 0 {
        let j = k - 1;
        lemma_row_met(crossed, links, p, j);
        assert(row.take(k).drop_last() =~= row.take(j));
        let before = note_all(links, row.take(j), p as usize);
        let edge = row[j];
        assert(row.take(k).last() == edge);
        let now = note(before, edge, p as usize);
        lemma_place_of(before, edge);
        assert forall|y: int| 0 <= y < k implies place_of(
            now,
            #[trigger] crossed[p][y],
        ) is Some by {
            lemma_note_keeps_places(before, edge, p as usize, crossed[p][y]);
        }
        assert forall|m: int| 0 <= m < now.len() implies (#[trigger] now[m]).1.len() > 0
            && now[m].1[0] <= p && (now[m].1[0] == p ==> exists|x: int|
            0 <= x < k && #[trigger] crossed[p][x] == now[m].0) by {
            if m < before.len() {
                assert(now[m].0 == before[m].0);
                assert(now[m].1[0] == before[m].1[0]);
                if before[m].1[0] == p {
                    let x = choose|x: int| 0 <= x < j && #[trigger] crossed[p][x] == before[m].0;
                    assert(crossed[p][x] == now[m].0);
                }
            } else {
                assert(crossed[p][j] == edge);
            }
        }
        assert forall|m: int, n: int| 0 <= m < n < now.len() implies crossed_first(
            crossed,
            #[trigger] now[m],
            #[trigger] now[n],
        ) by {
            assert(m < before.len());
            assert(now[m].0 == before[m].0 && now[m].1[0] == before[m].1[0]);
            if n < before.len() {
                assert(now[n].0 == before[n].0 && now[n].1[0] == before[n].1[0]);
                assert(crossed_first(crossed, before[m], before[n]));
            } else {
                assert(now[n] == (edge, seq![p as usize]));
                if before[m].1[0] == p {
                    let x = choose|x: int| 0 <= x < j && #[trigger] crossed[p][x] == before[m].0;
                    assert forall|y: int| 0 <= y <= x implies #[trigger] crossed[p][y] != edge by {
                        assert(place_of(before, crossed[p][y]) is Some);
                    }
                    assert(comes_before(crossed[p], before[m].0, edge));
                }
            }
        }
    } else {
        assert(row.take(0) =~= Seq::<usize>::empty());
    }
}

proof fn lemma_links_met(crossed: Seq<Seq<usize>>, n: int)
    requires
        crossed.len() <= usize::MAX,
        0 <= n < crossed.len(),
    ensures
        met(crossed, edge_links(crossed.take(n)), n, 0),
    decreases n,
{
    if n > 0 {
        let p = n - 1;
        lemma_links_met(crossed, p);
        let k = crossed[p].len() as int;
        lemma_row_met(crossed, edge_links(crossed.take(p)), p, k);
        assert(crossed[p].take(k) =~= crossed[p]);
        assert(crossed.take(n).drop_last() =~= crossed.take(p));
        assert(crossed.take(n).last() == crossed[p]);
    }
}

/// Edges are told of their paths in the order in which they are first crossed.
pub proof fn law_edges_come_as_they_are_first_crossed(crossed: Seq<Seq<usize>>, m: int, n: int)
    requires
        crossed.len() <= usize::MAX,
        0 <= m < n < edge_links(crossed).len(),
    ensures
        edge_links(crossed)[m].1.len() > 0,
        edge_links(crossed)[n].1.len() > 0,
        crossed_first(crossed, edge_links(crossed)[m], edge_links(crossed)[n]),
{
    let p = crossed.len() - 1;
    assert(crossed.len() > 0);
    lemma_links_met(crossed, p);
    let k = crossed[p].len() as int;
    lemma_row_met(crossed, edge_links(crossed.take(p)), p, k);
    assert(crossed[p].take(k) =~= crossed[p]);
    assert(crossed.drop_last() =~= crossed.take(p));
    assert(crossed.last() == crossed[p]);
}

} // verus!
