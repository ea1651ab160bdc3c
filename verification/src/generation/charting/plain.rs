//! What is charted, told by the diagram and the routes.

use super::{
    all_pairs, distinct, is_walked, leads_over, lemma_all_pairs, lemma_all_pairs_part,
    lemma_distinct, lemma_wall_pairs, point_heights, row_pairs, steps_over, wall_heights,
    wall_pairs, walked_pairs,
};
use crate::generation::crossing::arrival_lists;
use crate::generation::reach::plain::{after, comes_before};
use crate::generation::selection::{route_lists, Chosen};
use crate::generation::voronoi::walls::{law_a_wall_joins_the_first_common_corners, share_two};
use crate::generation::voronoi::{wall, Diagram};
use crate::generation::{routes_of, EdgeData, PathRoute};
use crate::geometry::PointBits;
use crate::graph::{chain, in_range, linked, ordered};
use crate::sequences::{lemma_filter, lemma_push_contains};
use vstd::prelude::*;

verus! {

/// Which walls are charted: those between two cells one of which lists the other, and
/// which have two corners in common; each once, the lower cell first.
pub proof fn law_the_chart_holds_the_walls_between_neighbors(
    diagram: &Diagram,
    a: usize,
    b: usize,
)
    requires
        diagram.meshed(),
        diagram.neighbors@.len() <= usize::MAX,
        a < diagram.neighbors@.len(),
        b < diagram.neighbors@.len(),
    ensures
        wall_pairs(diagram).no_duplicates(),
        wall_pairs(diagram).contains((a, b)) <==> a <= b && (
        diagram.neighbors@[a as int]@.contains(b) || diagram.neighbors@[b as int]@.contains(a))
            && share_two(
            diagram.cell_vertex_indices@[a as int]@,
            diagram.cell_vertex_indices@[b as int]@,
        ),
{
    let graph = diagram.graph();
    let all = all_pairs(graph);
    let keep = |p: (usize, usize)| wall(diagram, p.0 as int, p.1 as int) is Some;
    assert(graph[a as int] == diagram.neighbors@[a as int]@);
    assert(graph[b as int] == diagram.neighbors@[b as int]@);
    lemma_distinct(all);
    lemma_filter(distinct(all), keep);
    law_a_wall_joins_the_first_common_corners(diagram, a as int, b as int);
    lemma_all_pairs(graph, a, b);
    lemma_all_pairs(graph, b, a);
    assert(wall_pairs(diagram).contains((a, b)) <==> distinct(all).contains((a, b)) && keep((a, b)));
    lemma_wall_pairs(diagram);
    if wall_pairs(diagram).contains((a, b)) {
        let k = choose|k: int|
            0 <= k < wall_pairs(diagram).len() && wall_pairs(diagram)[k] == (a, b);
        assert(wall_pairs(diagram)[k] == (a, b));
    }
}

/// One pair of cells is charted before another: by the lower cell, and then as its
/// neighbours are listed.
pub open spec fn charted_before(
    graph: Seq<Seq<usize>>,
    p: (usize, usize),
    q: (usize, usize),
) -> bool {
    p.0 < q.0 || (p.0 == q.0 && comes_before(graph[p.0 as int], p.1, q.1))
}

/// What holds of the pairs of the first `n` cells and the first `k` neighbours of the
/// next one.
spec fn in_chart_order(graph: Seq<Seq<usize>>, pairs: Seq<(usize, usize)>, n: int, k: int) -> bool {
    &&& forall|i: int|
        0 <= i < pairs.len() ==> (#[trigger] pairs[i]).0 <= n && (pairs[i].0 == n ==> exists|x: int|
            0 <= x < k && #[trigger] graph[n][x] == pairs[i].1)
    &&& forall|i: int, j: int|
        0 <= i < j < pairs.len() ==> charted_before(
            graph,
            #[trigger] pairs[i],
            #[trigger] pairs[j],
        )
}

proof fn lemma_row_in_order(graph: Seq<Seq<usize>>, n: int, k: int)
    requires
        in_range(graph),
        graph.len() <= usize::MAX,
        0 <= n < graph.len(),
        0 <= k <= graph[n].len(),
        forall|a: usize, b: usize|
            a < graph.len() && b < graph.len() && #[trigger] linked(graph, a, b) ==> a != b
                && linked(graph, b, a),
        in_chart_order(graph, distinct(all_pairs(graph.take(n))), n, 0),
    ensures
        in_chart_order(
            graph,
            distinct(all_pairs(graph.take(n)) + row_pairs(n as usize, graph[n]).take(k)),
            n,
            k,
        ),
        forall|x: int|
            0 <= x < k && (#[trigger] graph[n][x]) > n ==> distinct(
                all_pairs(graph.take(n)) + row_pairs(n as usize, graph[n]).take(k),
            ).contains((n as usize, graph[n][x])),
    decreases k,
{
    let head = all_pairs(graph.take(n));
    let row = row_pairs(n as usize, graph[n]);
    let now = head + row.take(k);
    if k == 0 {
        assert(now =~= head);
    } else {
        let m = k - 1;
        lemma_row_in_order(graph, n, m);
        let less = head + row.take(m);
        assert(now.drop_last() =~= less);
        let before = distinct(less);
        let j = graph[n][m];
        let pair = ordered(n as usize, j);
        assert(now.last() == pair);
        assert(j < graph.len());
        assert(graph[n].contains(j));
        assert(linked(graph, n as usize, j));
        lemma_distinct(less);
        lemma_distinct(now);
        if j < n {
            assert(linked(graph, j, n as usize));
            lemma_all_pairs_part(graph, n as nat, j, n as usize);
            assert(head.contains(pair));
            let i = choose|i: int| 0 <= i < head.len() && head[i] == pair;
            assert(less[i] == pair);
            assert(less.contains(pair));
            assert(before.contains(pair));
        }
        let all = distinct(now);
        assert forall|i: int| 0 <= i < all.len() implies (#[trigger] all[i]).0 <= n && (all[i].0
            == n ==> exists|x: int| 0 <= x < k && #[trigger] graph[n][x] == all[i].1) by {
            if i < before.len() {
                assert(all[i] == before[i]);
                if before[i].0 == n {
                    let x = choose|x: int| 0 <= x < m && #[trigger] graph[n][x] == before[i].1;
                    assert(graph[n][x] == all[i].1);
                }
            } else {
                assert(all[i] == pair);
                assert(graph[n][m] == j);
            }
        }
        assert forall|x: int| 0 <= x < k && (#[trigger] graph[n][x]) > n implies all.contains(
            (n as usize, graph[n][x]),
        ) by {
            if x < m {
                assert(before.contains((n as usize, graph[n][x])));
                lemma_push_contains(before, pair, (n as usize, graph[n][x]));
            } else {
                lemma_push_contains(before, pair, pair);
            }
        }
        assert forall|a: int, b: int| 0 <= a < b < all.len() implies charted_before(
            graph,
            #[trigger] all[a],
            #[trigger] all[b],
        ) by {
            assert(all[a] == before[a]);
            if b < before.len() {
                assert(all[b] == before[b]);
            } else {
                assert(all[b] == pair);
                assert(pair == (n as usize, j));
                if before[a].0 == n {
                    let x = choose|x: int| 0 <= x < m && #[trigger] graph[n][x] == before[a].1;
                    assert forall|y: int| 0 <= y <= x implies #[trigger] graph[n][y] != j by {
                        if graph[n][y] == j {
                            assert(before.contains((n as usize, graph[n][y])));
                        }
                    }
                    assert(comes_before(graph[n], before[a].1, j));
                }
            }
        }
    }
}

proof fn lemma_chart_in_order(graph: Seq<Seq<usize>>, n: int)
    requires
        in_range(graph),
        graph.len() <= usize::MAX,
        0 <= n <= graph.len(),
        forall|a: usize, b: usize|
            a < graph.len() && b < graph.len() && #[trigger] linked(graph, a, b) ==> a != b
                && linked(graph, b, a),
    ensures
        in_chart_order(graph, distinct(all_pairs(graph.take(n))), n, 0),
    decreases n,
{
    if n > 0 {
        let m = n - 1;
        lemma_chart_in_order(graph, m);
        let k = graph[m].len() as int;
        lemma_row_in_order(graph, m, k);
        let row = row_pairs(m as usize, graph[m]);
        assert(row.take(k) =~= row);
        assert(graph.take(n).drop_last() =~= graph.take(m));
        assert(graph.take(n).last() == graph[m]);
        assert(all_pairs(graph.take(n)) =~= all_pairs(graph.take(m)) + row.take(k));
    }
}

/// What comes first in a list comes first in what a filter keeps of it.
proof fn lemma_filter_order(
    s: Seq<(usize, usize)>,
    keep: spec_fn((usize, usize)) -> bool,
    k: int,
    l: int,
) -> (places: (int, int))
    requires
        0 <= k < l < s.filter(keep).len(),
    ensures
        0 <= places.0 < places.1 < s.len(),
        s[places.0] == s.filter(keep)[k],
        s[places.1] == s.filter(keep)[l],
    decreases s.len(),
{
    reveal(Seq::filter);
    let rest = s.drop_last();
    let before = rest.filter(keep);
    if l < before.len() {
        lemma_filter_order(rest, keep, k, l)
    } else {
        lemma_filter(rest, keep);
        assert(before.contains(before[k]));
        assert(rest.contains(before[k]));
        let i = choose|i: int| 0 <= i < rest.len() && rest[i] == before[k];
        (i, s.len() - 1)
    }
}

/// Walls are charted in the order of their lower cells, and those of one cell in the
/// order in which its neighbours are listed.
pub proof fn law_walls_are_charted_in_order(diagram: &Diagram, k: int, l: int)
    requires
        diagram.meshed(),
        diagram.walled(),
        diagram.graph().len() <= usize::MAX,
        0 <= k < l < wall_pairs(diagram).len(),
    ensures
        charted_before(diagram.graph(), wall_pairs(diagram)[k], wall_pairs(diagram)[l]),
{
    let graph = diagram.graph();
    let all = distinct(all_pairs(graph));
    let keep = |p: (usize, usize)| wall(diagram, p.0 as int, p.1 as int) is Some;
    assert forall|a: usize, b: usize|
        a < graph.len() && b < graph.len() && #[trigger] linked(graph, a, b) implies a != b
        && linked(graph, b, a) by {}
    lemma_chart_in_order(graph, graph.len() as int);
    assert(graph.take(graph.len() as int) =~= graph);
    let (i, j) = lemma_filter_order(all, keep, k, l);
    assert(charted_before(graph, all[i], all[j]));
}

/// Which pairs of cells the routes lead over: those of the steps of each route, from its
/// stop through the cells between to the stop that it leads to.
pub proof fn law_walked_pairs_are_the_steps_of_the_routes(chosen: Chosen, pair: (usize, usize))
    ensures
        walked_pairs(chosen).contains(pair) <==> pair.0 <= pair.1 && exists|
            s: int,
            i: int,
            k: int,
            x: int,
        | #[trigger]
            step_of(chosen, s, i, k, x, pair),
{
    if is_walked(chosen, pair) {
        let (s, i, k) = choose|s: int, i: int, k: int| #[trigger]
            chosen.has_route(s, i, k) && leads_over(chosen.visits(s, i, k), pair);
        let x = choose|x: int| #[trigger] steps_over(chosen.visits(s, i, k), x, pair);
        let (target, path) = chosen.connections[s][i][k];
        lemma_chain(chosen.levels[s][i], path, chosen.levels[s + 1][target as int], x);
        lemma_chain(chosen.levels[s][i], path, chosen.levels[s + 1][target as int], x + 1);
        assert(step_of(chosen, s, i, k, x, pair));
    }
    if pair.0 <= pair.1 && exists|s: int, i: int, k: int, x: int| #[trigger]
        step_of(chosen, s, i, k, x, pair) {
        let (s, i, k, x) = choose|s: int, i: int, k: int, x: int| #[trigger]
            step_of(chosen, s, i, k, x, pair);
        let (target, path) = chosen.connections[s][i][k];
        lemma_chain(chosen.levels[s][i], path, chosen.levels[s + 1][target as int], x);
        lemma_chain(chosen.levels[s][i], path, chosen.levels[s + 1][target as int], x + 1);
        assert(chosen.has_route(s, i, k));
        assert(steps_over(chosen.visits(s, i, k), x, pair));
        assert(leads_over(chosen.visits(s, i, k), pair));
    }
}

/// Step `x` of a route leads from one cell of the pair to the other.
pub open spec fn step_of(
    chosen: Chosen,
    s: int,
    i: int,
    k: int,
    x: int,
    pair: (usize, usize),
) -> bool {
    &&& 0 <= s < chosen.connections.len()
    &&& 0 <= i < chosen.connections[s].len()
    &&& 0 <= k < chosen.connections[s][i].len()
    &&& 0 <= x <= chosen.connections[s][i][k].1.len()
    &&& ({
        let (target, path) = chosen.connections[s][i][k];
        let from = after(chosen.levels[s][i], path, chosen.levels[s + 1][target as int], x);
        let to = after(chosen.levels[s][i], path, chosen.levels[s + 1][target as int], x + 1);
        pair == (from, to) || pair == (to, from)
    })
}

proof fn lemma_chain(from: usize, path: Seq<usize>, to: usize, x: int)
    requires
        0 <= x <= path.len() + 1,
    ensures
        chain(from, path, to).len() == path.len() + 2,
        chain(from, path, to)[x] == after(from, path, to, x),
{
}

/// The heights of the stops come stage by stage and stop by stop.
pub proof fn law_each_stop_has_its_height(points: Seq<Seq<PointBits>>)
    ensures
        point_heights(points) == points.map_values(
            |row: Seq<PointBits>| row.map_values(|p: PointBits| p.y),
        ).flatten(),
    decreases points.len(),
{
    let turn = |row: Seq<PointBits>| row.map_values(|p: PointBits| p.y);
    let all = points.map_values(turn);
    all.lemma_flatten_and_flatten_alt_are_equivalent();
    if points.len() == 0 {
        assert(all =~= Seq::<Seq<u32>>::empty());
    } else {
        let rest = points.drop_last();
        law_each_stop_has_its_height(rest);
        assert(all.drop_last() =~= rest.map_values(turn));
        rest.map_values(turn).lemma_flatten_and_flatten_alt_are_equivalent();
        assert(all.last() == turn(points.last()));
    }
}

/// Each wall that a route leads through has the heights of both its ends, in the order
/// of the walls; other walls have none.
pub proof fn law_each_walked_wall_has_its_heights(
    edges: Seq<EdgeData>,
    walked: Set<(usize, usize)>,
)
    ensures
        wall_heights(edges, walked) == edges.filter(
            |e: EdgeData| walked.contains(e.cells),
        ).map_values(|e: EdgeData| seq![e.wall@[0].y, e.wall@[1].y]).flatten(),
    decreases edges.len(),
{
    reveal(Seq::filter);
    let keep = |e: EdgeData| walked.contains(e.cells);
    let turn = |e: EdgeData| seq![e.wall@[0].y, e.wall@[1].y];
    let all = edges.filter(keep).map_values(turn);
    all.lemma_flatten_and_flatten_alt_are_equivalent();
    if edges.len() == 0 {
        assert(all =~= Seq::<Seq<u32>>::empty());
    } else {
        let rest = edges.drop_last();
        let last = edges.last();
        law_each_walked_wall_has_its_heights(rest, walked);
        let before = rest.filter(keep).map_values(turn);
        before.lemma_flatten_and_flatten_alt_are_equivalent();
        if keep(last) {
            assert(edges.filter(keep) =~= rest.filter(keep).push(last));
            assert(all =~= before.push(turn(last)));
            assert(all.drop_last() =~= before);
            assert(wall_heights(edges, walked) =~= wall_heights(rest, walked) + turn(last));
        } else {
            assert(edges.filter(keep) =~= rest.filter(keep));
        }
    }
}

/// Routes keep their targets and the cells that they walk through, each at its address.
pub proof fn law_routes_keep_what_they_lead_through(
    routes: Seq<Vec<Vec<PathRoute>>>,
    connections: Seq<Vec<Vec<(usize, Vec<usize>)>>>,
    s: int,
    i: int,
    k: int,
)
    requires
        routes_of(routes) == route_lists(connections),
        0 <= s < connections.len(),
        0 <= i < connections[s]@.len(),
        0 <= k < connections[s]@[i]@.len(),
    ensures
        routes.len() == connections.len(),
        routes[s]@.len() == connections[s]@.len(),
        routes[s]@[i]@.len() == connections[s]@[i]@.len(),
        routes[s]@[i]@[k].target_in_next == connections[s]@[i]@[k].0,
        routes[s]@[i]@[k].intermediate_cells@ == connections[s]@[i]@[k].1@,
{
    assert(routes_of(routes).len() == routes.len());
    assert(route_lists(connections).len() == connections.len());
    assert(route_lists(connections)[s] == arrival_lists(connections[s]@));
    assert(routes_of(routes)[s].len() == routes[s]@.len());
    assert(arrival_lists(connections[s]@).len() == connections[s]@.len());
    assert(routes_of(routes)[s][i].len() == routes[s]@[i]@.len());
    assert(route_lists(connections)[s][i].len() == connections[s]@[i]@.len());
    assert(routes_of(routes)[s][i][k] == routes[s]@[i]@[k].route());
    assert(route_lists(connections)[s][i][k] == (
        connections[s]@[i]@[k].0,
        connections[s]@[i]@[k].1@,
    ));
}

} // verus!
