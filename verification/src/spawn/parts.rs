//! What each part of a map becomes, told by the map itself: its cells, walls, stops
//! and routes, one by one.
//!
//! The entities come in the order of their creation: the root, then the nodes of the
//! cells, then the walls, then the paths.

use crate::components::{EntityId, LevelMap, MapEdge, Site};
use crate::config::LevelMapPolicy;
use crate::generation::crossing::Route;
use crate::generation::Generated;
use crate::graph::ordered;
use crate::relationships::{PathFrom, PathTo};
use crate::spawn::links::{
    crossed_edges, edge_links, law_an_edge_lists_its_paths_in_order,
    law_every_step_crosses_an_edge, law_links_mirror, lemma_countable, lemma_crossed_edges,
    lemma_find_edge, route_list, site_list, stage_routes, tells,
};
use crate::spawn::roles::{lemma_route_listed, lemma_site_listed};
use crate::spawn::{acts, lemma_script_is_sound, script, Act, Script, SpawnOp};
use crate::visit::VisitLocation;
use vstd::prelude::*;

verus! {

/// There is a route at this address of a map.
pub open spec fn routed(g: &Generated, s: int, i: int, k: int) -> bool {
    &&& 0 <= s < g.connections@.len()
    &&& 0 <= i < g.connections@[s]@.len()
    &&& 0 <= k < g.connections@[s]@[i]@.len()
}

/// The cell that a route comes to after `x` steps: its stop, then the cells between,
/// then the stop that it leads to.
pub open spec fn stepped(g: &Generated, s: int, i: int, k: int, x: int) -> usize {
    let route = g.connections@[s]@[i]@[k];
    let between = route.intermediate_cells@;
    if x == 0 {
        g.levels@[s]@[i]
    } else if x <= between.len() {
        between[x - 1]
    } else {
        g.levels@[s + 1]@[route.target_in_next as int]
    }
}

/// Wall `e` lies between two cells.
pub open spec fn parts(g: &Generated, e: int, a: usize, b: usize) -> bool {
    0 <= e < g.edges@.len() && g.edges@[e].cells == (if a <= b {
        (a, b)
    } else {
        (b, a)
    })
}

/// The first act spawns the root, with the measures and seeds of the map and the
/// rules; the last one visits the first stop of the first stage.
pub proof fn law_a_map_begins_and_ends(g: &Generated, policy: LevelMapPolicy, ids: Seq<EntityId>)
    requires
        g.wf(),
    ensures
        ({
            let trace = script(g, policy).trace(ids);
            &&& trace.len() >= 2
            &&& trace[0] == Act::Root(
                ids[0],
                LevelMap {
                    size: g.size,
                    seed: g.seed,
                    requested_seed: g.requested_seed,
                    rotation: g.rotation,
                    y_offset: g.y_offset,
                },
                policy,
            )
            &&& trace.last() == Act::Visit(VisitLocation { target: ids[1 + g.levels@[0]@[0]] })
        }),
{
    reveal(Script::act);
}

/// Each cell becomes a node, with its index, its site and its polygon.
pub proof fn law_each_cell_becomes_a_node(
    g: &Generated,
    policy: LevelMapPolicy,
    ids: Seq<EntityId>,
    c: int,
)
    requires
        0 <= c < g.cells@.len(),
    ensures
        script(g, policy).trace(ids)[1 + c] == Act::Node(
            ids[1 + c],
            c as usize,
            g.cells@[c].site,
            g.cells@[c].vertices@,
        ),
{
    reveal(Script::act);
}

/// Each wall becomes an edge between the nodes of its two cells, with its ends.
pub proof fn law_each_wall_becomes_an_edge(
    g: &Generated,
    policy: LevelMapPolicy,
    ids: Seq<EntityId>,
    e: int,
)
    requires
        0 <= e < g.edges@.len(),
    ensures
        script(g, policy).trace(ids)[1 + g.cells@.len() + e] == Act::Edge(
            ids[1 + g.cells@.len() + e],
            MapEdge {
                from: ids[1 + g.edges@[e].cells.0],
                to: ids[1 + g.edges@[e].cells.1],
                wall: g.edges@[e].wall,
            },
        ),
{
    reveal(Script::act);
}

/// Each stop of each stage makes the node of its cell a site, with the stage and the
/// place within it as its address, at its own position.
pub proof fn law_each_stop_becomes_a_site(
    g: &Generated,
    policy: LevelMapPolicy,
    ids: Seq<EntityId>,
    s: int,
    i: int,
)
    requires
        g.wf(),
        0 <= s < g.levels@.len(),
        0 <= i < g.levels@[s]@.len(),
    ensures
        script(g, policy).trace(ids).contains(
            Act::Site(
                ids[1 + g.levels@[s]@[i]],
                Site { belt: s as u32, site: i as u32 },
                g.level_jitters@[s]@[i],
            ),
        ),
{
    reveal(Script::act);
    lemma_countable(g);
    let sc = script(g, policy);
    let chosen = g.chosen();
    assert(chosen.levels[s] == g.levels@[s]@);
    assert(chosen.levels[s].len() <= usize::MAX);
    let j = lemma_site_listed(chosen.levels, s, i);
    let k = sc.base() + j;
    assert(g.level_jitters@[s]@.len() == g.levels@[s]@.len());
    assert(sc.jitters[s] == g.level_jitters@[s]@);
    assert((s as usize) as u32 == s as u32);
    assert((i as usize) as u32 == i as u32);
    assert(sc.trace(ids)[k] == sc.act(ids, k));
}

/// The acts of a route: a path from the node of its stop to the node of the stop of
/// the next stage that it leads to, through the nodes of the cells between.
pub open spec fn path_of(
    g: &Generated,
    ids: Seq<EntityId>,
    s: int,
    i: int,
    k: int,
    path: EntityId,
    act: Act,
) -> bool {
    let route = g.connections@[s]@[i]@[k];
    let way = act->Path_6;
    &&& act is Path
    &&& act->Path_0 == path
    &&& act->Path_1 == s && act->Path_2 == i && act->Path_3 == route.target_in_next
    &&& act->Path_4 == PathFrom(ids[1 + g.levels@[s]@[i]])
    &&& act->Path_5 == PathTo(ids[1 + g.levels@[s + 1]@[route.target_in_next as int]])
    &&& way.len() == route.intermediate_cells@.len()
    &&& forall|x: int|
        0 <= x < way.len() ==> #[trigger] way[x] == ids[1 + route.intermediate_cells@[x]]
}

/// Each route of each stage becomes a path. It starts at the node of the stop that the
/// route leaves and ends at the node of the stop of the next stage that the route
/// leads to, and its waypoints are the nodes of the cells between, in order.
pub proof fn law_each_route_becomes_a_path(
    g: &Generated,
    policy: LevelMapPolicy,
    ids: Seq<EntityId>,
    s: int,
    i: int,
    k: int,
) -> (j: int)
    requires
        g.wf(),
        routed(g, s, i, k),
        route_list(g.chosen().connections).len() <= usize::MAX,
    ensures
        0 <= j < script(g, policy).routes.len(),
        route_list(g.chosen().connections)[j] == (s as usize, i as usize, k as usize),
        exists|n: int|
            0 <= n < script(g, policy).trace(ids).len() && path_of(
                g,
                ids,
                s,
                i,
                k,
                ids[1 + g.cells@.len() + g.edges@.len() + j],
                #[trigger] script(g, policy).trace(ids)[n],
            ),
{
    reveal(Script::act);
    lemma_countable(g);
    let sc = script(g, policy);
    let chosen = g.chosen();
    let c = chosen.connections;
    let route = g.connections@[s]@[i]@[k];
    assert(c[s].len() == g.connections@[s]@.len());
    assert(c[s][i].len() == g.connections@[s]@[i]@.len());
    assert(c[s].len() <= usize::MAX);
    assert(c[s][i].len() <= usize::MAX);
    assert(chosen.has_route(s, i, k));
    assert(chosen.route(s, i, k) == (route.target_in_next, route.intermediate_cells@));
    assert(chosen.levels[s] == g.levels@[s]@);
    assert(chosen.levels[s + 1] == g.levels@[s + 1]@);
    let j = lemma_route_listed(c, s, i, k);
    let n = sc.base() + sc.sites.len() + j;
    let act = sc.act(ids, n);
    let way = act->Path_6;
    assert(way =~= route.intermediate_cells@.map_values(|c: usize| sc.node(ids, c)));
    assert(sc.trace(ids)[n] == act);
    assert(path_of(g, ids, s, i, k, ids[1 + g.cells@.len() + g.edges@.len() + j], act));
    j
}

/// An address comes before another: by stage, then by stop, then by route.
pub open spec fn precedes(a: (usize, usize, usize), b: (usize, usize, usize)) -> bool {
    a.0 < b.0 || (a.0 == b.0 && (a.1 < b.1 || (a.1 == b.1 && a.2 < b.2)))
}

proof fn lemma_stage_routes_ascend(stage: usize, rows: Seq<Seq<Route>>, a: int, b: int)
    requires
        rows.len() <= usize::MAX,
        forall|i: int| 0 <= i < rows.len() ==> (#[trigger] rows[i]).len() <= usize::MAX,
        0 <= a < b < stage_routes(stage, rows).len(),
    ensures
        precedes(stage_routes(stage, rows)[a], stage_routes(stage, rows)[b]),
        stage_routes(stage, rows)[a].0 == stage,
        stage_routes(stage, rows)[b].0 == stage,
        stage_routes(stage, rows)[b].1 < rows.len(),
    decreases rows.len(),
{
    let short = rows.drop_last();
    let rest = stage_routes(stage, short);
    assert(rows[rows.len() - 1].len() <= usize::MAX);
    assert forall|i: int| 0 <= i < short.len() implies (#[trigger] short[i]).len()
        <= usize::MAX by {
        assert(rows[i].len() <= usize::MAX);
    }
    if b < rest.len() {
        lemma_stage_routes_ascend(stage, short, a, b);
    } else if a < rest.len() {
        crate::spawn::links::lemma_stage_routes(stage, short, a);
    }
}

/// The paths come in the order of the routes: stage by stage, stop by stop.
pub proof fn law_paths_come_in_order(g: &Generated, a: int, b: int)
    requires
        0 <= a < b < route_list(g.chosen().connections).len(),
    ensures
        precedes(
            route_list(g.chosen().connections)[a],
            route_list(g.chosen().connections)[b],
        ),
{
    lemma_countable(g);
    lemma_routes_ascend(g.chosen().connections, a, b);
}

proof fn lemma_routes_ascend(connections: Seq<Seq<Seq<Route>>>, a: int, b: int)
    requires
        crate::spawn::links::countable(connections),
        0 <= a < b < route_list(connections).len(),
    ensures
        precedes(route_list(connections)[a], route_list(connections)[b]),
    decreases connections.len(),
{
    let short = connections.drop_last();
    let rest = route_list(short);
    let last = (connections.len() - 1) as usize;
    assert(connections[connections.len() - 1].len() <= usize::MAX);
    assert forall|s: int| 0 <= s < short.len() implies (#[trigger] short[s]).len()
        <= usize::MAX by {
        assert(connections[s].len() <= usize::MAX);
    }
    assert forall|s: int, i: int| 0 <= s < short.len() && 0 <= i < short[s].len() implies (
    #[trigger] short[s][i]).len() <= usize::MAX by {
        assert(connections[s][i].len() <= usize::MAX);
    }
    let rows = connections.last();
    assert forall|i: int| 0 <= i < rows.len() implies (#[trigger] rows[i]).len()
        <= usize::MAX by {
        assert(connections[connections.len() - 1][i].len() <= usize::MAX);
    }
    if b < rest.len() {
        lemma_routes_ascend(short, a, b);
    } else {
        crate::spawn::links::lemma_stage_routes(last, rows, b - rest.len());
        if a < rest.len() {
            crate::spawn::links::lemma_route_list(short, a);
        } else {
            lemma_stage_routes_ascend(last, rows, a - rest.len(), b - rest.len());
        }
    }
}

/// Which edges a walk crosses: for each of its steps one between its two cells, if
/// there is any, and no others.
proof fn lemma_crossed(pairs: Seq<(usize, usize)>, cells: Seq<usize>)
    requires
        pairs.len() <= usize::MAX,
    ensures
        forall|y: int|
            0 <= y < crossed_edges(pairs, cells).len() ==> exists|x: int|
                0 <= x < cells.len() - 1 && pairs[(#[trigger] crossed_edges(pairs, cells)[y]) as int]
                    == ordered(#[trigger] cells[x], cells[x + 1]),
        forall|x: int|
            0 <= x < cells.len() - 1 && pairs.contains(
                ordered(#[trigger] cells[x], cells[x + 1]),
            ) ==> exists|y: int|
                0 <= y < crossed_edges(pairs, cells).len() && pairs[(#[trigger] crossed_edges(
                    pairs,
                    cells,
                )[y]) as int] == ordered(cells[x], cells[x + 1]),
    decreases cells.len(),
{
    if cells.len() >= 2 {
        let rest = cells.drop_last();
        let last = ordered(cells[cells.len() - 2], cells[cells.len() - 1]);
        lemma_crossed(pairs, rest);
        lemma_find_edge(pairs, last);
        let before = crossed_edges(pairs, rest);
        let now = crossed_edges(pairs, cells);
        assert forall|y: int| 0 <= y < now.len() implies exists|x: int|
            0 <= x < cells.len() - 1 && pairs[(#[trigger] now[y]) as int] == ordered(
                #[trigger] cells[x],
                cells[x + 1],
            ) by {
            if y < before.len() {
                assert(now[y] == before[y]);
                let x = choose|x: int|
                    0 <= x < rest.len() - 1 && pairs[before[y] as int] == ordered(
                        #[trigger] rest[x],
                        rest[x + 1],
                    );
                assert(cells[x] == rest[x] && cells[x + 1] == rest[x + 1]);
            } else {
                let x = cells.len() - 2;
                assert(pairs[now[y] as int] == ordered(cells[x], cells[x + 1]));
            }
        }
        assert forall|x: int|
            0 <= x < cells.len() - 1 && pairs.contains(
                ordered(#[trigger] cells[x], cells[x + 1]),
            ) implies exists|y: int|
            0 <= y < now.len() && pairs[(#[trigger] now[y]) as int] == ordered(
                cells[x],
                cells[x + 1],
            ) by {
            if x < cells.len() - 2 {
                assert(rest[x] == cells[x] && rest[x + 1] == cells[x + 1]);
                let y = choose|y: int|
                    0 <= y < before.len() && pairs[(#[trigger] before[y]) as int] == ordered(
                        rest[x],
                        rest[x + 1],
                    );
                assert(now[y] == before[y]);
            } else {
                let y = now.len() - 1;
                assert(pairs[now[y] as int] == last);
            }
        }
    }
}

/// The cells of a route, counted in steps.
proof fn lemma_stepped(g: &Generated, s: int, i: int, k: int)
    requires
        g.wf(),
        routed(g, s, i, k),
    ensures
        g.chosen().visits(s, i, k).len() == g.connections@[s]@[i]@[k].intermediate_cells@.len() + 2,
        forall|x: int|
            0 <= x < g.chosen().visits(s, i, k).len() ==> #[trigger] g.chosen().visits(s, i, k)[x]
                == stepped(g, s, i, k, x),
{
    let chosen = g.chosen();
    let route = g.connections@[s]@[i]@[k];
    assert(chosen.connections[s].len() == g.connections@[s]@.len());
    assert(chosen.connections[s][i].len() == g.connections@[s]@[i]@.len());
    assert(chosen.has_route(s, i, k));
    assert(chosen.route(s, i, k) == (route.target_in_next, route.intermediate_cells@));
    assert(chosen.levels[s] == g.levels@[s]@);
    assert(chosen.levels[s + 1] == g.levels@[s + 1]@);
}

/// Each path is told the edges that its route crosses. For each step of the route it
/// lists an edge between the two cells, if there is one, and it lists no other edges;
/// where every step has an edge, the edges stand in the order of the steps.
pub proof fn law_each_path_is_told_its_edges(
    g: &Generated,
    policy: LevelMapPolicy,
    ids: Seq<EntityId>,
    s: int,
    i: int,
    k: int,
) -> (j: int)
    requires
        g.wf(),
        routed(g, s, i, k),
        route_list(g.chosen().connections).len() <= usize::MAX,
    ensures
        0 <= j < script(g, policy).routes.len(),
        route_list(g.chosen().connections)[j] == (s as usize, i as usize, k as usize),
        exists|n: int|
            0 <= n < script(g, policy).trace(ids).len() && #[trigger] edges_of_route(
                g,
                ids,
                s,
                i,
                k,
                ids[1 + g.cells@.len() + g.edges@.len() + j],
                script(g, policy).trace(ids)[n],
            ),
{
    lemma_countable(g);
    let sc = script(g, policy);
    let c = g.chosen().connections;
    assert(c[s].len() == g.connections@[s]@.len());
    assert(c[s][i].len() == g.connections@[s]@[i]@.len());
    assert(c[s].len() <= usize::MAX);
    assert(c[s][i].len() <= usize::MAX);
    let j = lemma_route_listed(c, s, i, k);
    let row = crossed_edges(g.pairs(), g.chosen().visits(s, i, k));
    assert(sc.crossed[j] == row);
    let n = sc.base() + sc.sites.len() + sc.routes.len() + j;
    let path = ids[1 + g.cells@.len() + g.edges@.len() + j];
    let edges = crossings(g, ids, s, i, k);
    assert(sc.trace(ids)[n] == Act::LinkPath(path, edges)) by {
        reveal(Script::act);
        assert(edges =~= row.map_values(|e: usize| sc.edge(ids, e)));
    }
    lemma_edges_belong(g, ids, s, i, k);
    lemma_steps_are_listed(g, ids, s, i, k);
    lemma_steps_stand_in_order(g, ids, s, i, k);
    lemma_crossed_edges(g.pairs(), g.chosen().visits(s, i, k));
    lemma_stepped(g, s, i, k);
    assert(edges_of_route(g, ids, s, i, k, path, sc.trace(ids)[n]));
    j
}

/// The entities of the edges that a route crosses.
spec fn crossings(g: &Generated, ids: Seq<EntityId>, s: int, i: int, k: int) -> Seq<EntityId> {
    let row = crossed_edges(g.pairs(), g.chosen().visits(s, i, k));
    Seq::new(row.len(), |y: int| ids[1 + g.cells@.len() + row[y]])
}

proof fn lemma_edges_belong(g: &Generated, ids: Seq<EntityId>, s: int, i: int, k: int)
    requires
        g.wf(),
        routed(g, s, i, k),
    ensures
        forall|y: int|
            0 <= y < crossings(g, ids, s, i, k).len() ==> told_for(
                g,
                ids,
                s,
                i,
                k,
                #[trigger] crossings(g, ids, s, i, k)[y],
            ),
{
    lemma_countable(g);
    lemma_stepped(g, s, i, k);
    let pairs = g.pairs();
    let cells = g.chosen().visits(s, i, k);
    let row = crossed_edges(pairs, cells);
    let edges = crossings(g, ids, s, i, k);
    lemma_crossed(pairs, cells);
    lemma_crossed_edges(pairs, cells);
    assert forall|y: int| 0 <= y < edges.len() implies told_for(
        g,
        ids,
        s,
        i,
        k,
        #[trigger] edges[y],
    ) by {
        let e = row[y] as int;
        let x = choose|x: int|
            0 <= x < cells.len() - 1 && pairs[row[y] as int] == ordered(
                #[trigger] cells[x],
                cells[x + 1],
            );
        assert(pairs[e] == g.edges@[e].cells);
        assert(cells[x] == stepped(g, s, i, k, x));
        assert(cells[x + 1] == stepped(g, s, i, k, x + 1));
        assert(parts(g, e, stepped(g, s, i, k, x), stepped(g, s, i, k, x + 1)));
        assert(edges[y] == ids[1 + g.cells@.len() + e]);
    }
}

proof fn lemma_steps_are_listed(g: &Generated, ids: Seq<EntityId>, s: int, i: int, k: int)
    requires
        g.wf(),
        routed(g, s, i, k),
    ensures
        forall|x: int, e: int|
            0 <= x <= g.connections@[s]@[i]@[k].intermediate_cells@.len() && #[trigger] parts(
                g,
                e,
                stepped(g, s, i, k, x),
                stepped(g, s, i, k, x + 1),
            ) ==> lists_step(g, ids, s, i, k, x, crossings(g, ids, s, i, k)),
{
    lemma_countable(g);
    lemma_stepped(g, s, i, k);
    let pairs = g.pairs();
    let cells = g.chosen().visits(s, i, k);
    let row = crossed_edges(pairs, cells);
    let edges = crossings(g, ids, s, i, k);
    lemma_crossed(pairs, cells);
    lemma_crossed_edges(pairs, cells);
    assert forall|x: int, e: int|
        0 <= x <= g.connections@[s]@[i]@[k].intermediate_cells@.len() && #[trigger] parts(
            g,
            e,
            stepped(g, s, i, k, x),
            stepped(g, s, i, k, x + 1),
        ) implies lists_step(g, ids, s, i, k, x, edges) by {
        assert(pairs[e] == g.edges@[e].cells);
        assert(cells[x] == stepped(g, s, i, k, x));
        assert(cells[x + 1] == stepped(g, s, i, k, x + 1));
        assert(pairs.contains(ordered(cells[x], cells[x + 1])));
        let y = choose|y: int|
            0 <= y < row.len() && pairs[(#[trigger] row[y]) as int] == ordered(
                cells[x],
                cells[x + 1],
            );
        let f = row[y] as int;
        assert(pairs[f] == g.edges@[f].cells);
        assert(parts(g, f, stepped(g, s, i, k, x), stepped(g, s, i, k, x + 1)));
        assert(edges[y] == ids[1 + g.cells@.len() + f]);
        assert(edges.contains(ids[1 + g.cells@.len() + f]));
    }
}

proof fn lemma_steps_stand_in_order(g: &Generated, ids: Seq<EntityId>, s: int, i: int, k: int)
    requires
        g.wf(),
        routed(g, s, i, k),
    ensures
        (forall|x: int|
            0 <= x <= g.connections@[s]@[i]@[k].intermediate_cells@.len() ==> #[trigger] walled_step(
                g,
                s,
                i,
                k,
                x,
            )) ==> crossings(g, ids, s, i, k).len()
            == g.connections@[s]@[i]@[k].intermediate_cells@.len() + 1 && forall|x: int|
            0 <= x < crossings(g, ids, s, i, k).len() ==> at_step(
                g,
                ids,
                s,
                i,
                k,
                x,
                #[trigger] crossings(g, ids, s, i, k)[x],
            ),
{
    lemma_countable(g);
    lemma_stepped(g, s, i, k);
    let pairs = g.pairs();
    let cells = g.chosen().visits(s, i, k);
    let row = crossed_edges(pairs, cells);
    let edges = crossings(g, ids, s, i, k);
    lemma_crossed_edges(pairs, cells);
    if forall|x: int|
        0 <= x <= g.connections@[s]@[i]@[k].intermediate_cells@.len() ==> #[trigger] walled_step(
            g,
            s,
            i,
            k,
            x,
        ) {
        assert forall|x: int| #![trigger cells[x]] 0 <= x < cells.len() - 1 implies pairs.contains(
            ordered(cells[x], cells[x + 1]),
        ) by {
            assert(walled_step(g, s, i, k, x));
            let e = choose|e: int| #[trigger]
                parts(g, e, stepped(g, s, i, k, x), stepped(g, s, i, k, x + 1));
            assert(pairs[e] == g.edges@[e].cells);
            assert(cells[x] == stepped(g, s, i, k, x));
            assert(cells[x + 1] == stepped(g, s, i, k, x + 1));
        }
        law_every_step_crosses_an_edge(pairs, cells);
        assert forall|x: int| 0 <= x < edges.len() implies at_step(
            g,
            ids,
            s,
            i,
            k,
            x,
            #[trigger] edges[x],
        ) by {
            let e = row[x] as int;
            assert(pairs[e] == g.edges@[e].cells);
            assert(cells[x] == stepped(g, s, i, k, x));
            assert(cells[x + 1] == stepped(g, s, i, k, x + 1));
            assert(parts(g, e, stepped(g, s, i, k, x), stepped(g, s, i, k, x + 1)));
            assert(edges[x] == ids[1 + g.cells@.len() + e]);
        }
    }
}

/// Some wall lies between the two cells of a step.
pub open spec fn walled_step(g: &Generated, s: int, i: int, k: int, x: int) -> bool {
    exists|e: int| #[trigger] parts(g, e, stepped(g, s, i, k, x), stepped(g, s, i, k, x + 1))
}

/// `edge` is the entity of a wall between the two cells of a step.
pub open spec fn at_step(
    g: &Generated,
    ids: Seq<EntityId>,
    s: int,
    i: int,
    k: int,
    x: int,
    edge: EntityId,
) -> bool {
    exists|e: int| #[trigger]
        parts(g, e, stepped(g, s, i, k, x), stepped(g, s, i, k, x + 1)) && edge == ids[1
            + g.cells@.len() + e]
}

/// `edge` is the entity of a wall between the two cells of some step.
pub open spec fn told_for(
    g: &Generated,
    ids: Seq<EntityId>,
    s: int,
    i: int,
    k: int,
    edge: EntityId,
) -> bool {
    exists|x: int, e: int|
        0 <= x <= g.connections@[s]@[i]@[k].intermediate_cells@.len() && #[trigger] parts(
            g,
            e,
            stepped(g, s, i, k, x),
            stepped(g, s, i, k, x + 1),
        ) && edge == ids[1 + g.cells@.len() + e]
}

/// The list holds a wall between the two cells of a step.
pub open spec fn lists_step(
    g: &Generated,
    ids: Seq<EntityId>,
    s: int,
    i: int,
    k: int,
    x: int,
    edges: Seq<EntityId>,
) -> bool {
    exists|e: int| #[trigger]
        parts(g, e, stepped(g, s, i, k, x), stepped(g, s, i, k, x + 1)) && edges.contains(
            ids[1 + g.cells@.len() + e],
        )
}

/// The act tells `path` the edges of a route.
pub open spec fn edges_of_route(
    g: &Generated,
    ids: Seq<EntityId>,
    s: int,
    i: int,
    k: int,
    path: EntityId,
    act: Act,
) -> bool {
    let steps = g.connections@[s]@[i]@[k].intermediate_cells@.len() + 1;
    let edges = act->LinkPath_1;
    &&& act is LinkPath
    &&& act->LinkPath_0 == path
    &&& edges.len() <= steps
    &&& forall|y: int| 0 <= y < edges.len() ==> told_for(g, ids, s, i, k, #[trigger] edges[y])
    &&& forall|x: int, e: int|
        0 <= x < steps && #[trigger] parts(
            g,
            e,
            stepped(g, s, i, k, x),
            stepped(g, s, i, k, x + 1),
        ) ==> lists_step(g, ids, s, i, k, x, edges)
    &&& (forall|x: int| 0 <= x < steps ==> #[trigger] walled_step(g, s, i, k, x)) ==> edges.len()
        == steps && forall|x: int|
        0 <= x < steps ==> at_step(g, ids, s, i, k, x, #[trigger] edges[x])
}

/// Some act tells the path of the edge.
pub open spec fn path_is_told(trace: Seq<Act>, path: EntityId, edge: EntityId) -> bool {
    exists|n: int|
        0 <= n < trace.len() && #[trigger] trace[n] is LinkPath && trace[n]->LinkPath_0 == path
            && trace[n]->LinkPath_1.contains(edge)
}

/// Some act tells the edge of the path.
pub open spec fn edge_is_told(trace: Seq<Act>, path: EntityId, edge: EntityId) -> bool {
    exists|n: int|
        0 <= n < trace.len() && #[trigger] trace[n] is LinkEdge && trace[n]->LinkEdge_0 == edge
            && trace[n]->LinkEdge_1.contains(path)
}

/// The acts that tell paths and edges of each other stand in their places.
proof fn lemma_link_acts(sc: Script, ids: Seq<EntityId>, n: int)
    requires
        0 <= n < sc.total(),
    ensures
        ({
            let path_links = sc.base() + sc.sites.len() + sc.routes.len();
            let edge_acts = path_links + sc.routes.len();
            let act = sc.trace(ids)[n];
            &&& act is LinkPath <==> path_links <= n < edge_acts
            &&& act is LinkEdge <==> edge_acts <= n < edge_acts + sc.links.len()
            &&& path_links <= n < edge_acts ==> act->LinkPath_0 == ids[sc.base() + (n - path_links)
                as usize] && act->LinkPath_1 == sc.crossed[n - path_links].map_values(
                |e: usize| ids[1 + sc.cells.len() + e],
            )
            &&& edge_acts <= n < edge_acts + sc.links.len() ==> act->LinkEdge_0 == ids[1
                + sc.cells.len() + sc.links[n - edge_acts].0] && act->LinkEdge_1 == sc.links[n
                - edge_acts].1.map_values(|p: usize| ids[sc.base() + p])
        }),
{
    reveal(Script::act);
    let path_links = sc.base() + sc.sites.len() + sc.routes.len();
    let edge_acts = path_links + sc.routes.len();
    if path_links <= n < edge_acts {
        let row = sc.crossed[n - path_links];
        assert(row.map_values(|e: usize| sc.edge(ids, e)) =~= row.map_values(
            |e: usize| ids[1 + sc.cells.len() + e],
        ));
    } else if edge_acts <= n < edge_acts + sc.links.len() {
        let all = sc.links[n - edge_acts].1;
        assert(all.map_values(|p: usize| sc.path(ids, p)) =~= all.map_values(
            |p: usize| ids[sc.base() + p],
        ));
    }
}

proof fn lemma_path_to_edge(sc: Script, ids: Seq<EntityId>, path: EntityId, edge: EntityId)
    requires
        sc.sound(),
        sc.links == edge_links(sc.crossed),
        path_is_told(sc.trace(ids), path, edge),
    ensures
        edge_is_told(sc.trace(ids), path, edge),
{
    let trace = sc.trace(ids);
    let path_links = sc.base() + sc.sites.len() + sc.routes.len();
    let edge_acts = path_links + sc.routes.len();
    let n = choose|n: int|
        0 <= n < trace.len() && #[trigger] trace[n] is LinkPath && trace[n]->LinkPath_0 == path
            && trace[n]->LinkPath_1.contains(edge);
    lemma_link_acts(sc, ids, n);
    let j = n - path_links;
    let row = sc.crossed[j];
    let edges = trace[n]->LinkPath_1;
    let y = choose|y: int| 0 <= y < edges.len() && edges[y] == edge;
    let e = row[y];
    assert(row.contains(e));
    law_links_mirror(sc.crossed, e, j as usize);
    assert(tells(sc.links, e, j as usize));
    let m = choose|m: int|
        0 <= m < sc.links.len() && (#[trigger] sc.links[m]).0 == e && sc.links[m].1.contains(
            j as usize,
        );
    lemma_link_acts(sc, ids, edge_acts + m);
    let all = sc.links[m].1;
    let z = choose|z: int| 0 <= z < all.len() && all[z] == j as usize;
    let paths = trace[edge_acts + m]->LinkEdge_1;
    assert(paths[z] == path);
    assert(paths.contains(path));
}

proof fn lemma_edge_to_path(sc: Script, ids: Seq<EntityId>, path: EntityId, edge: EntityId)
    requires
        sc.sound(),
        sc.links == edge_links(sc.crossed),
        edge_is_told(sc.trace(ids), path, edge),
    ensures
        path_is_told(sc.trace(ids), path, edge),
{
    let trace = sc.trace(ids);
    let path_links = sc.base() + sc.sites.len() + sc.routes.len();
    let edge_acts = path_links + sc.routes.len();
    let n = choose|n: int|
        0 <= n < trace.len() && #[trigger] trace[n] is LinkEdge && trace[n]->LinkEdge_0 == edge
            && trace[n]->LinkEdge_1.contains(path);
    lemma_link_acts(sc, ids, n);
    let m = n - edge_acts;
    let (e, all) = sc.links[m];
    assert(sc.is_link(sc.links[m]));
    let paths = trace[n]->LinkEdge_1;
    let z = choose|z: int| 0 <= z < paths.len() && paths[z] == path;
    let p = all[z];
    assert(all.contains(p));
    assert(tells(sc.links, e, p));
    law_links_mirror(sc.crossed, e, p);
    lemma_link_acts(sc, ids, path_links + p);
    let row = sc.crossed[p as int];
    let y = choose|y: int| 0 <= y < row.len() && row[y] == e;
    let edges = trace[path_links + p]->LinkPath_1;
    assert(edges[y] == edge);
    assert(edges.contains(edge));
}

/// Paths and edges are told of each other: an edge is told of a path if and only if
/// the path is told of the edge.
pub proof fn law_paths_and_edges_know_each_other(
    g: &Generated,
    policy: LevelMapPolicy,
    ids: Seq<EntityId>,
    path: EntityId,
    edge: EntityId,
)
    requires
        g.wf(),
        route_list(g.chosen().connections).len() <= usize::MAX,
    ensures
        path_is_told(script(g, policy).trace(ids), path, edge) <==> edge_is_told(
            script(g, policy).trace(ids),
            path,
            edge,
        ),
{
    let sc = script(g, policy);
    lemma_script_is_sound(g, policy);
    if path_is_told(sc.trace(ids), path, edge) {
        lemma_path_to_edge(sc, ids, path, edge);
    }
    if edge_is_told(sc.trace(ids), path, edge) {
        lemma_edge_to_path(sc, ids, path, edge);
    }
}

/// The paths that an edge is told of come in their order.
pub proof fn law_an_edge_is_told_of_its_paths_in_order(
    g: &Generated,
    policy: LevelMapPolicy,
    ids: Seq<EntityId>,
    n: int,
) -> (places: Seq<int>)
    requires
        g.wf(),
        route_list(g.chosen().connections).len() <= usize::MAX,
        0 <= n < script(g, policy).total(),
        script(g, policy).trace(ids)[n] is LinkEdge,
    ensures
        told_in_order(places, route_list(g.chosen().connections).len() as int),
        script(g, policy).trace(ids)[n]->LinkEdge_1 == Seq::new(
            places.len(),
            |x: int| ids[1 + g.cells@.len() + g.edges@.len() + places[x]],
        ),
{
    let sc = script(g, policy);
    lemma_script_is_sound(g, policy);
    lemma_link_acts(sc, ids, n);
    let edge_acts = sc.base() + sc.sites.len() + 2 * sc.routes.len();
    let m = n - edge_acts;
    let (e, all) = sc.links[m];
    assert(sc.is_link(sc.links[m]));
    let places = Seq::new(all.len(), |x: int| all[x] as int);
    assert forall|x: int, y: int| 0 <= x < y < places.len() implies places[x] <= places[y] by {
        law_an_edge_lists_its_paths_in_order(sc.crossed, m, x, y);
    }
    assert(told_in_order(places, sc.routes.len() as int));
    let base = 1 + g.cells@.len() + g.edges@.len();
    assert(sc.trace(ids)[n]->LinkEdge_1 =~= Seq::new(
        places.len(),
        |x: int| ids[base + places[x]],
    ));
    places
}

/// The places do not fall, and are below `n`.
pub open spec fn told_in_order(places: Seq<int>, n: int) -> bool {
    &&& forall|x: int| 0 <= x < places.len() ==> 0 <= #[trigger] places[x] < n
    &&& forall|x: int, y: int|
        0 <= x < y < places.len() ==> #[trigger] places[x] <= #[trigger] places[y]
}

/// The act creates an entity.
pub open spec fn creates(act: Act) -> bool {
    act is Root || act is Node || act is Edge || act is Path
}

/// The entity that an act is about.
pub open spec fn subject(act: Act) -> EntityId {
    match act {
        Act::Root(id, _, _) => id,
        Act::Node(id, _, _, _) => id,
        Act::Edge(id, _) => id,
        Act::Site(id, _, _) => id,
        Act::Path(id, _, _, _, _, _, _) => id,
        Act::LinkPath(id, _) => id,
        Act::LinkEdge(id, _) => id,
        Act::Visit(visit) => visit.target,
    }
}

/// Entities are counted as they are created: one for each act that spawns the root, a
/// node, an edge or a path, none for any other, and they are taken in order.
pub proof fn law_entities_are_counted(
    g: &Generated,
    policy: LevelMapPolicy,
    ids: Seq<EntityId>,
    k: int,
)
    requires
        0 <= k < script(g, policy).total(),
        route_list(g.chosen().connections).len() <= usize::MAX,
    ensures
        ({
            let sc = script(g, policy);
            let act = sc.trace(ids)[k];
            &&& sc.created(0) == 0
            &&& sc.trace(ids).len() == sc.total()
            &&& creates(act) ==> sc.created(k + 1) == sc.created(k) + 1 && subject(act)
                == ids[sc.created(k)]
            &&& !creates(act) ==> sc.created(k + 1) == sc.created(k)
        }),
{
    reveal(Script::act);
}

/// A step hands out as many acts as its budget allows, unless fewer are left; the
/// first one hands out at least the root.
pub proof fn law_a_step_keeps_to_its_budget(sc: Script, pos: int, budget: nat)
    requires
        0 <= pos <= sc.total(),
    ensures
        ({
            let end = sc.until(pos, budget);
            &&& pos <= end <= sc.total()
            &&& end - pos <= budget || (pos == 0 && end == 1)
            &&& end < sc.total() ==> end - pos == budget || (pos == 0 && end == 1 && budget == 0)
            &&& pos == 0 ==> end >= 1
        }),
{
}

/// What an operation is seen as holds all that it says.
pub proof fn law_an_act_hides_nothing(op: SpawnOp)
    ensures
        match op@ {
            Act::Root(a, b, c) => op matches SpawnOp::Root { entity, map, policy } && entity == a
                && map == b && policy == c,
            Act::Node(a, b, c, d) => op matches SpawnOp::Node { entity, index, position, cell }
                && entity == a && index == b && position == c && cell.vertices@ == d,
            Act::Edge(a, b) => op matches SpawnOp::Edge { entity, wall } && entity == a && wall
                == b,
            Act::Site(a, b, c) => op matches SpawnOp::Site { entity, address, position } && entity
                == a && address == b && position == c,
            Act::Path(a, s, i, t, f, d, w) => op matches SpawnOp::Path {
                entity,
                stage,
                index,
                target,
                from,
                to,
                waypoints,
            } && entity == a && stage == s && index == i && target == t && from == f && to == d
                && waypoints@ == w,
            Act::LinkPath(a, b) => op matches SpawnOp::LinkPath { path, edges } && path == a
                && edges@ == b,
            Act::LinkEdge(a, b) => op matches SpawnOp::LinkEdge { edge, paths } && edge == a
                && paths@ == b,
            Act::Visit(a) => op == SpawnOp::Visit(a),
        },
{
}

/// A list of operations is seen one by one.
pub proof fn law_acts_are_seen_in_order(ops: Seq<SpawnOp>, k: int)
    requires
        0 <= k < ops.len(),
    ensures
        acts(ops).len() == ops.len(),
        acts(ops)[k] == ops[k]@,
{
}

/// The stops are made sites stage by stage, and in each stage in order; there is one act
/// for each stop and no other.
pub proof fn law_sites_come_in_order(
    g: &Generated,
    policy: LevelMapPolicy,
    ids: Seq<EntityId>,
    a: int,
    b: int,
)
    requires
        g.wf(),
        0 <= a < b < site_list(g.chosen().levels).len(),
    ensures
        ({
            let (s, i) = site_list(g.chosen().levels)[a];
            let (t, j) = site_list(g.chosen().levels)[b];
            let trace = script(g, policy).trace(ids);
            let base = 1 + g.cells@.len() + g.edges@.len();
            &&& s < t || (s == t && i < j)
            &&& t < g.levels@.len() && j < g.levels@[t as int]@.len()
            &&& s < g.levels@.len() && i < g.levels@[s as int]@.len()
            &&& trace[base + a] == Act::Site(
                ids[1 + g.levels@[s as int]@[i as int]],
                Site { belt: s as u32, site: i as u32 },
                g.level_jitters@[s as int]@[i as int],
            )
        }),
{
    reveal(Script::act);
    lemma_countable(g);
    let levels = g.chosen().levels;
    lemma_sites_ascend(levels, a, b);
    let (s, i) = site_list(levels)[a];
    let sc = script(g, policy);
    assert(levels[s as int] == g.levels@[s as int]@);
    assert(g.level_jitters@[s as int]@.len() == g.levels@[s as int]@.len());
    assert(sc.jitters[s as int] == g.level_jitters@[s as int]@);
    assert(sc.trace(ids)[sc.base() + a] == sc.act(ids, sc.base() + a));
}

proof fn lemma_sites_ascend(levels: Seq<Seq<usize>>, a: int, b: int)
    requires
        levels.len() <= usize::MAX,
        forall|s: int| 0 <= s < levels.len() ==> (#[trigger] levels[s]).len() <= usize::MAX,
        0 <= a < b < site_list(levels).len(),
    ensures
        ({
            let (s, i) = site_list(levels)[a];
            let (t, j) = site_list(levels)[b];
            &&& s < t || (s == t && i < j)
            &&& t < levels.len() && j < levels[t as int].len()
            &&& s < levels.len() && i < levels[s as int].len()
        }),
    decreases levels.len(),
{
    let short = levels.drop_last();
    let rest = site_list(short);
    assert(levels[levels.len() - 1].len() <= usize::MAX);
    assert forall|s: int| 0 <= s < short.len() implies (#[trigger] short[s]).len()
        <= usize::MAX by {
        assert(levels[s].len() <= usize::MAX);
    }
    if b < rest.len() {
        lemma_sites_ascend(short, a, b);
    } else if a < rest.len() {
        crate::spawn::links::lemma_site_list(short, a);
    }
}

/// Each path stands for a route: its place among the paths is that of a route among all
/// routes.
pub proof fn law_each_path_stands_for_a_route(g: &Generated, j: int)
    requires
        g.wf(),
        0 <= j < route_list(g.chosen().connections).len(),
    ensures
        ({
            let (s, i, k) = route_list(g.chosen().connections)[j];
            routed(g, s as int, i as int, k as int)
        }),
{
    lemma_countable(g);
    crate::spawn::links::lemma_route_list(g.chosen().connections, j);
    let (s, i, k) = route_list(g.chosen().connections)[j];
    let c = g.chosen().connections;
    assert(c[s as int].len() == g.connections@[s as int]@.len());
    assert(c[s as int][i as int].len() == g.connections@[s as int]@[i as int]@.len());
}

/// How many acts there are: one for the root, for each cell, each wall, each stop and
/// each edge that is crossed, two for each route, and the visit.
pub proof fn law_acts_are_counted(g: &Generated, policy: LevelMapPolicy, ids: Seq<EntityId>)
    ensures
        script(g, policy).trace(ids).len() == 1 + g.cells@.len() + g.edges@.len() + site_list(
            g.chosen().levels,
        ).len() + 2 * route_list(g.chosen().connections).len() + script(g, policy).links.len() + 1,
{
}

/// A map is in order if every index is one of a cell or a stop, each stop has a
/// position, and there is an entry stop; and only then.
pub proof fn law_a_map_in_order_is_told_by_its_indices(g: &Generated)
    ensures
        g.wf() <==> {
            &&& g.levels@.len() == g.connections@.len() + 1
            &&& g.levels@[0]@.len() > 0
            &&& g.level_jitters@.len() == g.levels@.len()
            &&& forall|s: int|
                0 <= s < g.levels@.len() ==> (#[trigger] g.levels@[s])@.len()
                    == g.level_jitters@[s]@.len()
            &&& forall|s: int|
                0 <= s < g.connections@.len() ==> (#[trigger] g.connections@[s])@.len()
                    == g.levels@[s]@.len()
            &&& forall|s: int, i: int|
                0 <= s < g.levels@.len() && 0 <= i < g.levels@[s]@.len() ==> (
                #[trigger] g.levels@[s]@[i]) < g.cells@.len()
            &&& forall|s: int, i: int, k: int| #[trigger]
                routed(g, s, i, k) ==> g.connections@[s]@[i]@[k].target_in_next < g.levels@[s
                    + 1]@.len() && forall|x: int|
                    0 <= x < g.connections@[s]@[i]@[k].intermediate_cells@.len() ==> (
                    #[trigger] g.connections@[s]@[i]@[k].intermediate_cells@[x]) < g.cells@.len()
            &&& forall|e: int|
                0 <= e < g.edges@.len() ==> (#[trigger] g.edges@[e]).cells.0 < g.cells@.len()
                    && g.edges@[e].cells.1 < g.cells@.len()
        },
{
    let c = g.chosen();
    assert forall|s: int| 0 <= s < g.levels@.len() implies #[trigger] c.levels[s]
        == g.levels@[s]@ by {}
    assert forall|s: int| 0 <= s < g.connections@.len() implies (#[trigger] c.connections[s]).len()
        == g.connections@[s]@.len() by {}
    assert forall|s: int, i: int, k: int| #[trigger] routed(g, s, i, k) implies c.has_route(s, i, k)
        && c.route(s, i, k) == (
        g.connections@[s]@[i]@[k].target_in_next,
        g.connections@[s]@[i]@[k].intermediate_cells@,
    ) by {
        assert(c.connections[s][i].len() == g.connections@[s]@[i]@.len());
    }
    assert forall|s: int, i: int, k: int| #[trigger] c.has_route(s, i, k) implies routed(
        g,
        s,
        i,
        k,
    ) by {
        assert(c.connections[s][i].len() == g.connections@[s]@[i]@.len());
    }
    if g.wf() {
        assert forall|s: int| 0 <= s < g.levels@.len() implies (#[trigger] g.levels@[s])@.len()
            == g.level_jitters@[s]@.len() by {
            assert(g.level_jitters@[s]@.len() == g.levels@[s]@.len());
        }
        assert forall|s: int| 0 <= s < g.connections@.len() implies (
        #[trigger] g.connections@[s])@.len() == g.levels@[s]@.len() by {
            assert(c.connections[s].len() == c.levels[s].len());
        }
        assert forall|s: int, i: int|
            0 <= s < g.levels@.len() && 0 <= i < g.levels@[s]@.len() implies (
        #[trigger] g.levels@[s]@[i]) < g.cells@.len() by {
            assert(c.levels[s][i] < g.cells@.len());
        }
        assert forall|s: int, i: int, k: int| #[trigger]
            routed(g, s, i, k) implies g.connections@[s]@[i]@[k].target_in_next < g.levels@[s
            + 1]@.len() && forall|x: int|
            0 <= x < g.connections@[s]@[i]@[k].intermediate_cells@.len() ==> (
            #[trigger] g.connections@[s]@[i]@[k].intermediate_cells@[x]) < g.cells@.len() by {
            assert(c.has_route(s, i, k));
            assert(c.levels[s + 1] == g.levels@[s + 1]@);
            assert forall|x: int|
                0 <= x < g.connections@[s]@[i]@[k].intermediate_cells@.len() implies (
            #[trigger] g.connections@[s]@[i]@[k].intermediate_cells@[x]) < g.cells@.len() by {
                assert(c.route(s, i, k).1[x] < g.cells@.len());
            }
        }
    }
    if g.levels@.len() == g.connections@.len() + 1 {
        assert forall|s: int, i: int, k: int| #[trigger] c.has_route(s, i, k) implies c.levels[s + 1]
            == g.levels@[s + 1]@ by {}
    }
}

} // verus!
