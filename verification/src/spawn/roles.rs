//! Which entities of a map carry a state.

use crate::components::EntityId;
use crate::config::LevelMapPolicy;
use crate::generation::crossing::Route;
use crate::generation::selection::Chosen;
use crate::generation::Generated;
use crate::spawn::links::{
    edge_links, law_links_mirror, lemma_countable, lemma_place_of, note, note_all, route_list,
    site_list, stage_routes, tells, Link,
};
use crate::spawn::{lemma_script_is_sound, script, Act, Script};
use vstd::prelude::*;

verus! {

/// The act gives `id` a state.
pub open spec fn gives_state(act: Act, id: EntityId) -> bool {
    match act {
        Act::Site(node, _, _) => id == node,
        Act::Path(path, _, _, _, _, _, waypoints) => id == path || waypoints.contains(id),
        Act::LinkEdge(edge, _) => id == edge,
        _ => false,
    }
}

impl Script {
    /// Some act gives `id` a state.
    pub open spec fn stateful(self, ids: Seq<EntityId>, id: EntityId) -> bool {
        exists|k: int| 0 <= k < self.total() && gives_state(#[trigger] self.act(ids, k), id)
    }
}

impl Chosen {
    /// A cell is a stop.
    pub open spec fn is_stop(self, c: usize) -> bool {
        exists|s: int, i: int|
            0 <= s < self.levels.len() && 0 <= i < self.levels[s].len()
                && #[trigger] self.levels[s][i] == c
    }

    /// A cell is within some corridor.
    pub open spec fn is_between(self, c: usize) -> bool {
        exists|s: int, i: int, k: int| #[trigger]
            self.has_route(s, i, k) && self.route(s, i, k).1.contains(c)
    }
}

/// The list of the stops has a place for each.
pub(crate) proof fn lemma_site_listed(levels: Seq<Seq<usize>>, s: int, i: int) -> (j: int)
    requires
        0 <= s < levels.len(),
        0 <= i < levels[s].len(),
    ensures
        0 <= j < site_list(levels).len(),
        site_list(levels)[j] == (s as usize, i as usize),
    decreases levels.len(),
{
    let short = levels.drop_last();
    if s < short.len() {
        lemma_site_listed(short, s, i)
    } else {
        site_list(short).len() + i
    }
}

proof fn lemma_stage_route_listed(stage: usize, rows: Seq<Seq<Route>>, i: int, k: int) -> (j: int)
    requires
        0 <= i < rows.len(),
        0 <= k < rows[i].len(),
    ensures
        0 <= j < stage_routes(stage, rows).len(),
        stage_routes(stage, rows)[j] == (stage, i as usize, k as usize),
    decreases rows.len(),
{
    let short = rows.drop_last();
    if i < short.len() {
        lemma_stage_route_listed(stage, short, i, k)
    } else {
        stage_routes(stage, short).len() + k
    }
}

/// The list of the routes has a place for each.
pub(crate) proof fn lemma_route_listed(connections: Seq<Seq<Seq<Route>>>, s: int, i: int, k: int) -> (j: int)
    requires
        0 <= s < connections.len(),
        0 <= i < connections[s].len(),
        0 <= k < connections[s][i].len(),
    ensures
        0 <= j < route_list(connections).len(),
        route_list(connections)[j] == (s as usize, i as usize, k as usize),
    decreases connections.len(),
{
    let short = connections.drop_last();
    if s < short.len() {
        lemma_route_listed(short, s, i, k)
    } else {
        route_list(short).len() + lemma_stage_route_listed(s as usize, connections.last(), i, k)
    }
}

/// A node carries a state if and only if its cell is a stop or a waypoint. All other
/// cells are a backdrop.
pub proof fn law_stops_and_waypoints_have_states(
    g: &Generated,
    policy: LevelMapPolicy,
    ids: Seq<EntityId>,
    c: usize,
)
    requires
        g.wf(),
        route_list(g.chosen().connections).len() <= usize::MAX,
        ids.no_duplicates(),
        ids.len() == script(g, policy).created(script(g, policy).total()),
        c < g.cells@.len(),
    ensures
        ({
            let sc = script(g, policy);
            sc.stateful(ids, sc.node(ids, c)) <==> g.chosen().is_stop(c) || g.chosen().is_between(c)
        }),
{
    let sc = script(g, policy);
    let chosen = g.chosen();
    let id = sc.node(ids, c);
    let sites = sc.base();
    let paths = sites + sc.sites.len();
    let path_links = paths + sc.routes.len();
    let edge_acts = path_links + sc.routes.len();
    lemma_script_is_sound(g, policy);
    lemma_countable(g);
    reveal(Script::act);
    if sc.stateful(ids, id) {
        let k = choose|k: int| 0 <= k < sc.total() && gives_state(#[trigger] sc.act(ids, k), id);
        if k < sites {
        } else if k < paths {
            let (s, i) = sc.sites[k - sites];
            assert(sc.is_site(s as int, i as int));
            assert(chosen.levels[s as int][i as int] == c);
        } else if k < path_links {
            let (s, i, r) = sc.routes[k - paths];
            assert(sc.is_route(s as int, i as int, r as int));
            let between = chosen.route(s as int, i as int, r as int).1;
            let nodes = between.map_values(|c: usize| sc.node(ids, c));
            assert(sc.path(ids, (k - paths) as usize) != id);
            let x = choose|x: int| 0 <= x < nodes.len() && nodes[x] == id;
            assert(between[x] < sc.cells.len());
            assert(between[x] == c);
            assert(chosen.has_route(s as int, i as int, r as int));
        } else if k < edge_acts {
        } else if k < edge_acts + sc.links.len() {
            assert(sc.is_link(sc.links[k - edge_acts]));
        }
    }
    if chosen.is_stop(c) {
        let (s, i) = choose|s: int, i: int|
            0 <= s < chosen.levels.len() && 0 <= i < chosen.levels[s].len()
                && #[trigger] chosen.levels[s][i] == c;
        assert(chosen.levels[s].len() <= usize::MAX);
        let j = lemma_site_listed(chosen.levels, s, i);
        assert(gives_state(sc.act(ids, sites + j), id));
    }
    if chosen.is_between(c) {
        let (s, i, r) = choose|s: int, i: int, r: int| #[trigger]
            chosen.has_route(s, i, r) && chosen.route(s, i, r).1.contains(c);
        assert(chosen.connections[s].len() <= usize::MAX);
        assert(chosen.connections[s][i].len() <= usize::MAX);
        let j = lemma_route_listed(chosen.connections, s, i, r);
        let between = chosen.route(s, i, r).1;
        let nodes = between.map_values(|c: usize| sc.node(ids, c));
        let x = choose|x: int| 0 <= x < between.len() && between[x] == c;
        assert(nodes[x] == id);
        assert(gives_state(sc.act(ids, paths + j), id));
    }
}

/// No link is without a path.
spec fn filled(links: Seq<Link>) -> bool {
    forall|m: int| 0 <= m < links.len() ==> (#[trigger] links[m]).1.len() > 0
}

proof fn lemma_note_all_filled(links: Seq<Link>, edges: Seq<usize>, path: usize)
    requires
        filled(links),
    ensures
        filled(note_all(links, edges, path)),
    decreases edges.len(),
{
    if edges.len() > 0 {
        lemma_note_all_filled(links, edges.drop_last(), path);
        let before = note_all(links, edges.drop_last(), path);
        let now = note(before, edges.last(), path);
        lemma_place_of(before, edges.last());
        assert forall|m: int| 0 <= m < now.len() implies (#[trigger] now[m]).1.len() > 0 by {
            if m < before.len() {
                assert(before[m].1.len() > 0);
            }
        }
    }
}

proof fn lemma_edge_links_filled(crossed: Seq<Seq<usize>>)
    ensures
        filled(edge_links(crossed)),
    decreases crossed.len(),
{
    if crossed.len() > 0 {
        lemma_edge_links_filled(crossed.drop_last());
        lemma_note_all_filled(
            edge_links(crossed.drop_last()),
            crossed.last(),
            (crossed.len() - 1) as usize,
        );
    }
}

/// An edge that has a link is crossed by a path.
proof fn lemma_linked_edge_is_crossed(crossed: Seq<Seq<usize>>, m: int) -> (j: int)
    requires
        crossed.len() <= usize::MAX,
        0 <= m < edge_links(crossed).len(),
    ensures
        0 <= j < crossed.len(),
        crossed[j].contains(edge_links(crossed)[m].0),
{
    let links = edge_links(crossed);
    lemma_edge_links_filled(crossed);
    let (edge, paths) = links[m];
    assert(paths.contains(paths[0]));
    assert(tells(links, edge, paths[0]));
    law_links_mirror(crossed, edge, paths[0]);
    paths[0] as int
}

/// An edge carries a state if and only if some path crosses it.
pub proof fn law_crossed_edges_have_states(
    g: &Generated,
    policy: LevelMapPolicy,
    ids: Seq<EntityId>,
    e: usize,
)
    requires
        g.wf(),
        route_list(g.chosen().connections).len() <= usize::MAX,
        ids.no_duplicates(),
        ids.len() == script(g, policy).created(script(g, policy).total()),
        e < g.edges@.len(),
    ensures
        ({
            let sc = script(g, policy);
            sc.stateful(ids, sc.edge(ids, e)) <==> exists|j: int|
                0 <= j < sc.crossed.len() && (#[trigger] sc.crossed[j]).contains(e)
        }),
{
    let sc = script(g, policy);
    let chosen = g.chosen();
    let id = sc.edge(ids, e);
    let sites = sc.base();
    let paths = sites + sc.sites.len();
    let path_links = paths + sc.routes.len();
    let edge_acts = path_links + sc.routes.len();
    lemma_script_is_sound(g, policy);
    lemma_countable(g);
    reveal(Script::act);
    if sc.stateful(ids, id) {
        let k = choose|k: int| 0 <= k < sc.total() && gives_state(#[trigger] sc.act(ids, k), id);
        if k < sites {
        } else if k < paths {
            let (s, i) = sc.sites[k - sites];
            assert(sc.is_site(s as int, i as int));
        } else if k < path_links {
            let (s, i, r) = sc.routes[k - paths];
            assert(sc.is_route(s as int, i as int, r as int));
            let between = chosen.route(s as int, i as int, r as int).1;
            let nodes = between.map_values(|c: usize| sc.node(ids, c));
            assert(sc.path(ids, (k - paths) as usize) != id);
            let x = choose|x: int| 0 <= x < nodes.len() && nodes[x] == id;
            assert(between[x] < sc.cells.len());
        } else if k < edge_acts {
        } else if k < edge_acts + sc.links.len() {
            let m = k - edge_acts;
            assert(sc.is_link(sc.links[m]));
            assert(sc.links[m].0 == e);
            let j = lemma_linked_edge_is_crossed(sc.crossed, m);
            assert(sc.crossed[j].contains(e));
        }
    }
    if exists|j: int| 0 <= j < sc.crossed.len() && (#[trigger] sc.crossed[j]).contains(e) {
        let j = choose|j: int| 0 <= j < sc.crossed.len() && (#[trigger] sc.crossed[j]).contains(e);
        law_links_mirror(sc.crossed, e, j as usize);
        assert(tells(sc.links, e, j as usize));
        let m = choose|m: int|
            0 <= m < sc.links.len() && (#[trigger] sc.links[m]).0 == e && sc.links[m].1.contains(
                j as usize,
            );
        assert(gives_state(sc.act(ids, edge_acts + m), id));
    }
}

/// Every path carries a state.
pub proof fn law_paths_have_states(
    g: &Generated,
    policy: LevelMapPolicy,
    ids: Seq<EntityId>,
    j: usize,
)
    requires
        j < route_list(g.chosen().connections).len() <= usize::MAX,
    ensures
        script(g, policy).stateful(ids, script(g, policy).path(ids, j)),
{
    let sc = script(g, policy);
    reveal(Script::act);
    assert(gives_state(sc.act(ids, sc.base() + sc.sites.len() + j), sc.path(ids, j)));
}

} // verus!
