//! Turns a map into entities.
//!
//! What has to be done to the world is a fixed list of acts. Later acts speak of the
//! entities that earlier ones create. [`LevelMapSpawner`] hands the acts out in order,
//! as many at a time as its caller can afford, so that a large map can be spawned
//! over several frames.
//!
//! Every entity with a state starts as `Inactive`. The last act is a visit of the
//! entry stop, which makes it `Active` and lights up the paths that leave it.

pub mod links;
pub mod parts;
pub mod roles;

use crate::components::{EntityId, LevelMap, MapEdge, Site, VoronoiCell};
use crate::config::{LevelMapConfig, LevelMapPolicy};
use crate::generation::selection::Chosen;
use crate::generation::voronoi::lists;
use crate::generation::{CellData, EdgeData, Generated};
use crate::geometry::PointBits;
use crate::relationships::{EdgePaths, PathEdges, PathFrom, PathTo};
use crate::spawn::links::{
    edge_links, lemma_countable, lemma_crossed_edges, lemma_edge_links, lemma_route_list, lemma_site_list,
    links_of, list_edge_links, list_path_edges, list_routes, list_sites, path_edges, route_list,
    site_list, Link,
};
use crate::visit::VisitLocation;
use vstd::prelude::*;

verus! {

/// One thing to do to the world. Every new entity but the root becomes a child of the
/// root.
pub enum SpawnOp {
    /// Spawn the root of the map.
    Root { entity: EntityId, map: LevelMap, policy: LevelMapPolicy },
    /// Spawn the node of a cell.
    Node { entity: EntityId, index: usize, position: PointBits, cell: VoronoiCell },
    /// Spawn the wall between two cells.
    Edge { entity: EntityId, wall: MapEdge },
    /// Make a node a stop: it gets an address, a position and a state.
    Site { entity: EntityId, address: Site, position: PointBits },
    /// Spawn a path with a state, and make the nodes that it leads through waypoints
    /// with a state. `stage`, `index` and `target` say between which stops it leads.
    Path {
        entity: EntityId,
        stage: usize,
        index: usize,
        target: usize,
        from: PathFrom,
        to: PathTo,
        waypoints: Vec<EntityId>,
    },
    /// Tell a path its edges.
    LinkPath { path: EntityId, edges: PathEdges },
    /// Tell an edge its paths, and give it a state.
    LinkEdge { edge: EntityId, paths: EdgePaths },
    /// Visit the entry stop.
    Visit(VisitLocation),
}

/// A [`SpawnOp`] as values.
pub enum Act {
    Root(EntityId, LevelMap, LevelMapPolicy),
    Node(EntityId, usize, PointBits, Seq<PointBits>),
    Edge(EntityId, MapEdge),
    Site(EntityId, Site, PointBits),
    Path(EntityId, usize, usize, usize, PathFrom, PathTo, Seq<EntityId>),
    LinkPath(EntityId, Seq<EntityId>),
    LinkEdge(EntityId, Seq<EntityId>),
    Visit(VisitLocation),
}

impl View for SpawnOp {
    type V = Act;

    open spec fn view(&self) -> Act {
        match self {
            SpawnOp::Root { entity, map, policy } => Act::Root(*entity, *map, *policy),
            SpawnOp::Node { entity, index, position, cell } => Act::Node(
                *entity,
                *index,
                *position,
                cell.vertices@,
            ),
            SpawnOp::Edge { entity, wall } => Act::Edge(*entity, *wall),
            SpawnOp::Site { entity, address, position } => Act::Site(*entity, *address, *position),
            SpawnOp::Path { entity, stage, index, target, from, to, waypoints } => Act::Path(
                *entity,
                *stage,
                *index,
                *target,
                *from,
                *to,
                waypoints@,
            ),
            SpawnOp::LinkPath { path, edges } => Act::LinkPath(*path, edges@),
            SpawnOp::LinkEdge { edge, paths } => Act::LinkEdge(*edge, paths@),
            SpawnOp::Visit(visit) => Act::Visit(*visit),
        }
    }
}

/// The acts of a list.
pub open spec fn acts(ops: Seq<SpawnOp>) -> Seq<Act> {
    ops.map_values(|op: SpawnOp| op@)
}

/// What the acts of a map are made from.
pub struct Script {
    pub map: LevelMap,
    pub policy: LevelMapPolicy,
    pub cells: Seq<CellData>,
    pub edges: Seq<EdgeData>,
    pub jitters: Seq<Seq<PointBits>>,
    pub chosen: Chosen,
    /// The addresses of the stops.
    pub sites: Seq<(usize, usize)>,
    /// The addresses of the routes.
    pub routes: Seq<(usize, usize, usize)>,
    /// The edges that each path crosses.
    pub crossed: Seq<Seq<usize>>,
    /// The paths that cross each edge.
    pub links: Seq<Link>,
}

/// The script of a map.
pub open spec fn script(g: &Generated, policy: LevelMapPolicy) -> Script {
    Script {
        map: LevelMap {
            size: g.size,
            seed: g.seed,
            requested_seed: g.requested_seed,
            rotation: g.rotation,
            y_offset: g.y_offset,
        },
        policy,
        cells: g.cells@,
        edges: g.edges@,
        jitters: lists(g.level_jitters@),
        chosen: g.chosen(),
        sites: site_list(g.chosen().levels),
        routes: route_list(g.chosen().connections),
        crossed: path_edges(g.chosen(), g.pairs()),
        links: edge_links(path_edges(g.chosen(), g.pairs())),
    }
}

impl Script {
    /// How many acts come before the stops are made: those of the root, the nodes and
    /// the edges.
    pub open spec fn base(self) -> int {
        1int + self.cells.len() + self.edges.len()
    }

    /// How many acts there are.
    pub open spec fn total(self) -> int {
        self.base() + self.sites.len() + self.routes.len() + self.routes.len() + self.links.len() + 1
    }

    /// How many entities the first `k` acts create.
    pub open spec fn created(self, k: int) -> int {
        if k <= self.base() {
            k
        } else if k <= self.base() + self.sites.len() {
            self.base()
        } else if k <= self.base() + self.sites.len() + self.routes.len() {
            k - self.sites.len()
        } else {
            self.base() + self.routes.len()
        }
    }

    /// The node of a cell.
    pub open spec fn node(self, ids: Seq<EntityId>, cell: usize) -> EntityId {
        ids[1 + cell]
    }

    /// The entity of an edge.
    pub open spec fn edge(self, ids: Seq<EntityId>, edge: usize) -> EntityId {
        ids[1 + self.cells.len() + edge]
    }

    /// The entity of a path.
    pub open spec fn path(self, ids: Seq<EntityId>, path: usize) -> EntityId {
        ids[self.base() + path]
    }

    /// Act `k`, where `ids` are the entities in the order of their creation.
    #[verifier::opaque]
    pub open spec fn act(self, ids: Seq<EntityId>, k: int) -> Act {
        let sites = self.base();
        let paths = sites + self.sites.len();
        let path_links = paths + self.routes.len();
        let edge_links = path_links + self.routes.len();
        if k == 0 {
            Act::Root(ids[0], self.map, self.policy)
        } else if k < 1 + self.cells.len() {
            let cell = self.cells[k - 1];
            Act::Node(ids[k], (k - 1) as usize, cell.site, cell.vertices@)
        } else if k < sites {
            let edge = self.edges[k - 1 - self.cells.len()];
            Act::Edge(
                ids[k],
                MapEdge {
                    from: self.node(ids, edge.cells.0),
                    to: self.node(ids, edge.cells.1),
                    wall: edge.wall,
                },
            )
        } else if k < paths {
            let (s, i) = self.sites[k - sites];
            Act::Site(
                self.node(ids, self.chosen.levels[s as int][i as int]),
                Site { belt: s as u32, site: i as u32 },
                self.jitters[s as int][i as int],
            )
        } else if k < path_links {
            let (s, i, r) = self.routes[k - paths];
            let (target, between) = self.chosen.route(s as int, i as int, r as int);
            Act::Path(
                self.path(ids, (k - paths) as usize),
                s,
                i,
                target,
                PathFrom(self.node(ids, self.chosen.levels[s as int][i as int])),
                PathTo(self.node(ids, self.chosen.levels[s + 1][target as int])),
                between.map_values(|c: usize| self.node(ids, c)),
            )
        } else if k < edge_links {
            let j = k - path_links;
            Act::LinkPath(
                self.path(ids, j as usize),
                self.crossed[j].map_values(|e: usize| self.edge(ids, e)),
            )
        } else if k < edge_links + self.links.len() {
            let (e, paths) = self.links[k - edge_links];
            Act::LinkEdge(self.edge(ids, e), paths.map_values(|p: usize| self.path(ids, p)))
        } else {
            Act::Visit(VisitLocation { target: self.node(ids, self.chosen.levels[0][0]) })
        }
    }

    /// All acts.
    pub open spec fn trace(self, ids: Seq<EntityId>) -> Seq<Act> {
        Seq::new(self.total() as nat, |k: int| self.act(ids, k))
    }

    /// Every index of the script is one of a cell, an edge, a stop or a path.
    pub open spec fn sound(self) -> bool {
        &&& self.cells.len() <= usize::MAX
        &&& self.routes.len() <= usize::MAX
        &&& forall|e: int|
            0 <= e < self.edges.len() ==> (#[trigger] self.edges[e]).cells.0 < self.cells.len()
                && self.edges[e].cells.1 < self.cells.len()
        &&& forall|j: int|
            #![trigger self.sites[j]]
            0 <= j < self.sites.len() ==> self.is_site(self.sites[j].0 as int, self.sites[j].1 as int)
        &&& forall|j: int|
            #![trigger self.routes[j]]
            0 <= j < self.routes.len() ==> self.is_route(
                self.routes[j].0 as int,
                self.routes[j].1 as int,
                self.routes[j].2 as int,
            )
        &&& self.crossed.len() == self.routes.len()
        &&& forall|j: int, x: int|
            0 <= j < self.crossed.len() && 0 <= x < self.crossed[j].len() ==> (
            #[trigger] self.crossed[j][x]) < self.edges.len()
        &&& forall|m: int| 0 <= m < self.links.len() ==> self.is_link(#[trigger] self.links[m])
        &&& self.is_site(0, 0)
    }

    /// There is a stop at this address, and it is a cell.
    pub open spec fn is_site(self, s: int, i: int) -> bool {
        &&& 0 <= s < self.chosen.levels.len()
        &&& 0 <= i < self.chosen.levels[s].len()
        &&& self.chosen.levels[s][i] < self.cells.len()
    }

    /// There is a route at this address, between two stops and through cells.
    pub open spec fn is_route(self, s: int, i: int, k: int) -> bool {
        &&& self.chosen.has_route(s, i, k)
        &&& self.is_site(s, i)
        &&& self.is_site(s + 1, self.chosen.route(s, i, k).0 as int)
        &&& forall|x: int|
            0 <= x < self.chosen.route(s, i, k).1.len() ==> (#[trigger] self.chosen.route(
                s,
                i,
                k,
            ).1[x]) < self.cells.len()
    }

    /// The link is between an edge and paths.
    pub open spec fn is_link(self, link: Link) -> bool {
        &&& link.0 < self.edges.len()
        &&& forall|x: int| 0 <= x < link.1.len() ==> (#[trigger] link.1[x]) < self.routes.len()
    }

    /// An act speaks of no entity that a later act creates.
    proof fn lemma_act_looks_back(self, ids: Seq<EntityId>, more: Seq<EntityId>, k: int)
        requires
            self.sound(),
            0 <= k < self.total(),
            ids.len() >= self.created(k + 1),
            more.len() >= ids.len(),
            more.take(ids.len() as int) == ids,
        ensures
            self.act(ids, k) == self.act(more, k),
    {
        reveal(Script::act);
        let sites = self.base();
        let paths = sites + self.sites.len();
        let path_links = paths + self.routes.len();
        let edge_links = path_links + self.routes.len();
        assert forall|i: int| 0 <= i < ids.len() implies #[trigger] ids[i] == more[i] by {
            assert(more.take(ids.len() as int)[i] == more[i]);
        }
        if k < 1 + self.cells.len() {
        } else if k < sites {
            let edge = self.edges[k - 1 - self.cells.len()];
            assert(ids[k] == more[k]);
        } else if k < paths {
            let (s, i) = self.sites[k - sites];
            assert(self.is_site(s as int, i as int));
        } else if k < path_links {
            let (s, i, r) = self.routes[k - paths];
            assert(self.is_route(s as int, i as int, r as int));
            let (target, between) = self.chosen.route(s as int, i as int, r as int);
            assert(between.map_values(|c: usize| self.node(ids, c)) =~= between.map_values(
                |c: usize| self.node(more, c),
            )) by {
                assert forall|x: int| 0 <= x < between.len() implies #[trigger] self.node(
                    ids,
                    between[x],
                ) == self.node(more, between[x]) by {
                    assert(self.chosen.route(s as int, i as int, r as int).1[x]
                        < self.cells.len());
                }
            }
        } else if k < edge_links {
            let j = k - path_links;
            let row = self.crossed[j];
            assert(row.map_values(|e: usize| self.edge(ids, e)) =~= row.map_values(
                |e: usize| self.edge(more, e),
            )) by {
                assert forall|x: int| 0 <= x < row.len() implies #[trigger] self.edge(ids, row[x])
                    == self.edge(more, row[x]) by {
                    assert(self.crossed[j][x] < self.edges.len());
                }
            }
        } else if k < edge_links + self.links.len() {
            let link = self.links[k - edge_links];
            assert(self.is_link(link));
            assert(link.1.map_values(|p: usize| self.path(ids, p)) =~= link.1.map_values(
                |p: usize| self.path(more, p),
            )) by {
                assert forall|x: int| 0 <= x < link.1.len() implies #[trigger] self.path(
                    ids,
                    link.1[x],
                ) == self.path(more, link.1[x]) by {
                    assert(link.1[x] < self.routes.len());
                }
            }
        } else {
            assert(self.is_site(0, 0));
        }
    }
}

/// The script of a map in order is sound. `routes` is the list of its routes.
pub(crate) proof fn lemma_script_is_sound(g: &Generated, policy: LevelMapPolicy)
    requires
        g.wf(),
        route_list(g.chosen().connections).len() <= usize::MAX,
    ensures
        script(g, policy).sound(),
{
    let sc = script(g, policy);
    let chosen = g.chosen();
    let pairs = g.pairs();
    lemma_countable(g);
    assert forall|j: int|
        #![trigger sc.sites[j]]
        0 <= j < sc.sites.len() implies sc.is_site(
        sc.sites[j].0 as int,
        sc.sites[j].1 as int,
    ) by {
        lemma_site_list(chosen.levels, j);
        let (s, i) = sc.sites[j];
        assert(chosen.levels[s as int][i as int] < g.cells@.len());
    }
    assert forall|j: int|
        #![trigger sc.routes[j]]
        0 <= j < sc.routes.len() implies sc.is_route(
        sc.routes[j].0 as int,
        sc.routes[j].1 as int,
        sc.routes[j].2 as int,
    ) by {
        lemma_route_list(chosen.connections, j);
        let (s, i, k) = sc.routes[j];
        assert(chosen.has_route(s as int, i as int, k as int));
        assert(chosen.connections[s as int].len() == chosen.levels[s as int].len());
        assert(chosen.levels[s as int][i as int] < g.cells@.len());
        let target = chosen.route(s as int, i as int, k as int).0;
        assert(chosen.levels[s + 1][target as int] < g.cells@.len());
    }
    assert forall|j: int, x: int|
        0 <= j < sc.crossed.len() && 0 <= x < sc.crossed[j].len() implies (
    #[trigger] sc.crossed[j][x]) < sc.edges.len() by {
        let (s, i, k) = sc.routes[j];
        lemma_crossed_edges(pairs, chosen.visits(s as int, i as int, k as int));
    }
    lemma_edge_links(sc.crossed, sc.edges.len());
    assert(chosen.levels[0][0] < g.cells@.len());
}

/// How far a map has been spawned. Both carry the root.
#[derive(Clone, Copy, Debug, PartialEq, Eq, Structural)]
pub enum SpawnProgress {
    /// There is more to do.
    InProgress(EntityId),
    /// Everything is spawned, and the entry stop is visited.
    Done(EntityId),
}

impl SpawnProgress {
    /// The root of the map.
    pub fn root(self) -> (root: EntityId)
        ensures
            root == (match self {
                SpawnProgress::InProgress(root) => root,
                SpawnProgress::Done(root) => root,
            }),
    {
        match self {
            SpawnProgress::InProgress(root) => root,
            SpawnProgress::Done(root) => root,
        }
    }

    /// Whether everything is spawned.
    pub fn is_done(self) -> (r: bool)
        ensures
            r == (self is Done),
    {
        match self {
            SpawnProgress::InProgress(_) => false,
            SpawnProgress::Done(_) => true,
        }
    }
}

/// What kind of act comes next.
#[derive(Clone, Copy, Debug, PartialEq, Eq, Structural)]
enum SpawnPhase {
    Root,
    Cells,
    Edges,
    Sites,
    Paths,
    LinkPaths,
    LinkEdges,
    Visit,
    Done,
}

impl SpawnPhase {
    spec fn rank(self) -> int {
        match self {
            SpawnPhase::Root => 0,
            SpawnPhase::Cells => 1,
            SpawnPhase::Edges => 2,
            SpawnPhase::Sites => 3,
            SpawnPhase::Paths => 4,
            SpawnPhase::LinkPaths => 5,
            SpawnPhase::LinkEdges => 6,
            SpawnPhase::Visit => 7,
            SpawnPhase::Done => 8,
        }
    }

    /// The phase after this one.
    spec fn following(self) -> SpawnPhase {
        match self {
            SpawnPhase::Root => SpawnPhase::Cells,
            SpawnPhase::Cells => SpawnPhase::Edges,
            SpawnPhase::Edges => SpawnPhase::Sites,
            SpawnPhase::Sites => SpawnPhase::Paths,
            SpawnPhase::Paths => SpawnPhase::LinkPaths,
            SpawnPhase::LinkPaths => SpawnPhase::LinkEdges,
            SpawnPhase::LinkEdges => SpawnPhase::Visit,
            SpawnPhase::Visit => SpawnPhase::Done,
            SpawnPhase::Done => SpawnPhase::Done,
        }
    }

    /// Whether the acts of this phase create entities.
    spec fn creates(self) -> bool {
        self is Root || self is Cells || self is Edges || self is Paths
    }

    fn after(self) -> (next: SpawnPhase)
        ensures
            next == self.following(),
    {
        match self {
            SpawnPhase::Root => SpawnPhase::Cells,
            SpawnPhase::Cells => SpawnPhase::Edges,
            SpawnPhase::Edges => SpawnPhase::Sites,
            SpawnPhase::Sites => SpawnPhase::Paths,
            SpawnPhase::Paths => SpawnPhase::LinkPaths,
            SpawnPhase::LinkPaths => SpawnPhase::LinkEdges,
            SpawnPhase::LinkEdges => SpawnPhase::Visit,
            SpawnPhase::Visit => SpawnPhase::Done,
            SpawnPhase::Done => SpawnPhase::Done,
        }
    }

    fn makes_entities(self) -> (r: bool)
        ensures
            r == self.creates(),
    {
        match self {
            SpawnPhase::Root => true,
            SpawnPhase::Cells => true,
            SpawnPhase::Edges => true,
            SpawnPhase::Paths => true,
            _ => false,
        }
    }
}

impl Script {
    /// How many acts a phase has.
    spec fn len_of(self, phase: SpawnPhase) -> int {
        match phase {
            SpawnPhase::Root => 1,
            SpawnPhase::Cells => self.cells.len() as int,
            SpawnPhase::Edges => self.edges.len() as int,
            SpawnPhase::Sites => self.sites.len() as int,
            SpawnPhase::Paths => self.routes.len() as int,
            SpawnPhase::LinkPaths => self.routes.len() as int,
            SpawnPhase::LinkEdges => self.links.len() as int,
            SpawnPhase::Visit => 1,
            SpawnPhase::Done => 0,
        }
    }

    /// How many acts come before a phase.
    spec fn start_of(self, phase: SpawnPhase) -> int {
        let sites = self.base();
        let paths = sites + self.sites.len();
        let path_links = paths + self.routes.len();
        let edge_links = path_links + self.routes.len();
        match phase {
            SpawnPhase::Root => 0,
            SpawnPhase::Cells => 1,
            SpawnPhase::Edges => 1int + self.cells.len(),
            SpawnPhase::Sites => sites,
            SpawnPhase::Paths => paths,
            SpawnPhase::LinkPaths => path_links,
            SpawnPhase::LinkEdges => edge_links,
            SpawnPhase::Visit => edge_links + self.links.len(),
            SpawnPhase::Done => self.total(),
        }
    }

    /// What `k` acts of a phase create, and what follows its last one.
    proof fn lemma_phase(self, phase: SpawnPhase, next: int, k: int)
        requires
            phase !is Done,
            0 <= next,
            0 <= k,
            next + k <= self.len_of(phase),
        ensures
            self.created(self.start_of(phase) + next + k) == self.created(
                self.start_of(phase) + next,
            ) + if phase.creates() {
                k
            } else {
                0
            },
            self.start_of(phase) + self.len_of(phase) == self.start_of(phase.following()),
            0 <= self.start_of(phase),
            self.start_of(phase) + self.len_of(phase) <= self.total(),
    {
    }

    /// How many acts are handed out after `pos` if `budget` of them can be afforded.
    /// The root comes in any case.
    pub open spec fn until(self, pos: int, budget: nat) -> int {
        let want = if pos == 0 && budget == 0 {
            1
        } else {
            budget as int
        };
        if pos + want < self.total() {
            pos + want
        } else {
            self.total()
        }
    }
}

/// Spawns a map in steps.
pub struct LevelMapSpawner {
    policy: LevelMapPolicy,
    generated: Generated,
    sites: Vec<(usize, usize)>,
    routes: Vec<(usize, usize, usize)>,
    crossed: Vec<Vec<usize>>,
    links: Vec<(usize, Vec<usize>)>,
    ids: Vec<EntityId>,
    phase: SpawnPhase,
    next: usize,
}

impl LevelMapSpawner {
    /// What is spawned.
    pub closed spec fn script(&self) -> Script {
        script(&self.generated, self.policy)
    }

    /// The entities created so far.
    pub closed spec fn ids(&self) -> Seq<EntityId> {
        self.ids@
    }

    /// How many acts have been handed out.
    pub closed spec fn pos(&self) -> int {
        self.script().start_of(self.phase) + self.next
    }

    /// The spawner is in order.
    #[verifier::opaque]
    pub closed spec fn wf(&self) -> bool {
        &&& self.generated.wf()
        &&& self.script().sound()
        &&& self.sites@ == self.script().sites
        &&& self.routes@ == self.script().routes
        &&& lists(self.crossed@) == self.script().crossed
        &&& links_of(self.links@) == self.script().links
        &&& self.next <= self.script().len_of(self.phase)
        &&& self.ids@.len() == self.script().created(self.pos())
    }

    /// A spawner that has spawned nothing yet.
    pub fn new(cfg: &LevelMapConfig, generated: Generated) -> (spawner: Self)
        requires
            generated.wf(),
        ensures
            spawner.wf(),
            spawner.script() == script(&generated, cfg.policy),
            spawner.pos() == 0,
            spawner.ids() == Seq::<EntityId>::empty(),
    {
        let sites = list_sites(&generated.levels);
        let routes = list_routes(&generated.connections);
        let crossed = list_path_edges(&generated, &routes);
        let edges = generated.edges.len();
        proof {
            assert(routes@.len() == routes.len());
            lemma_script_is_sound(&generated, cfg.policy);
            let sc = script(&generated, cfg.policy);
            assert forall|j: int, k: int|
                0 <= j < crossed@.len() && 0 <= k < crossed@[j]@.len() implies (
            #[trigger] crossed@[j]@[k]) < edges by {
                assert(sc.crossed[j] == crossed@[j]@);
                assert(sc.crossed[j][k] < sc.edges.len());
            }
        }
        let links = list_edge_links(&crossed, edges);
        proof {
            reveal(LevelMapSpawner::wf);
        }
        LevelMapSpawner {
            policy: cfg.policy,
            generated,
            sites,
            routes,
            crossed,
            links,
            ids: Vec::new(),
            phase: SpawnPhase::Root,
            next: 0,
        }
    }

    /// The root of the map, once it is spawned.
    pub fn root(&self) -> (r: Option<EntityId>)
        ensures
            r == (if self.ids().len() > 0 {
                Some(self.ids()[0])
            } else {
                None
            }),
    {
        if self.ids.len() > 0 {
            Some(self.ids[0])
        } else {
            None
        }
    }

    /// How many acts a phase has.
    fn phase_len(&self, phase: SpawnPhase) -> (n: usize)
        requires
            self.wf(),
        ensures
            n == self.script().len_of(phase),
    {
        proof {
            reveal(LevelMapSpawner::wf);
        }
        match phase {
            SpawnPhase::Root => 1,
            SpawnPhase::Cells => self.generated.cells.len(),
            SpawnPhase::Edges => self.generated.edges.len(),
            SpawnPhase::Sites => self.sites.len(),
            SpawnPhase::Paths => self.routes.len(),
            SpawnPhase::LinkPaths => self.routes.len(),
            SpawnPhase::LinkEdges => {
                assert(links_of(self.links@).len() == self.links@.len());
                self.links.len()
            },
            SpawnPhase::Visit => 1,
            SpawnPhase::Done => 0,
        }
    }

    /// Moves on to a phase that has acts left.
    fn settle(&mut self)
        requires
            old(self).wf(),
        ensures
            final(self).wf(),
            final(self).script() == old(self).script(),
            final(self).pos() == old(self).pos(),
            final(self).ids() == old(self).ids(),
            final(self).phase is Done || final(self).next < final(self).script().len_of(
                final(self).phase,
            ),
    {
        while self.next >= self.phase_len(self.phase) && !matches!(self.phase, SpawnPhase::Done)
            invariant
                self.wf(),
                self.script() == old(self).script(),
                self.pos() == old(self).pos(),
                self.ids() == old(self).ids(),
            decreases 8 - self.phase.rank(),
        {
            proof {
                reveal(LevelMapSpawner::wf);
            }
            self.phase = self.phase.after();
            self.next = 0;
        }
    }
}

/// The entities at some places of a list, counted from `offset`.
fn pick_ids(ids: &Vec<EntityId>, offset: usize, places: &Vec<usize>) -> (r: Vec<EntityId>)
    requires
        forall|x: int| 0 <= x < places@.len() ==> offset + (#[trigger] places@[x]) < ids@.len(),
    ensures
        r@ == places@.map_values(|p: usize| ids@[offset + p]),
{
    let mut r: Vec<EntityId> = Vec::new();
    let mut x: usize = 0;
    while x < places.len()
        invariant
            x <= places@.len(),
            forall|x: int| 0 <= x < places@.len() ==> offset + (#[trigger] places@[x]) < ids@.len(),
            r@.len() == x,
            forall|y: int| 0 <= y < x ==> #[trigger] r@[y] == ids@[offset + places@[y]],
        decreases places@.len() - x,
    {
        assert(offset + places@[x as int] < ids@.len());
        assert(ids@.len() == ids.len());
        r.push(ids[offset + places[x]]);
        x += 1;
    }
    assert(r@ =~= places@.map_values(|p: usize| ids@[offset + p]));
    r
}

impl LevelMapSpawner {
    /// Act number `self.next` of the phase. The entity that it creates, if it creates
    /// one, is the last of `self.ids`.
    fn compose(&self) -> (op: SpawnOp)
        requires
            self.generated.wf(),
            self.script().sound(),
            self.sites@ == self.script().sites,
            self.routes@ == self.script().routes,
            lists(self.crossed@) == self.script().crossed,
            links_of(self.links@) == self.script().links,
            self.next < self.script().len_of(self.phase),
            self.ids@.len() == self.script().created(self.pos() + 1),
        ensures
            op@ == self.script().act(self.ids(), self.pos()),
    {
        let ghost sc = self.script();
        let g = &self.generated;
        let cells = g.cells.len();
        let i = self.next;
        proof {
            reveal(Script::act);
            assert(self.ids@.len() == self.ids.len());
        }
        match self.phase {
            SpawnPhase::Root => SpawnOp::Root {
                entity: self.ids[0],
                map: LevelMap {
                    size: g.size,
                    seed: g.seed,
                    requested_seed: g.requested_seed,
                    rotation: g.rotation,
                    y_offset: g.y_offset,
                },
                policy: self.policy,
            },
            SpawnPhase::Cells => {
                let vertices = g.cells[i].vertices.clone();
                assert(vertices@ =~= g.cells@[i as int].vertices@);
                SpawnOp::Node {
                    entity: self.ids[1 + i],
                    index: i,
                    position: g.cells[i].site,
                    cell: VoronoiCell { vertices },
                }
            },
            SpawnPhase::Edges => {
                let edge = g.edges[i];
                assert(sc.edges[i as int].cells.0 < sc.cells.len());
                SpawnOp::Edge {
                    entity: self.ids[1 + cells + i],
                    wall: MapEdge {
                        from: self.ids[1 + edge.cells.0],
                        to: self.ids[1 + edge.cells.1],
                        wall: edge.wall,
                    },
                }
            },
            SpawnPhase::Sites => {
                let (s, k) = self.sites[i];
                assert(sc.is_site(sc.sites[i as int].0 as int, sc.sites[i as int].1 as int));
                assert(g.levels@[s as int]@ == sc.chosen.levels[s as int]);
                assert(g.level_jitters@[s as int]@.len() == g.levels@[s as int]@.len());
                assert(g.level_jitters@[s as int]@ == sc.jitters[s as int]);
                SpawnOp::Site {
                    entity: self.ids[1 + g.levels[s][k]],
                    address: Site { belt: s as u32, site: k as u32 },
                    position: g.level_jitters[s][k],
                }
            },
            SpawnPhase::Paths => {
                let (s, k, r) = self.routes[i];
                proof {
                    assert(sc.is_route(
                        sc.routes[i as int].0 as int,
                        sc.routes[i as int].1 as int,
                        sc.routes[i as int].2 as int,
                    ));
                    assert(g.levels@.len() == g.levels.len());
                    assert(g.levels@[s as int]@ == sc.chosen.levels[s as int]);
                    assert(g.levels@[s + 1]@ == sc.chosen.levels[s + 1]);
                }
                let route = &g.connections[s][k][r];
                proof {
                    assert(route.route() == sc.chosen.route(s as int, k as int, r as int));
                    assert forall|x: int|
                        0 <= x < route.intermediate_cells@.len() implies 1 + (
                    #[trigger] route.intermediate_cells@[x]) < self.ids@.len() by {
                        assert(sc.chosen.route(s as int, k as int, r as int).1[x]
                            < sc.cells.len());
                    }
                }
                let waypoints = pick_ids(&self.ids, 1, &route.intermediate_cells);
                assert(waypoints@ =~= route.intermediate_cells@.map_values(
                    |c: usize| sc.node(self.ids@, c),
                ));
                let entity = self.ids[1 + cells + g.edges.len() + i];
                SpawnOp::Path {
                    entity,
                    stage: s,
                    index: k,
                    target: route.target_in_next,
                    from: PathFrom(self.ids[1 + g.levels[s][k]]),
                    to: PathTo(self.ids[1 + g.levels[s + 1][route.target_in_next]]),
                    waypoints,
                }
            },
            SpawnPhase::LinkPaths => {
                proof {
                    assert(sc.crossed[i as int] == self.crossed@[i as int]@);
                    assert forall|x: int| 0 <= x < self.crossed@[i as int]@.len() implies 1 + cells
                        + (#[trigger] self.crossed@[i as int]@[x]) < self.ids@.len() by {
                        assert(sc.crossed[i as int][x] < sc.edges.len());
                    }
                }
                let edges = pick_ids(&self.ids, 1 + cells, &self.crossed[i]);
                assert(edges@ =~= sc.crossed[i as int].map_values(
                    |e: usize| sc.edge(self.ids@, e),
                ));
                SpawnOp::LinkPath {
                    path: self.ids[1 + cells + g.edges.len() + i],
                    edges: PathEdges::new(edges),
                }
            },
            SpawnPhase::LinkEdges => {
                let base = 1 + cells + g.edges.len();
                let link = &self.links[i];
                proof {
                    assert(links_of(self.links@)[i as int] == (link.0, link.1@));
                    assert(sc.is_link(sc.links[i as int]));
                    assert forall|x: int| 0 <= x < link.1@.len() implies base + (
                    #[trigger] link.1@[x]) < self.ids@.len() by {
                        assert(sc.links[i as int].1[x] < sc.routes.len());
                    }
                }
                let paths = pick_ids(&self.ids, base, &link.1);
                assert(paths@ =~= sc.links[i as int].1.map_values(
                    |p: usize| sc.path(self.ids@, p),
                ));
                SpawnOp::LinkEdge {
                    edge: self.ids[1 + cells + link.0],
                    paths: EdgePaths::new(paths),
                }
            },
            _ => {
                assert(sc.is_site(0, 0));
                assert(g.levels@[0]@ == sc.chosen.levels[0]);
                SpawnOp::Visit(VisitLocation { target: self.ids[1 + g.levels[0][0]] })
            },
        }
    }

    /// How many new entities the next step needs.
    #[verifier::rlimit(40)]
    pub fn fresh_needed(&self, budget: usize) -> (n: usize)
        requires
            self.wf(),
        ensures
            n == self.script().created(self.script().until(self.pos(), budget as nat))
                - self.script().created(self.pos()),
    {
        let ghost sc = self.script();
        let ghost start = self.pos();
        proof {
            self.lemma_pos();
        }
        let want: usize = match self.phase {
            SpawnPhase::Root => if self.next == 0 && budget == 0 {
                1
            } else {
                budget
            },
            _ => budget,
        };
        let mut phase = self.phase;
        let mut next = self.next;
        let mut left = want;
        let mut n: usize = 0;
        while !matches!(phase, SpawnPhase::Done)
            invariant
                self.wf(),
                sc == self.script(),
                start == self.pos(),
                left <= want,
                next <= sc.len_of(phase),
                sc.start_of(phase) + next == start + (want - left),
                n == sc.created(sc.start_of(phase) + next) - sc.created(start),
                n <= want - left,
                want == (if start == 0 && budget == 0 {
                    1
                } else {
                    budget as int
                }),
            decreases 8 - phase.rank(),
        {
            let rest = self.phase_len(phase) - next;
            if rest > left {
                proof {
                    sc.lemma_phase(phase, next as int, left as int);
                }
                if phase.makes_entities() {
                    n = n + left;
                }
                return n;
            }
            proof {
                sc.lemma_phase(phase, next as int, rest as int);
            }
            if phase.makes_entities() {
                n = n + rest;
            }
            left = left - rest;
            phase = phase.after();
            next = 0;
        }
        n
    }
}

impl Script {
    /// Acts that are done stay what they are when more entities are created.
    proof fn lemma_trace_extends(
        self,
        ids: Seq<EntityId>,
        more: Seq<EntityId>,
        start: int,
        pos: int,
    )
        requires
            self.sound(),
            0 <= start <= pos <= self.total(),
            ids.len() >= self.created(pos),
            more.len() >= ids.len(),
            more.take(ids.len() as int) == ids,
        ensures
            self.trace(more).subrange(start, pos) == self.trace(ids).subrange(start, pos),
    {
        assert forall|k: int| start <= k < pos implies #[trigger] self.act(ids, k) == self.act(
            more,
            k,
        ) by {
            self.lemma_created_grows(k + 1, pos);
            self.lemma_act_looks_back(ids, more, k);
        }
        assert(self.trace(more).subrange(start, pos) =~= self.trace(ids).subrange(start, pos));
    }

    /// Later acts create no fewer entities.
    proof fn lemma_created_grows(self, a: int, b: int)
        requires
            0 <= a <= b <= self.total(),
        ensures
            self.created(a) <= self.created(b) <= self.created(a) + (b - a),
    {
    }
}

impl LevelMapSpawner {
    /// Does the next act. `fresh` is the entity that it creates, if it creates one.
    fn advance(&mut self, fresh: EntityId) -> (op: SpawnOp)
        requires
            old(self).wf(),
            old(self).next < old(self).script().len_of(old(self).phase),
        ensures
            final(self).wf(),
            final(self).script() == old(self).script(),
            final(self).pos() == old(self).pos() + 1,
            final(self).ids() == (if old(self).phase.creates() {
                old(self).ids().push(fresh)
            } else {
                old(self).ids()
            }),
            op@ == final(self).script().act(final(self).ids(), old(self).pos()),
    {
        let len = self.phase_len(self.phase);
        assert(self.next < len);
        proof {
            reveal(LevelMapSpawner::wf);
        }
        if self.phase.makes_entities() {
            self.ids.push(fresh);
        }
        let op = self.compose();
        self.next = self.next + 1;
        op
    }

    /// Hands out the next acts, at most `budget` of them; the root comes in any case.
    /// Acts create the entities of `fresh` in order; [`Self::fresh_needed`] tells how
    /// many there must be. The map is done once the visit of the entry stop has been
    /// handed out.
    pub fn step(&mut self, fresh: &Vec<EntityId>, budget: usize) -> (r: (
        SpawnProgress,
        Vec<SpawnOp>,
    ))
        requires
            old(self).wf(),
            fresh@.len() == old(self).script().created(
                old(self).script().until(old(self).pos(), budget as nat),
            ) - old(self).script().created(old(self).pos()),
        ensures
            final(self).wf(),
            final(self).script() == old(self).script(),
            final(self).pos() == old(self).script().until(old(self).pos(), budget as nat),
            final(self).ids() == old(self).ids() + fresh@,
            acts(r.1@) == final(self).script().trace(final(self).ids()).subrange(
                old(self).pos(),
                final(self).pos(),
            ),
            final(self).ids().len() > 0,
            r.0 == (if final(self).pos() == final(self).script().total() {
                SpawnProgress::Done(final(self).ids()[0])
            } else {
                SpawnProgress::InProgress(final(self).ids()[0])
            }),
    {
        let ghost sc = self.script();
        let ghost start = self.pos();
        let ghost end = sc.until(start, budget as nat);
        let want: usize = if self.ids.len() == 0 && budget == 0 {
            1
        } else {
            budget
        };
        let mut ops: Vec<SpawnOp> = Vec::new();
        let mut spent: usize = 0;
        let mut used: usize = 0;
        let mut done = false;
        proof {
            self.lemma_pos();
            assert(self.ids@ =~= old(self).ids@ + fresh@.take(0));
            assert(acts(ops@) =~= sc.trace(self.ids@).subrange(start, start));
        }
        while spent < want && !done
            invariant
                old(self).wf(),
                sc == old(self).script(),
                start == old(self).pos(),
                end == sc.until(start, budget as nat),
                self.wf(),
                self.script() == sc,
                want == (if start == 0 && budget == 0 {
                    1
                } else {
                    budget as int
                }),
                fresh@.len() == sc.created(end) - sc.created(start),
                0 <= start <= sc.total(),
                spent <= want,
                self.pos() == start + ops@.len(),
                !done ==> ops@.len() == spent,
                done ==> self.pos() == sc.total(),
                self.pos() <= end,
                done ==> end == sc.total(),
                used == sc.created(self.pos()) - sc.created(start),
                used <= fresh@.len(),
                self.ids@ == old(self).ids@ + fresh@.take(used as int),
                acts(ops@) == sc.trace(self.ids@).subrange(start, self.pos()),
            decreases want - spent, !done as int,
        {
            self.settle();
            proof {
                self.lemma_pos();
            }
            if matches!(self.phase, SpawnPhase::Done) {
                done = true;
            } else {
                let ghost pos = self.pos();
                let ghost ids = self.ids@;
                proof {
                    self.lemma_creates();
                    sc.lemma_created_grows(pos + 1, end);
                    assert(fresh@.len() == fresh.len());
                }
                let id: EntityId = if self.phase.makes_entities() {
                    fresh[used]
                } else {
                    0
                };
                let makes = self.phase.makes_entities();
                let op = self.advance(id);
                let ghost before = ops@;
                ops.push(op);
                spent = spent + 1;
                if makes {
                    used = used + 1;
                }
                proof {
                    if makes {
                        assert(fresh@.take(used as int) =~= fresh@.take(used - 1).push(id));
                        assert(self.ids@ =~= old(self).ids@ + fresh@.take(used as int));
                    }
                    assert(self.ids@.take(ids.len() as int) =~= ids);
                    sc.lemma_trace_extends(ids, self.ids@, start, pos);
                    assert(acts(ops@) =~= acts(before).push(op@));
                    assert(sc.trace(self.ids@).subrange(start, pos + 1) =~= sc.trace(
                        self.ids@,
                    ).subrange(start, pos).push(sc.act(self.ids@, pos)));
                }
            }
        }
        proof {
            self.lemma_pos();
            assert(fresh@.take(used as int) =~= fresh@);
        }
        let root = self.ids[0];
        self.settle();
        if matches!(self.phase, SpawnPhase::Done) {
            (SpawnProgress::Done(root), ops)
        } else {
            (SpawnProgress::InProgress(root), ops)
        }
    }

    /// Where the spawner can be.
    proof fn lemma_pos(&self)
        requires
            self.wf(),
        ensures
            0 <= self.pos() <= self.script().total(),
            self.phase is Done <==> self.script().start_of(self.phase) == self.script().total(),
            self.next < self.script().len_of(self.phase) ==> self.pos() < self.script().total(),
            self.ids@.len() == 0 <==> self.pos() == 0,
            self.ids@.len() == self.script().created(self.pos()),
            self.next <= self.script().len_of(self.phase),
            self.script().sound(),
    {
        reveal(LevelMapSpawner::wf);
    }

    /// The act of a phase that creates entities creates one.
    proof fn lemma_creates(&self)
        requires
            self.wf(),
            self.next < self.script().len_of(self.phase),
        ensures
            self.script().created(self.pos() + 1) == self.script().created(self.pos()) + (
            if self.phase.creates() {
                1int
            } else {
                0
            }),
    {
        reveal(LevelMapSpawner::wf);
    }
}

/// What is handed out in steps that end after `cuts` acts, where each step knows only
/// the entities that have been created by its end.
pub open spec fn handed_out(sc: Script, ids: Seq<EntityId>, cuts: Seq<int>) -> Seq<Act>
    decreases cuts.len(),
{
    if cuts.len() < 2 {
        Seq::empty()
    } else {
        let end = cuts.last();
        handed_out(sc, ids, cuts.drop_last()) + sc.trace(ids.take(sc.created(end))).subrange(
            cuts[cuts.len() - 2],
            end,
        )
    }
}

/// However a map is split into steps, the steps hand out the acts of the whole map,
/// all of them, once and in order.
pub proof fn law_steps_make_up_the_map(sc: Script, ids: Seq<EntityId>, cuts: Seq<int>)
    requires
        sc.sound(),
        ids.len() == sc.created(sc.total()),
        cuts.len() > 0,
        cuts[0] == 0,
        forall|i: int, j: int|
            #![trigger cuts[i], cuts[j]]
            0 <= i <= j < cuts.len() ==> cuts[i] <= cuts[j] && cuts[j] <= sc.total(),
    ensures
        handed_out(sc, ids, cuts) == sc.trace(ids).subrange(0, cuts.last()),
    decreases cuts.len(),
{
    if cuts.len() >= 2 {
        let rest = cuts.drop_last();
        let mid = cuts[cuts.len() - 2];
        let end = cuts.last();
        assert(cuts[0] <= mid <= end);
        assert forall|i: int, j: int|
            #![trigger rest[i], rest[j]]
            0 <= i <= j < rest.len() implies rest[i] <= rest[j] && rest[j] <= sc.total() by {
            assert(cuts[i] <= cuts[j]);
        }
        law_steps_make_up_the_map(sc, ids, rest);
        sc.lemma_created_grows(end, sc.total());
        let known = ids.take(sc.created(end));
        assert(ids.take(known.len() as int) =~= known);
        sc.lemma_trace_extends(known, ids, mid, end);
        assert(sc.trace(ids).subrange(0, mid) + sc.trace(ids).subrange(mid, end) =~= sc.trace(
            ids,
        ).subrange(0, end));
    } else {
        assert(sc.trace(ids).subrange(0, 0) =~= Seq::empty());
    }
}

} // verus!
