//! Visits: what a move of the player does to the states of nodes, paths and edges.
//!
//! A visit touches three layers: the node that was active and the destination; the
//! path between them, with its edges and the nodes along it; and every path that
//! leaves the destination, with its edges and nodes, so that the corridors ahead
//! light up as one.
//!
//! Every write is a promotion. What is `Visited` stays so, but for a revisit, and no
//! `Available` replaces anything higher. So the outcome does not depend on the order
//! of the writes.

use crate::components::EntityId;
use crate::config::{default_policy, LevelMapPolicy};
use crate::relationships::{IncomingPaths, OutgoingPaths, PathEdges, PathFrom, PathTo};
use crate::sequences::lemma_push_contains;
use crate::state::LocationState;
use std::collections::HashMap;
use vstd::prelude::*;

pub mod entries;

verus! {

/// A request to move to a node, or to enter a path. A path that is entered becomes
/// `Visited`, and its destination `Active`.
#[derive(Clone, Copy, Debug, PartialEq, Eq, Structural)]
pub struct VisitLocation {
    pub target: EntityId,
}

/// What is known of one entity.
pub struct Entry {
    /// It is a cell of the map.
    pub is_node: bool,
    /// It is a path of the map.
    pub is_path: bool,
    /// The entity that it is a child of.
    pub parent: Option<EntityId>,
    /// Its state. Cells and walls off every path have none.
    pub state: Option<LocationState>,
    /// The ends of a path.
    pub ends: Option<(PathFrom, PathTo)>,
    /// The edges of a path.
    pub edges: Option<PathEdges>,
    /// The paths that leave a node.
    pub outgoing: Option<OutgoingPaths>,
    /// The paths that arrive at a node.
    pub incoming: Option<IncomingPaths>,
    /// The two nodes that an edge lies between.
    pub sides: Option<(EntityId, EntityId)>,
    /// The rules of the map that this is the root of.
    pub policy: Option<LevelMapPolicy>,
}

/// What a visit reads: the entities, and the nodes among them in the order in which
/// they are searched.
pub struct Snapshot {
    pub entities: HashMap<EntityId, Entry>,
    pub nodes: Vec<EntityId>,
}

/// A request to write a state.
#[derive(Clone, Copy, Debug, PartialEq, Eq, Structural)]
pub struct StateChange {
    pub entity: EntityId,
    pub next: LocationState,
}

/// A move that is allowed.
#[derive(Clone, Copy, Debug, PartialEq, Eq, Structural)]
pub struct Decision {
    /// The node that is active before the move.
    pub previous_active: Option<EntityId>,
    /// The node that the move leads to.
    pub new_active: EntityId,
    /// The path that leads from one to the other.
    pub connecting_path: Option<EntityId>,
    /// The path that is entered, if the target is a path.
    pub entered_path: Option<EntityId>,
}

/// What becomes of a request.
#[derive(Clone, Copy, Debug, PartialEq, Eq, Structural)]
pub enum Verdict {
    /// The target is neither a node nor a path.
    Unknown,
    /// The target is a path, and paths may not be visited.
    PathVisitDisabled,
    /// The target is a path without ends.
    MissingEnds,
    /// The destination is `Visited`, and may not be visited again.
    RevisitDisabled(EntityId),
    /// No path leads to the destination, and teleports are not allowed.
    TeleportDisabled(EntityId),
    /// The move is made.
    Move(Decision),
}

impl Snapshot {
    /// The state of an entity.
    pub open spec fn state_of(&self, id: EntityId) -> Option<LocationState> {
        if self.entities@.contains_key(id) {
            self.entities@[id].state
        } else {
            None
        }
    }

    /// The parent of an entity.
    pub open spec fn parent_of(&self, id: EntityId) -> Option<EntityId> {
        if self.entities@.contains_key(id) {
            self.entities@[id].parent
        } else {
            None
        }
    }

    /// The ends of a path.
    pub open spec fn ends_of(&self, id: EntityId) -> Option<(PathFrom, PathTo)> {
        if self.entities@.contains_key(id) {
            self.entities@[id].ends
        } else {
            None
        }
    }

    /// The two nodes beside an edge.
    pub open spec fn sides_of(&self, id: EntityId) -> Option<(EntityId, EntityId)> {
        if self.entities@.contains_key(id) {
            self.entities@[id].sides
        } else {
            None
        }
    }

    /// The edges of a path; none if it is not known to have any.
    pub open spec fn edges_of(&self, id: EntityId) -> Seq<EntityId> {
        if self.entities@.contains_key(id) && self.entities@[id].edges is Some {
            self.entities@[id].edges->Some_0@
        } else {
            Seq::empty()
        }
    }

    /// The paths that leave a node.
    pub open spec fn outgoing_of(&self, id: EntityId) -> Seq<EntityId> {
        if self.entities@.contains_key(id) && self.entities@[id].outgoing is Some {
            self.entities@[id].outgoing->Some_0@
        } else {
            Seq::empty()
        }
    }

    /// The paths that arrive at a node.
    pub open spec fn incoming_of(&self, id: EntityId) -> Seq<EntityId> {
        if self.entities@.contains_key(id) && self.entities@[id].incoming is Some {
            self.entities@[id].incoming->Some_0@
        } else {
            Seq::empty()
        }
    }

    /// It is a node.
    pub open spec fn is_node(&self, id: EntityId) -> bool {
        self.entities@.contains_key(id) && self.entities@[id].is_node
    }

    /// It is a path.
    pub open spec fn is_path(&self, id: EntityId) -> bool {
        self.entities@.contains_key(id) && self.entities@[id].is_path
    }

    /// The rules that hold for a target: those of its parent.
    pub open spec fn policy_for(&self, target: EntityId) -> LevelMapPolicy {
        match self.parent_of(target) {
            Some(root) => if self.entities@.contains_key(root)
                && self.entities@[root].policy is Some {
                self.entities@[root].policy->Some_0
            } else {
                default_policy()
            },
            None => default_policy(),
        }
    }

    /// `id` is active on the map that `root` is the root of.
    pub open spec fn active_on(&self, root: Option<EntityId>, id: EntityId) -> bool {
        &&& self.state_of(id) == Some(LocationState::Active)
        &&& self.parent_of(id) is Some
        &&& self.parent_of(id) == root
    }

    /// The first of `nodes` that is active on the map.
    pub open spec fn first_active(&self, root: Option<EntityId>, nodes: Seq<EntityId>) -> Option<
        EntityId,
    >
        decreases nodes.len(),
    {
        if nodes.len() == 0 {
            None
        } else {
            match self.first_active(root, nodes.drop_last()) {
                Some(id) => Some(id),
                None => if self.active_on(root, nodes.last()) {
                    Some(nodes.last())
                } else {
                    None
                },
            }
        }
    }

    /// The path starts at `from`.
    pub open spec fn starts_at(&self, path: EntityId, from: EntityId) -> bool {
        self.ends_of(path) is Some && self.ends_of(path)->Some_0.0.0 == from
    }

    /// The first of `paths` that starts at `from`.
    pub open spec fn first_from(&self, from: EntityId, paths: Seq<EntityId>) -> Option<EntityId>
        decreases paths.len(),
    {
        if paths.len() == 0 {
            None
        } else {
            match self.first_from(from, paths.drop_last()) {
                Some(path) => Some(path),
                None => if self.starts_at(paths.last(), from) {
                    Some(paths.last())
                } else {
                    None
                },
            }
        }
    }

    /// The node that is active on the map of a target.
    pub open spec fn previous(&self, target: EntityId) -> Option<EntityId> {
        self.first_active(self.parent_of(target), self.nodes@)
    }

    /// The path that leads to the destination, if there is one, and the destination;
    /// nothing if the target is a path without ends.
    pub open spec fn route(&self, target: EntityId) -> Option<(Option<EntityId>, EntityId)> {
        if self.is_node(target) {
            Some(
                (
                    match self.previous(target) {
                        Some(prev) => self.first_from(prev, self.incoming_of(target)),
                        None => None,
                    },
                    target,
                ),
            )
        } else {
            match self.ends_of(target) {
                Some((from, to)) => Some(
                    (
                        if self.previous(target) == Some(from.0) {
                            Some(target)
                        } else {
                            None
                        },
                        to.0,
                    ),
                ),
                None => None,
            }
        }
    }

    /// What becomes of a request.
    pub open spec fn verdict(&self, target: EntityId) -> Verdict {
        let policy = self.policy_for(target);
        let prev = self.previous(target);
        if !self.is_node(target) && !self.is_path(target) {
            Verdict::Unknown
        } else if !self.is_node(target) && !policy.allow_path_visit {
            Verdict::PathVisitDisabled
        } else {
            match self.route(target) {
                None => Verdict::MissingEnds,
                Some((path, dest)) => if self.state_of(dest) == Some(LocationState::Visited)
                    && !policy.allow_revisit {
                    Verdict::RevisitDisabled(dest)
                } else if path is None && prev is Some && !policy.allow_teleport {
                    Verdict::TeleportDisabled(dest)
                } else {
                    Verdict::Move(
                        Decision {
                            previous_active: prev,
                            new_active: dest,
                            connecting_path: path,
                            entered_path: if self.is_node(target) {
                                None
                            } else {
                                Some(target)
                            },
                        },
                    )
                },
            }
        }
    }

    /// The request to write `next`, if that is a promotion.
    pub open spec fn promotion(&self, id: EntityId, next: LocationState) -> Seq<StateChange> {
        match self.state_of(id) {
            Some(state) => if state != next && state.may_become(next) {
                seq![StateChange { entity: id, next }]
            } else {
                Seq::empty()
            },
            None => Seq::empty(),
        }
    }

    /// The promotions of an edge and of the nodes beside it.
    pub open spec fn edge_promotions(&self, edge: EntityId, next: LocationState) -> Seq<
        StateChange,
    > {
        self.promotion(edge, next) + match self.sides_of(edge) {
            Some((from, to)) => self.promotion(from, next) + self.promotion(to, next),
            None => Seq::empty(),
        }
    }

    /// The promotions of edges and of the nodes beside them.
    pub open spec fn edges_promotions(&self, edges: Seq<EntityId>, next: LocationState) -> Seq<
        StateChange,
    >
        decreases edges.len(),
    {
        if edges.len() == 0 {
            Seq::empty()
        } else {
            self.edges_promotions(edges.drop_last(), next) + self.edge_promotions(
                edges.last(),
                next,
            )
        }
    }

    /// The promotions of a path and everything along it.
    pub open spec fn path_promotions(&self, path: EntityId, next: LocationState) -> Seq<
        StateChange,
    > {
        self.promotion(path, next) + self.edges_promotions(self.edges_of(path), next)
    }

    /// The promotions of paths and everything along them.
    pub open spec fn paths_promotions(&self, paths: Seq<EntityId>, next: LocationState) -> Seq<
        StateChange,
    >
        decreases paths.len(),
    {
        if paths.len() == 0 {
            Seq::empty()
        } else {
            self.paths_promotions(paths.drop_last(), next) + self.path_promotions(
                paths.last(),
                next,
            )
        }
    }

    /// What is left behind: the node that was active, and the path to the destination
    /// with everything along it. A path that is entered from elsewhere is left behind
    /// alone.
    pub open spec fn closing(&self, d: Decision) -> Seq<StateChange> {
        (match d.previous_active {
            Some(prev) => self.promotion(prev, LocationState::Visited),
            None => Seq::empty(),
        }) + match d.connecting_path {
            Some(path) => self.path_promotions(path, LocationState::Visited),
            None => Seq::empty(),
        } + match d.entered_path {
            Some(path) => if d.connecting_path == Some(path) {
                Seq::empty()
            } else {
                self.promotion(path, LocationState::Visited)
            },
            None => Seq::empty(),
        }
    }

    /// `id` is an edge, or a node beside it.
    pub open spec fn at_edge(&self, edge: EntityId, id: EntityId) -> bool {
        id == edge || match self.sides_of(edge) {
            Some((from, to)) => id == from || id == to,
            None => false,
        }
    }

    /// `id` is one of the edges, or a node beside one.
    pub open spec fn at_edges(&self, edges: Seq<EntityId>, id: EntityId) -> bool {
        exists|k: int| 0 <= k < edges.len() && self.at_edge(#[trigger] edges[k], id)
    }

    /// `id` is a path, one of its edges, or a node beside one.
    pub open spec fn along(&self, path: EntityId, id: EntityId) -> bool {
        id == path || self.at_edges(self.edges_of(path), id)
    }

    /// The move leaves `id` behind.
    pub open spec fn left_behind(&self, d: Decision, id: EntityId) -> bool {
        ||| d.previous_active == Some(id)
        ||| (d.connecting_path is Some && self.along(d.connecting_path->Some_0, id))
        ||| d.entered_path == Some(id)
    }

    /// The request to make the destination active. It is needed even if the
    /// destination is active already, where the move leaves it behind first.
    pub open spec fn arriving(&self, d: Decision) -> Seq<StateChange> {
        match self.state_of(d.new_active) {
            Some(state) => if state != LocationState::Active || self.left_behind(d, d.new_active) {
                seq![StateChange { entity: d.new_active, next: LocationState::Active }]
            } else {
                Seq::empty()
            },
            None => Seq::empty(),
        }
    }

    /// The paths that leave the destination.
    pub open spec fn opening(&self, d: Decision) -> Seq<StateChange> {
        self.paths_promotions(self.outgoing_of(d.new_active), LocationState::Available)
    }

    /// The requests that a move comes down to.
    pub open spec fn changes(&self, d: Decision) -> Seq<StateChange> {
        self.closing(d) + self.arriving(d) + self.opening(d)
    }

    fn get_state(&self, id: EntityId) -> (r: Option<LocationState>)
        ensures
            r == self.state_of(id),
    {
        broadcast use vstd::std_specs::hash::group_hash_axioms;

        match self.entities.get(&id) {
            Some(e) => e.state,
            None => None,
        }
    }

    fn get_parent(&self, id: EntityId) -> (r: Option<EntityId>)
        ensures
            r == self.parent_of(id),
    {
        broadcast use vstd::std_specs::hash::group_hash_axioms;

        match self.entities.get(&id) {
            Some(e) => e.parent,
            None => None,
        }
    }

    fn get_ends(&self, id: EntityId) -> (r: Option<(PathFrom, PathTo)>)
        ensures
            r == self.ends_of(id),
    {
        broadcast use vstd::std_specs::hash::group_hash_axioms;

        match self.entities.get(&id) {
            Some(e) => e.ends,
            None => None,
        }
    }

    fn get_policy(&self, target: EntityId) -> (r: LevelMapPolicy)
        ensures
            r == self.policy_for(target),
    {
        broadcast use vstd::std_specs::hash::group_hash_axioms;

        if let Some(root) = self.get_parent(target) {
            if let Some(e) = self.entities.get(&root) {
                if let Some(policy) = e.policy {
                    return policy;
                }
            }
        }
        LevelMapPolicy::default()
    }

    /// Tells nodes and paths apart: true for a node, false for a path, nothing for
    /// anything else.
    fn classify_target(&self, target: EntityId) -> (r: Option<bool>)
        ensures
            r == (if self.is_node(target) {
                Some(true)
            } else if self.is_path(target) {
                Some(false)
            } else {
                None::<bool>
            }),
    {
        broadcast use vstd::std_specs::hash::group_hash_axioms;

        match self.entities.get(&target) {
            Some(e) => if e.is_node {
                Some(true)
            } else if e.is_path {
                Some(false)
            } else {
                None
            },
            None => None,
        }
    }

    proof fn lemma_first_active_stays(&self, root: Option<EntityId>, nodes: Seq<EntityId>, n: int)
        requires
            0 <= n <= nodes.len(),
            self.first_active(root, nodes.take(n)) is Some,
        ensures
            self.first_active(root, nodes) == self.first_active(root, nodes.take(n)),
        decreases nodes.len(),
    {
        if n < nodes.len() {
            assert(nodes.drop_last().take(n) =~= nodes.take(n));
            self.lemma_first_active_stays(root, nodes.drop_last(), n);
        } else {
            assert(nodes.take(n) =~= nodes);
        }
    }

    proof fn lemma_first_from_stays(&self, from: EntityId, paths: Seq<EntityId>, n: int)
        requires
            0 <= n <= paths.len(),
            self.first_from(from, paths.take(n)) is Some,
        ensures
            self.first_from(from, paths) == self.first_from(from, paths.take(n)),
        decreases paths.len(),
    {
        if n < paths.len() {
            assert(paths.drop_last().take(n) =~= paths.take(n));
            self.lemma_first_from_stays(from, paths.drop_last(), n);
        } else {
            assert(paths.take(n) =~= paths);
        }
    }

    /// Finds the node that is active on the map of the target.
    fn find_active(&self, target: EntityId) -> (r: Option<EntityId>)
        ensures
            r == self.previous(target),
    {
        let root = self.get_parent(target);
        let mut i: usize = 0;
        while i < self.nodes.len()
            invariant
                i <= self.nodes@.len(),
                root == self.parent_of(target),
                self.first_active(root, self.nodes@.take(i as int)) is None,
            decreases self.nodes@.len() - i,
        {
            let id = self.nodes[i];
            proof {
                assert(self.nodes@.take(i + 1).drop_last() =~= self.nodes@.take(i as int));
            }
            if let (Some(LocationState::Active), Some(parent), Some(wanted)) = (
                self.get_state(id),
                self.get_parent(id),
                root,
            ) {
                if parent == wanted {
                    proof {
                        self.lemma_first_active_stays(root, self.nodes@, i + 1);
                    }
                    return Some(id);
                }
            }
            i += 1;
        }
        assert(self.nodes@.take(i as int) =~= self.nodes@);
        None
    }

    /// Finds a path to `dest` that starts at the node that is active.
    fn resolve_path_between(&self, previous_active: Option<EntityId>, dest: EntityId) -> (r: Option<
        EntityId,
    >)
        ensures
            r == (match previous_active {
                Some(prev) => self.first_from(prev, self.incoming_of(dest)),
                None => None,
            }),
    {
        broadcast use vstd::std_specs::hash::group_hash_axioms;

        if let Some(prev) = previous_active {
            if let Some(e) = self.entities.get(&dest) {
                if let Some(paths) = &e.incoming {
                    let mut i: usize = 0;
                    while i < paths.len()
                        invariant
                            i <= paths@.len(),
                            self.incoming_of(dest) == paths@,
                            previous_active == Some(prev),
                            self.first_from(prev, paths@.take(i as int)) is None,
                        decreases paths@.len() - i,
                    {
                        let path = paths.get(i);
                        proof {
                            assert(paths@.take(i + 1).drop_last() =~= paths@.take(i as int));
                        }
                        if let Some((from, _)) = self.get_ends(path) {
                            if from.0 == prev {
                                proof {
                                    self.lemma_first_from_stays(prev, paths@, i + 1);
                                }
                                return Some(path);
                            }
                        }
                        i += 1;
                    }
                    assert(paths@.take(i as int) =~= paths@);
                }
            }
        }
        None
    }

    /// Decides what becomes of a request.
    pub fn decide(&self, target: EntityId) -> (verdict: Verdict)
        ensures
            verdict == self.verdict(target),
    {
        let is_node = match self.classify_target(target) {
            None => {
                return Verdict::Unknown;
            },
            Some(is_node) => is_node,
        };
        let policy = self.get_policy(target);
        if !is_node && !policy.allow_path_visit {
            return Verdict::PathVisitDisabled;
        }
        let previous_active = self.find_active(target);
        let (path, dest) = if is_node {
            (self.resolve_path_between(previous_active, target), target)
        } else {
            match self.get_ends(target) {
                None => {
                    return Verdict::MissingEnds;
                },
                Some((from, to)) => {
                    let connector: Option<EntityId> = match previous_active {
                        Some(prev) => if from.0 == prev {
                            Some(target)
                        } else {
                            None
                        },
                        None => None,
                    };
                    (connector, to.0)
                },
            }
        };
        if let Some(LocationState::Visited) = self.get_state(dest) {
            if !policy.allow_revisit {
                return Verdict::RevisitDisabled(dest);
            }
        }
        if path.is_none() && previous_active.is_some() && !policy.allow_teleport {
            return Verdict::TeleportDisabled(dest);
        }
        Verdict::Move(
            Decision {
                previous_active,
                new_active: dest,
                connecting_path: path,
                entered_path: if is_node {
                    None
                } else {
                    Some(target)
                },
            },
        )
    }

    /// Requests `next` for an entity, if that is a promotion. Entities without a
    /// state are passed over.
    fn try_promote(&self, out: &mut Vec<StateChange>, entity: EntityId, next: LocationState)
        ensures
            final(out)@ == old(out)@ + self.promotion(entity, next),
    {
        if let Some(state) = self.get_state(entity) {
            if LocationState::is_promotion(state, next) {
                out.push(StateChange { entity, next });
                assert(out@ =~= old(out)@ + self.promotion(entity, next));
                return;
            }
        }
        assert(out@ =~= old(out)@ + self.promotion(entity, next));
    }

    /// Requests `next` for every edge of a path and the nodes beside them.
    fn propagate_corridor(&self, out: &mut Vec<StateChange>, path: EntityId, next: LocationState)
        ensures
            final(out)@ == old(out)@ + self.edges_promotions(self.edges_of(path), next),
    {
        broadcast use vstd::std_specs::hash::group_hash_axioms;

        let ghost start = out@;
        if let Some(e) = self.entities.get(&path) {
            if let Some(edges) = &e.edges {
                let mut i: usize = 0;
                assert(out@ =~= start + self.edges_promotions(edges@.take(0), next));
                while i < edges.len()
                    invariant
                        i <= edges@.len(),
                        self.edges_of(path) == edges@,
                        out@ == start + self.edges_promotions(edges@.take(i as int), next),
                    decreases edges@.len() - i,
                {
                    broadcast use vstd::std_specs::hash::group_hash_axioms;

                    let edge = edges.get(i);
                    let ghost before = out@;
                    self.try_promote(out, edge, next);
                    if let Some(entry) = self.entities.get(&edge) {
                        if let Some((from, to)) = entry.sides {
                            self.try_promote(out, from, next);
                            self.try_promote(out, to, next);
                        }
                    }
                    proof {
                        assert(out@ =~= before + self.edge_promotions(edge, next));
                        assert(edges@.take(i + 1).drop_last() =~= edges@.take(i as int));
                        assert(out@ =~= start + self.edges_promotions(edges@.take(i + 1), next));
                    }
                    i += 1;
                }
                assert(edges@.take(i as int) =~= edges@);
                return;
            }
        }
        assert(out@ =~= start + self.edges_promotions(self.edges_of(path), next));
    }

    /// Requests that the destination be active, where it is not or has just been left
    /// behind.
    fn arrive(&self, out: &mut Vec<StateChange>, d: &Decision)
        requires
            old(out)@ == self.closing(*d),
        ensures
            final(out)@ == old(out)@ + self.arriving(*d),
    {
        proof {
            self.lemma_closing(*d, d.new_active);
        }
        let needed = match self.get_state(d.new_active) {
            Some(LocationState::Active) => names_entity(out, d.new_active),
            Some(_) => true,
            None => false,
        };
        if needed {
            out.push(StateChange { entity: d.new_active, next: LocationState::Active });
        }
        assert(out@ =~= old(out)@ + self.arriving(*d));
    }

    /// Lists the requests that a move comes down to.
    pub fn apply_decision(&self, d: &Decision) -> (out: Vec<StateChange>)
        ensures
            out@ == self.changes(*d),
    {
        broadcast use vstd::std_specs::hash::group_hash_axioms;

        let mut out: Vec<StateChange> = Vec::new();
        if let Some(prev) = d.previous_active {
            self.try_promote(&mut out, prev, LocationState::Visited);
        }
        if let Some(path) = d.connecting_path {
            self.try_promote(&mut out, path, LocationState::Visited);
            self.propagate_corridor(&mut out, path, LocationState::Visited);
        }
        if let Some(path) = d.entered_path {
            let connects = match d.connecting_path {
                Some(connector) => connector == path,
                None => false,
            };
            if !connects {
                self.try_promote(&mut out, path, LocationState::Visited);
            }
        }
        assert(out@ =~= self.closing(*d));
        self.arrive(&mut out, d);
        let ghost start = out@;
        if let Some(e) = self.entities.get(&d.new_active) {
            if let Some(paths) = &e.outgoing {
                let mut i: usize = 0;
                assert(out@ =~= start + self.paths_promotions(
                    paths@.take(0),
                    LocationState::Available,
                ));
                while i < paths.len()
                    invariant
                        i <= paths@.len(),
                        self.outgoing_of(d.new_active) == paths@,
                        out@ == start + self.paths_promotions(
                            paths@.take(i as int),
                            LocationState::Available,
                        ),
                    decreases paths@.len() - i,
                {
                    let path = paths.get(i);
                    let ghost before = out@;
                    self.try_promote(&mut out, path, LocationState::Available);
                    self.propagate_corridor(&mut out, path, LocationState::Available);
                    proof {
                        assert(out@ =~= before + self.path_promotions(
                            path,
                            LocationState::Available,
                        ));
                        assert(paths@.take(i + 1).drop_last() =~= paths@.take(i as int));
                        assert(out@ =~= start + self.paths_promotions(
                            paths@.take(i + 1),
                            LocationState::Available,
                        ));
                    }
                    i += 1;
                }
                assert(paths@.take(i as int) =~= paths@);
            }
        }
        assert(out@ =~= start + self.opening(*d));
        out
    }
}

/// Handles a visit: what becomes of it, and the states to be written, in order. A
/// request that is rejected writes nothing.
pub fn on_visit_location(snapshot: &Snapshot, visit: VisitLocation) -> (r: (
    Verdict,
    Vec<StateChange>,
))
    ensures
        r.0 == snapshot.verdict(visit.target),
        r.1@ == (match snapshot.verdict(visit.target) {
            Verdict::Move(d) => snapshot.changes(d),
            _ => Seq::empty(),
        }),
{
    let verdict = snapshot.decide(visit.target);
    let changes: Vec<StateChange> = match &verdict {
        Verdict::Move(d) => snapshot.apply_decision(d),
        _ => Vec::new(),
    };
    (verdict, changes)
}

/// The states after one request: an entity without a state gets none, and a
/// transition that is not allowed is not made.
pub open spec fn written(states: Map<EntityId, LocationState>, change: StateChange) -> Map<
    EntityId,
    LocationState,
> {
    if states.contains_key(change.entity) && states[change.entity].may_become(change.next) {
        states.insert(change.entity, change.next)
    } else {
        states
    }
}

/// The states after a list of requests.
pub open spec fn settled(states: Map<EntityId, LocationState>, changes: Seq<StateChange>) -> Map<
    EntityId,
    LocationState,
>
    decreases changes.len(),
{
    if changes.len() == 0 {
        states
    } else {
        written(settled(states, changes.drop_last()), changes.last())
    }
}

/// One of the requests is about `id`.
spec fn names(changes: Seq<StateChange>, id: EntityId) -> bool {
    exists|i: int| 0 <= i < changes.len() && (#[trigger] changes[i]).entity == id
}

/// Whether one of the requests is about `id`.
fn names_entity(changes: &Vec<StateChange>, id: EntityId) -> (r: bool)
    ensures
        r == names(changes@, id),
{
    let mut i: usize = 0;
    while i < changes.len()
        invariant
            i <= changes@.len(),
            forall|j: int| 0 <= j < i ==> (#[trigger] changes@[j]).entity != id,
        decreases changes@.len() - i,
    {
        if changes[i].entity == id {
            assert(changes@[i as int].entity == id);
            return true;
        }
        i += 1;
    }
    false
}

/// All requests are for the same state.
spec fn uniform(changes: Seq<StateChange>, next: LocationState) -> bool {
    forall|i: int| 0 <= i < changes.len() ==> (#[trigger] changes[i]).next == next
}

proof fn lemma_settled_twice(
    states: Map<EntityId, LocationState>,
    a: Seq<StateChange>,
    b: Seq<StateChange>,
)
    ensures
        settled(states, a + b) == settled(settled(states, a), b),
    decreases b.len(),
{
    if b.len() == 0 {
        assert(a + b =~= a);
    } else {
        assert((a + b).drop_last() =~= a + b.drop_last());
        lemma_settled_twice(states, a, b.drop_last());
    }
}

proof fn lemma_settled_uniform(
    states: Map<EntityId, LocationState>,
    changes: Seq<StateChange>,
    next: LocationState,
)
    requires
        uniform(changes, next),
    ensures
        settled(states, changes).dom() == states.dom(),
        forall|id: EntityId| #[trigger]
            states.contains_key(id) ==> settled(states, changes)[id] == (if names(changes, id)
                && states[id].may_become(next) {
                next
            } else {
                states[id]
            }),
    decreases changes.len(),
{
    if changes.len() > 0 {
        let rest = changes.drop_last();
        let last = changes.last();
        assert forall|i: int| 0 <= i < rest.len() implies (#[trigger] rest[i]).next == next by {
            assert(changes[i].next == next);
        }
        lemma_settled_uniform(states, rest, next);
        let before = settled(states, rest);
        assert(changes[changes.len() - 1] == last);
        assert(last.next == next);
        assert(settled(states, changes).dom() =~= states.dom());
        assert forall|id: EntityId| #[trigger] states.contains_key(id) implies settled(
            states,
            changes,
        )[id] == (if names(changes, id) && states[id].may_become(next) {
            next
        } else {
            states[id]
        }) by {
            assert(before.dom().contains(id));
            if names(rest, id) {
                let i = choose|i: int| 0 <= i < rest.len() && (#[trigger] rest[i]).entity == id;
                assert(changes[i].entity == id);
            }
            if names(changes, id) && last.entity != id {
                let i = choose|i: int|
                    0 <= i < changes.len() && (#[trigger] changes[i]).entity == id;
                assert(rest[i].entity == id);
            }
        }
    }
}

proof fn lemma_names_add(a: Seq<StateChange>, b: Seq<StateChange>, id: EntityId)
    ensures
        names(a + b, id) <==> names(a, id) || names(b, id),
{
    let both = a + b;
    if names(a, id) {
        let i = choose|i: int| 0 <= i < a.len() && (#[trigger] a[i]).entity == id;
        assert(both[i].entity == id);
    }
    if names(b, id) {
        let i = choose|i: int| 0 <= i < b.len() && (#[trigger] b[i]).entity == id;
        assert(both[a.len() + i].entity == id);
    }
    if names(both, id) {
        let i = choose|i: int| 0 <= i < both.len() && (#[trigger] both[i]).entity == id;
        if i < a.len() {
            assert(a[i].entity == id);
        } else {
            assert(b[i - a.len()].entity == id);
        }
    }
}

proof fn lemma_uniform_add(a: Seq<StateChange>, b: Seq<StateChange>, next: LocationState)
    requires
        uniform(a, next),
        uniform(b, next),
    ensures
        uniform(a + b, next),
{
    assert forall|i: int| 0 <= i < (a + b).len() implies (#[trigger] (a + b)[i]).next == next by {
        if i < a.len() {
            assert(a[i].next == next);
        } else {
            assert(b[i - a.len()].next == next);
        }
    }
}

impl Snapshot {
    /// The states of all entities that have one.
    pub open spec fn states(&self) -> Map<EntityId, LocationState> {
        Map::new(
            |id: EntityId| self.state_of(id) is Some,
            |id: EntityId| self.state_of(id)->Some_0,
        )
    }

    /// `id` is on one of the paths.
    pub open spec fn along_any(&self, paths: Seq<EntityId>, id: EntityId) -> bool {
        exists|k: int| 0 <= k < paths.len() && self.along(#[trigger] paths[k], id)
    }

    /// The move brings `id` into reach.
    pub open spec fn in_reach(&self, d: Decision, id: EntityId) -> bool {
        self.along_any(self.outgoing_of(d.new_active), id)
    }

    /// The state of an entity after a move.
    pub open spec fn outcome(&self, d: Decision, id: EntityId) -> LocationState {
        let state = self.state_of(id)->Some_0;
        if id == d.new_active {
            LocationState::Active
        } else if self.left_behind(d, id) {
            LocationState::Visited
        } else if self.in_reach(d, id) && state == LocationState::Inactive {
            LocationState::Available
        } else {
            state
        }
    }

    /// Writing `next` would promote `id`.
    spec fn rises(&self, id: EntityId, next: LocationState) -> bool {
        match self.state_of(id) {
            Some(state) => state != next && state.may_become(next),
            None => false,
        }
    }

    proof fn lemma_promotion(&self, entity: EntityId, next: LocationState, id: EntityId)
        ensures
            uniform(self.promotion(entity, next), next),
            names(self.promotion(entity, next), id) <==> id == entity && self.rises(id, next),
    {
        let p = self.promotion(entity, next);
        if self.rises(entity, next) {
            assert(p[0].entity == entity);
        }
    }

    proof fn lemma_edge(&self, edge: EntityId, next: LocationState, id: EntityId)
        ensures
            uniform(self.edge_promotions(edge, next), next),
            names(self.edge_promotions(edge, next), id) <==> self.at_edge(edge, id) && self.rises(
                id,
                next,
            ),
    {
        self.lemma_promotion(edge, next, id);
        let first = self.promotion(edge, next);
        match self.sides_of(edge) {
            Some((from, to)) => {
                self.lemma_promotion(from, next, id);
                self.lemma_promotion(to, next, id);
                let a = self.promotion(from, next);
                let b = self.promotion(to, next);
                lemma_uniform_add(a, b, next);
                lemma_names_add(a, b, id);
                lemma_uniform_add(first, a + b, next);
                lemma_names_add(first, a + b, id);
            },
            None => {
                assert(first + Seq::<StateChange>::empty() =~= first);
            },
        }
    }

    proof fn lemma_edges(&self, edges: Seq<EntityId>, next: LocationState, id: EntityId)
        ensures
            uniform(self.edges_promotions(edges, next), next),
            names(self.edges_promotions(edges, next), id) <==> self.at_edges(edges, id)
                && self.rises(id, next),
        decreases edges.len(),
    {
        if edges.len() > 0 {
            let rest = edges.drop_last();
            self.lemma_edges(rest, next, id);
            self.lemma_edge(edges.last(), next, id);
            let a = self.edges_promotions(rest, next);
            let b = self.edge_promotions(edges.last(), next);
            lemma_uniform_add(a, b, next);
            lemma_names_add(a, b, id);
            if self.at_edges(rest, id) {
                let k = choose|k: int| 0 <= k < rest.len() && self.at_edge(#[trigger] rest[k], id);
                assert(self.at_edge(edges[k], id));
            }
            if self.at_edges(edges, id) {
                let k = choose|k: int|
                    0 <= k < edges.len() && self.at_edge(#[trigger] edges[k], id);
                if k < rest.len() {
                    assert(self.at_edge(rest[k], id));
                }
            }
            assert(edges[edges.len() - 1] == edges.last());
        }
    }

    proof fn lemma_path(&self, path: EntityId, next: LocationState, id: EntityId)
        ensures
            uniform(self.path_promotions(path, next), next),
            names(self.path_promotions(path, next), id) <==> self.along(path, id) && self.rises(
                id,
                next,
            ),
    {
        self.lemma_promotion(path, next, id);
        self.lemma_edges(self.edges_of(path), next, id);
        let a = self.promotion(path, next);
        let b = self.edges_promotions(self.edges_of(path), next);
        lemma_uniform_add(a, b, next);
        lemma_names_add(a, b, id);
    }

    proof fn lemma_paths(&self, paths: Seq<EntityId>, next: LocationState, id: EntityId)
        ensures
            uniform(self.paths_promotions(paths, next), next),
            names(self.paths_promotions(paths, next), id) <==> self.along_any(paths, id)
                && self.rises(id, next),
        decreases paths.len(),
    {
        if paths.len() > 0 {
            let rest = paths.drop_last();
            self.lemma_paths(rest, next, id);
            self.lemma_path(paths.last(), next, id);
            let a = self.paths_promotions(rest, next);
            let b = self.path_promotions(paths.last(), next);
            lemma_uniform_add(a, b, next);
            lemma_names_add(a, b, id);
            if self.along_any(rest, id) {
                let k = choose|k: int| 0 <= k < rest.len() && self.along(#[trigger] rest[k], id);
                assert(self.along(paths[k], id));
            }
            if self.along_any(paths, id) {
                let k = choose|k: int| 0 <= k < paths.len() && self.along(#[trigger] paths[k], id);
                if k < rest.len() {
                    assert(self.along(rest[k], id));
                }
            }
            assert(paths[paths.len() - 1] == paths.last());
        }
    }

    proof fn lemma_closing(&self, d: Decision, id: EntityId)
        ensures
            uniform(self.closing(d), LocationState::Visited),
            names(self.closing(d), id) <==> self.left_behind(d, id) && self.rises(
                id,
                LocationState::Visited,
            ),
    {
        let none = Seq::<StateChange>::empty();
        let a = match d.previous_active {
            Some(prev) => self.promotion(prev, LocationState::Visited),
            None => none,
        };
        let b = match d.connecting_path {
            Some(path) => self.path_promotions(path, LocationState::Visited),
            None => none,
        };
        let c = match d.entered_path {
            Some(path) => if d.connecting_path == Some(path) {
                none
            } else {
                self.promotion(path, LocationState::Visited)
            },
            None => none,
        };
        if let Some(prev) = d.previous_active {
            self.lemma_promotion(prev, LocationState::Visited, id);
        }
        if let Some(path) = d.connecting_path {
            self.lemma_path(path, LocationState::Visited, id);
        }
        if let Some(path) = d.entered_path {
            self.lemma_promotion(path, LocationState::Visited, id);
        }
        lemma_uniform_add(a, b, LocationState::Visited);
        lemma_names_add(a, b, id);
        lemma_uniform_add(a + b, c, LocationState::Visited);
        lemma_names_add(a + b, c, id);
    }
}

/// What a move does to the states: the destination is `Active`; the node that was
/// active before, a path that is entered, and the path to the destination with its
/// edges and the nodes along it become `Visited`; the paths that leave the
/// destination, their edges and nodes become `Available` where they are `Inactive`;
/// everything else keeps its state, and what has no state gets none.
pub proof fn law_move_settles(snapshot: &Snapshot, d: Decision)
    ensures
        settled(snapshot.states(), snapshot.changes(d)).dom() == snapshot.states().dom(),
        forall|id: EntityId| #[trigger]
            snapshot.states().contains_key(id) ==> settled(
                snapshot.states(),
                snapshot.changes(d),
            )[id] == snapshot.outcome(d, id),
{
    let states = snapshot.states();
    let a = snapshot.closing(d);
    let b = snapshot.arriving(d);
    let c = snapshot.opening(d);
    snapshot.lemma_closing(d, d.new_active);
    snapshot.lemma_paths(
        snapshot.outgoing_of(d.new_active),
        LocationState::Available,
        d.new_active,
    );
    lemma_settled_twice(states, a + b, c);
    lemma_settled_twice(states, a, b);
    let first = settled(states, a);
    let second = settled(first, b);
    let third = settled(second, c);
    lemma_settled_uniform(states, a, LocationState::Visited);
    lemma_settled_uniform(first, b, LocationState::Active);
    lemma_settled_uniform(second, c, LocationState::Available);
    assert forall|id: EntityId| #[trigger] states.contains_key(id) implies third[id]
        == snapshot.outcome(d, id) by {
        snapshot.lemma_closing(d, id);
        if id == d.new_active && b.len() > 0 {
            assert(b[0].entity == id);
        }
        snapshot.lemma_paths(
            snapshot.outgoing_of(d.new_active),
            LocationState::Available,
            id,
        );
        assert(first.dom().contains(id));
        assert(second.dom().contains(id));
        assert(first.contains_key(id));
        assert(second.contains_key(id));
    }
}

/// A move never takes a state down, but for a destination that is visited again.
pub proof fn law_move_never_downgrades(snapshot: &Snapshot, d: Decision, id: EntityId)
    requires
        snapshot.states().contains_key(id),
    ensures
        ({
            let before = snapshot.states()[id];
            let after = settled(snapshot.states(), snapshot.changes(d))[id];
            after.rank() >= before.rank() || (id == d.new_active && before
                == LocationState::Visited && after == LocationState::Active)
        }),
{
    law_move_settles(snapshot, d);
}

/// After a move the destination, if it has a state, is the only active entity among
/// those of which at most the node that was active was so before.
pub proof fn law_move_leaves_one_active(snapshot: &Snapshot, d: Decision, ids: Set<EntityId>)
    requires
        snapshot.states().contains_key(d.new_active),
        forall|id: EntityId| #[trigger]
            ids.contains(id) && snapshot.state_of(id) == Some(LocationState::Active)
                ==> d.previous_active == Some(id),
    ensures
        ({
            let after = settled(snapshot.states(), snapshot.changes(d));
            &&& after[d.new_active] == LocationState::Active
            &&& forall|id: EntityId| #[trigger]
                ids.contains(id) && after.contains_key(id) && after[id] == LocationState::Active
                    ==> id == d.new_active
        }),
{
    law_move_settles(snapshot, d);
    let after = settled(snapshot.states(), snapshot.changes(d));
    assert forall|id: EntityId| #[trigger]
        ids.contains(id) && after.contains_key(id) && after[id]
            == LocationState::Active implies id == d.new_active by {
        assert(snapshot.states().dom().contains(id));
        assert(snapshot.states().contains_key(id));
        assert(after[id] == snapshot.outcome(d, id));
    }
}

/// The node that a move leaves is an active node of the map that the target belongs
/// to, and the path that it takes starts there: other maps are left alone.
pub proof fn law_move_stays_on_its_map(snapshot: &Snapshot, target: EntityId)
    requires
        snapshot.verdict(target) is Move,
    ensures
        ({
            let d = snapshot.verdict(target)->Move_0;
            &&& d.previous_active is Some ==> snapshot.active_on(
                snapshot.parent_of(target),
                d.previous_active->Some_0,
            ) && snapshot.nodes@.contains(d.previous_active->Some_0)
            &&& d.connecting_path is Some ==> d.previous_active is Some && snapshot.starts_at(
                d.connecting_path->Some_0,
                d.previous_active->Some_0,
            )
        }),
{
    lemma_first_active_is_active(snapshot, snapshot.parent_of(target), snapshot.nodes@);
    if let Some(prev) = snapshot.previous(target) {
        lemma_first_from_starts(snapshot, prev, snapshot.incoming_of(target));
    }
}

proof fn lemma_first_active_is_active(
    snapshot: &Snapshot,
    root: Option<EntityId>,
    nodes: Seq<EntityId>,
)
    ensures
        match snapshot.first_active(root, nodes) {
            Some(id) => snapshot.active_on(root, id) && nodes.contains(id),
            None => true,
        },
    decreases nodes.len(),
{
    if nodes.len() > 0 {
        lemma_first_active_is_active(snapshot, root, nodes.drop_last());
        if let Some(id) = snapshot.first_active(root, nodes.drop_last()) {
            let i = choose|i: int| 0 <= i < nodes.drop_last().len() && nodes.drop_last()[i] == id;
            assert(nodes[i] == id);
        } else {
            assert(nodes[nodes.len() - 1] == nodes.last());
        }
    }
}

proof fn lemma_first_from_starts(snapshot: &Snapshot, from: EntityId, paths: Seq<EntityId>)
    ensures
        match snapshot.first_from(from, paths) {
            Some(path) => snapshot.starts_at(path, from) && paths.contains(path),
            None => true,
        },
    decreases paths.len(),
{
    if paths.len() > 0 {
        let rest = paths.drop_last();
        lemma_first_from_starts(snapshot, from, rest);
        assert(paths =~= rest.push(paths.last()));
        if let Some(path) = snapshot.first_from(from, paths) {
            lemma_push_contains(rest, paths.last(), path);
        }
    }
}

impl Snapshot {
    /// Some path leads from `from` to `to`.
    pub open spec fn connected(&self, from: EntityId, to: EntityId) -> bool {
        exists|path: EntityId| #[trigger]
            self.incoming_of(to).contains(path) && self.starts_at(path, from)
    }
}

/// The rules of a map, and nothing else, keep its nodes from being visited: a node
/// that was visited needs `allow_revisit`, and a node to which no path leads from the
/// one that is active needs `allow_teleport`. The first visit needs no path.
pub proof fn law_policy_decides_on_nodes(snapshot: &Snapshot, target: EntityId)
    requires
        snapshot.is_node(target),
    ensures
        ({
            let policy = snapshot.policy_for(target);
            let seen = snapshot.state_of(target) == Some(LocationState::Visited);
            let apart = match snapshot.previous(target) {
                Some(prev) => !snapshot.connected(prev, target),
                None => false,
            };
            &&& snapshot.verdict(target) is Move <==> (policy.allow_revisit || !seen) && (
            policy.allow_teleport || !apart)
            &&& snapshot.verdict(target) is RevisitDisabled <==> seen && !policy.allow_revisit
            &&& snapshot.verdict(target) matches Verdict::Move(d) ==> d.new_active == target
                && d.entered_path is None && d.previous_active == snapshot.previous(target) && (d.connecting_path is Some
                <==> snapshot.previous(target) is Some && !apart)
        }),
{
    if let Some(prev) = snapshot.previous(target) {
        let paths = snapshot.incoming_of(target);
        lemma_first_from_starts(snapshot, prev, paths);
        lemma_first_from_misses_none(snapshot, prev, paths);
    }
}

/// The rules of a map, and nothing else, keep its paths from being entered: that
/// needs `allow_path_visit`, `allow_revisit` where the destination was visited, and
/// `allow_teleport` where the path does not leave the node that is active.
pub proof fn law_policy_decides_on_paths(snapshot: &Snapshot, target: EntityId)
    requires
        snapshot.is_path(target),
        !snapshot.is_node(target),
        snapshot.ends_of(target) is Some,
    ensures
        ({
            let policy = snapshot.policy_for(target);
            let (from, to) = snapshot.ends_of(target)->Some_0;
            let seen = snapshot.state_of(to.0) == Some(LocationState::Visited);
            let apart = snapshot.previous(target) is Some && snapshot.previous(target) != Some(
                from.0,
            );
            &&& snapshot.verdict(target) is Move <==> policy.allow_path_visit && (
            policy.allow_revisit || !seen) && (policy.allow_teleport || !apart)
            &&& snapshot.verdict(target) is PathVisitDisabled <==> !policy.allow_path_visit
            &&& snapshot.verdict(target) matches Verdict::Move(d) ==> d.new_active == to.0
                && d.entered_path == Some(target) && (d.connecting_path == Some(target)
                <==> snapshot.previous(target) == Some(from.0))
        }),
{
}

/// A path that is entered ends `Visited`, and its destination `Active`, wherever the
/// path starts.
pub proof fn law_entered_path_is_visited(snapshot: &Snapshot, target: EntityId)
    requires
        !snapshot.is_node(target),
        snapshot.verdict(target) is Move,
        snapshot.states().contains_key(target),
    ensures
        ({
            let d = snapshot.verdict(target)->Move_0;
            let after = settled(snapshot.states(), snapshot.changes(d));
            &&& d.new_active != target ==> after[target] == LocationState::Visited
            &&& snapshot.ends_of(target)->Some_0.1.0 == d.new_active
            &&& after.contains_key(d.new_active) ==> after[d.new_active] == LocationState::Active
        }),
{
    let d = snapshot.verdict(target)->Move_0;
    law_move_settles(snapshot, d);
    let after = settled(snapshot.states(), snapshot.changes(d));
    if after.contains_key(d.new_active) {
        assert(snapshot.states().dom().contains(d.new_active));
        assert(snapshot.states().contains_key(d.new_active));
    }
}

proof fn lemma_first_from_misses_none(snapshot: &Snapshot, from: EntityId, paths: Seq<EntityId>)
    ensures
        snapshot.first_from(from, paths) is None ==> forall|path: EntityId| #[trigger]
            paths.contains(path) ==> !snapshot.starts_at(path, from),
    decreases paths.len(),
{
    if paths.len() > 0 {
        let rest = paths.drop_last();
        lemma_first_from_misses_none(snapshot, from, rest);
        assert(paths =~= rest.push(paths.last()));
        assert forall|path: EntityId| #[trigger]
            paths.contains(path) && snapshot.first_from(from, paths)
                is None implies !snapshot.starts_at(path, from) by {
            lemma_push_contains(rest, paths.last(), path);
        }
    }
}

/// The order in which edges and paths are listed does not matter. Where two
/// snapshots agree in the states and in the nodes beside each edge, and list the
/// same edges for each path and the same paths out of the target, in any
/// order and number, a move settles to the same states.
pub proof fn law_order_does_not_matter(a: &Snapshot, b: &Snapshot, d: Decision)
    requires
        forall|id: EntityId| #[trigger] a.state_of(id) == b.state_of(id),
        forall|id: EntityId| #[trigger] a.sides_of(id) == b.sides_of(id),
        forall|id: EntityId| #[trigger] a.edges_of(id).to_set() == b.edges_of(id).to_set(),
        a.outgoing_of(d.new_active).to_set() == b.outgoing_of(d.new_active).to_set(),
    ensures
        settled(a.states(), a.changes(d)) == settled(b.states(), b.changes(d)),
{
    law_move_settles(a, d);
    law_move_settles(b, d);
    assert(a.states() =~= b.states());
    assert forall|path: EntityId, id: EntityId| #[trigger] a.along(path, id) == b.along(
        path,
        id,
    ) by {
        if a.along(path, id) {
            lemma_same_edges(a, b, path, id);
        }
        if b.along(path, id) {
            lemma_same_edges(b, a, path, id);
        }
    }
    assert forall|id: EntityId| #[trigger] a.in_reach(d, id) == b.in_reach(d, id) by {
        if a.in_reach(d, id) {
            lemma_same_paths(a, b, d, id);
        }
        if b.in_reach(d, id) {
            lemma_same_paths(b, a, d, id);
        }
    }
    let left = settled(a.states(), a.changes(d));
    let right = settled(b.states(), b.changes(d));
    assert forall|id: EntityId| #[trigger] left.contains_key(id) implies left[id] == right[id] by {
        assert(a.states().contains_key(id));
        assert(b.states().contains_key(id));
        assert(a.outcome(d, id) == b.outcome(d, id)) by {
            if let Some(path) = d.connecting_path {
                assert(a.along(path, id) == b.along(path, id));
            }
            assert(a.in_reach(d, id) == b.in_reach(d, id));
        }
    }
    assert(left =~= right);
}

proof fn lemma_same_edges(a: &Snapshot, b: &Snapshot, path: EntityId, id: EntityId)
    requires
        forall|id: EntityId| #[trigger] a.sides_of(id) == b.sides_of(id),
        a.edges_of(path).to_set() == b.edges_of(path).to_set(),
        a.along(path, id),
    ensures
        b.along(path, id),
{
    if id != path {
        let edges = a.edges_of(path);
        let k = choose|k: int| 0 <= k < edges.len() && a.at_edge(#[trigger] edges[k], id);
        assert(edges.contains(edges[k]));
        assert(edges.to_set().contains(edges[k]));
        assert(b.edges_of(path).contains(edges[k]));
        let l = choose|l: int| 0 <= l < b.edges_of(path).len() && b.edges_of(path)[l] == edges[k];
        assert(a.sides_of(edges[k]) == b.sides_of(edges[k]));
        assert(b.at_edge(b.edges_of(path)[l], id));
    }
}

proof fn lemma_same_paths(a: &Snapshot, b: &Snapshot, d: Decision, id: EntityId)
    requires
        forall|path: EntityId, id: EntityId| #[trigger] a.along(path, id) == b.along(path, id),
        a.outgoing_of(d.new_active).to_set() == b.outgoing_of(d.new_active).to_set(),
        a.in_reach(d, id),
    ensures
        b.in_reach(d, id),
{
    let paths = a.outgoing_of(d.new_active);
    let others = b.outgoing_of(d.new_active);
    let k = choose|k: int| 0 <= k < paths.len() && a.along(#[trigger] paths[k], id);
    assert(paths.contains(paths[k]));
    assert(paths.to_set().contains(paths[k]));
    assert(others.contains(paths[k]));
    let l = choose|l: int| 0 <= l < others.len() && others[l] == paths[k];
    assert(b.along(others[l], id));
}

} // verus!
