//! What a visit does, told by the entries of the entities that it touches: every
//! entry of a list counts, and nothing else does.

use super::{
    law_move_settles, lemma_first_from_misses_none, names, settled, Decision, Entry, Snapshot,
    StateChange, Verdict,
};
use crate::components::EntityId;
use crate::config::LevelMapPolicy;
use crate::state::LocationState;
use vstd::prelude::*;

verus! {

/// The states in a table of entities.
pub open spec fn states_in(m: Map<EntityId, Entry>) -> Map<EntityId, LocationState> {
    Map::new(
        |id: EntityId| m.contains_key(id) && m[id].state is Some,
        |id: EntityId| m[id].state->Some_0,
    )
}

/// `id` is an edge, or one of the two nodes in its entry.
pub open spec fn touches(m: Map<EntityId, Entry>, edge: EntityId, id: EntityId) -> bool {
    id == edge || (m.contains_key(edge) && m[edge].sides is Some && (id
        == m[edge].sides->Some_0.0 || id == m[edge].sides->Some_0.1))
}

/// `id` is a path, or belongs to an edge at some place of the list in its entry.
pub open spec fn on_path(m: Map<EntityId, Entry>, path: EntityId, id: EntityId) -> bool {
    id == path || (m.contains_key(path) && m[path].edges is Some && exists|l: int|
        0 <= l < m[path].edges->Some_0@.len() && touches(
            m,
            #[trigger] m[path].edges->Some_0@[l],
            id,
        ))
}

/// `id` is on a path at some place of the list of those that leave `node`.
pub open spec fn ahead_of(m: Map<EntityId, Entry>, node: EntityId, id: EntityId) -> bool {
    m.contains_key(node) && m[node].outgoing is Some && exists|k: int|
        0 <= k < m[node].outgoing->Some_0@.len() && on_path(
            m,
            #[trigger] m[node].outgoing->Some_0@[k],
            id,
        )
}

/// The move takes `id` along: it is the node that was active, the path that is
/// entered, or on the path that connects.
pub open spec fn behind(m: Map<EntityId, Entry>, d: Decision, id: EntityId) -> bool {
    ||| d.previous_active == Some(id)
    ||| d.entered_path == Some(id)
    ||| d.connecting_path is Some && on_path(m, d.connecting_path->Some_0, id)
}

/// `id` is active, and a child of the same entity as `target`.
pub open spec fn rival(m: Map<EntityId, Entry>, target: EntityId, id: EntityId) -> bool {
    &&& m.contains_key(target) && m.contains_key(id)
    &&& m[target].parent is Some
    &&& m[id].parent == m[target].parent
    &&& m[id].state == Some(LocationState::Active)
}

/// The path at place `j` of the list of those that arrive at `to` starts at `from`.
pub open spec fn leads(m: Map<EntityId, Entry>, from: EntityId, to: EntityId, j: int) -> bool {
    &&& m.contains_key(to) && m[to].incoming is Some
    &&& 0 <= j < m[to].incoming->Some_0@.len()
    &&& m.contains_key(m[to].incoming->Some_0@[j])
    &&& m[m[to].incoming->Some_0@[j]].ends is Some
    &&& m[m[to].incoming->Some_0@[j]].ends->Some_0.0 .0 == from
}

/// The rules in the entry of the parent of `target`; without any, revisits are
/// forbidden and the rest is allowed.
pub open spec fn rules(m: Map<EntityId, Entry>, target: EntityId) -> LevelMapPolicy {
    if m.contains_key(target) && m[target].parent is Some && m.contains_key(
        m[target].parent->Some_0,
    ) && m[m[target].parent->Some_0].policy is Some {
        m[m[target].parent->Some_0].policy->Some_0
    } else {
        LevelMapPolicy { allow_revisit: false, allow_teleport: true, allow_path_visit: true }
    }
}

proof fn lemma_on_path(snapshot: &Snapshot, path: EntityId, id: EntityId)
    ensures
        snapshot.along(path, id) <==> on_path(snapshot.entities@, path, id),
{
    let m = snapshot.entities@;
    let edges = snapshot.edges_of(path);
    if snapshot.along(path, id) && id != path {
        let l = choose|l: int| 0 <= l < edges.len() && snapshot.at_edge(#[trigger] edges[l], id);
        assert(touches(m, m[path].edges->Some_0@[l], id));
    }
    if on_path(m, path, id) && id != path {
        let l = choose|l: int|
            0 <= l < m[path].edges->Some_0@.len() && touches(
                m,
                #[trigger] m[path].edges->Some_0@[l],
                id,
            );
        assert(snapshot.at_edge(edges[l], id));
    }
}

proof fn lemma_ahead(snapshot: &Snapshot, node: EntityId, id: EntityId)
    ensures
        snapshot.along_any(snapshot.outgoing_of(node), id) <==> ahead_of(
            snapshot.entities@,
            node,
            id,
        ),
{
    let m = snapshot.entities@;
    let paths = snapshot.outgoing_of(node);
    if snapshot.along_any(paths, id) {
        let k = choose|k: int| 0 <= k < paths.len() && snapshot.along(#[trigger] paths[k], id);
        lemma_on_path(snapshot, paths[k], id);
        assert(on_path(m, m[node].outgoing->Some_0@[k], id));
    }
    if ahead_of(m, node, id) {
        let k = choose|k: int|
            0 <= k < m[node].outgoing->Some_0@.len() && on_path(
                m,
                #[trigger] m[node].outgoing->Some_0@[k],
                id,
            );
        lemma_on_path(snapshot, paths[k], id);
        assert(snapshot.along(paths[k], id));
    }
}

/// The states after a move, told by the entries. The destination is `Active`. What the
/// move takes along is `Visited`: the node that was active, the path that was
/// entered, the path that connects, every edge in its list and both nodes beside
/// each. What was `Inactive` is `Available` if it lies ahead: on any of the paths in
/// the list of those that leave the destination. The rest is as it was.
pub proof fn law_entries_fix_the_states(snapshot: &Snapshot, d: Decision)
    ensures
        ({
            let m = snapshot.entities@;
            let after = settled(states_in(m), snapshot.changes(d));
            &&& forall|id: EntityId| #[trigger]
                after.contains_key(id) <==> m.contains_key(id) && m[id].state is Some
            &&& forall|id: EntityId| #[trigger]
                after.contains_key(id) ==> after[id] == if id == d.new_active {
                    LocationState::Active
                } else if behind(m, d, id) {
                    LocationState::Visited
                } else if m[id].state == Some(LocationState::Inactive) && ahead_of(
                    m,
                    d.new_active,
                    id,
                ) {
                    LocationState::Available
                } else {
                    m[id].state->Some_0
                }
        }),
{
    let m = snapshot.entities@;
    assert(states_in(m) =~= snapshot.states());
    law_move_settles(snapshot, d);
    let after = settled(snapshot.states(), snapshot.changes(d));
    assert forall|id: EntityId| #[trigger] after.contains_key(id) <==> m.contains_key(id)
        && m[id].state is Some by {
        assert(after.dom().contains(id) <==> snapshot.states().dom().contains(id));
    }
    assert forall|id: EntityId| #[trigger] after.contains_key(id) implies after[id]
        == snapshot.outcome(d, id) && snapshot.left_behind(d, id) == behind(m, d, id)
        && snapshot.in_reach(d, id) == ahead_of(m, d.new_active, id) by {
        assert(snapshot.states().contains_key(id));
        lemma_ahead(snapshot, d.new_active, id);
        if let Some(path) = d.connecting_path {
            lemma_on_path(snapshot, path, id);
        }
    }
}

/// Every path in the list of those that leave the destination opens up, whatever its
/// place: the path at place `k`, the edge at place `l` of the list in its entry, and
/// both nodes in the entry of that edge are no longer `Inactive` after the move, if
/// they have a state.
pub proof fn law_every_path_out_opens(
    snapshot: &Snapshot,
    d: Decision,
    k: int,
    l: int,
    id: EntityId,
)
    requires
        snapshot.entities@.contains_key(d.new_active),
        snapshot.entities@[d.new_active].outgoing is Some,
        0 <= k < snapshot.entities@[d.new_active].outgoing->Some_0@.len(),
        snapshot.entities@.contains_key(id),
        snapshot.entities@[id].state is Some,
        ({
            let m = snapshot.entities@;
            let path = m[d.new_active].outgoing->Some_0@[k];
            id == path || (m.contains_key(path) && m[path].edges is Some && 0 <= l
                < m[path].edges->Some_0@.len() && ({
                let edge = m[path].edges->Some_0@[l];
                id == edge || (m.contains_key(edge) && m[edge].sides is Some && (id
                    == m[edge].sides->Some_0.0 || id == m[edge].sides->Some_0.1))
            }))
        }),
    ensures
        ({
            let after = settled(states_in(snapshot.entities@), snapshot.changes(d));
            after.contains_key(id) && after[id] != LocationState::Inactive
        }),
{
    law_entries_fix_the_states(snapshot, d);
    let m = snapshot.entities@;
    let path = m[d.new_active].outgoing->Some_0@[k];
    if id != path {
        assert(touches(m, m[path].edges->Some_0@[l], id));
    }
    assert(on_path(m, path, id));
    assert(ahead_of(m, d.new_active, id));
    let after = settled(states_in(m), snapshot.changes(d));
    assert(after.contains_key(id));
}

/// The whole of the path that connects is left behind: the path, the edge at place
/// `l` of the list in its entry, and both nodes in the entry of that edge are
/// `Visited` after the move, but for the destination.
pub proof fn law_the_whole_way_is_visited(snapshot: &Snapshot, d: Decision, l: int, id: EntityId)
    requires
        d.connecting_path is Some,
        snapshot.entities@.contains_key(id),
        snapshot.entities@[id].state is Some,
        id != d.new_active,
        ({
            let m = snapshot.entities@;
            let path = d.connecting_path->Some_0;
            id == path || (m.contains_key(path) && m[path].edges is Some && 0 <= l
                < m[path].edges->Some_0@.len() && ({
                let edge = m[path].edges->Some_0@[l];
                id == edge || (m.contains_key(edge) && m[edge].sides is Some && (id
                    == m[edge].sides->Some_0.0 || id == m[edge].sides->Some_0.1))
            }))
        }),
    ensures
        settled(states_in(snapshot.entities@), snapshot.changes(d))[id] == LocationState::Visited,
{
    law_entries_fix_the_states(snapshot, d);
    let m = snapshot.entities@;
    let path = d.connecting_path->Some_0;
    if id != path {
        assert(touches(m, m[path].edges->Some_0@[l], id));
    }
    assert(on_path(m, path, id));
    let after = settled(states_in(m), snapshot.changes(d));
    assert(after.contains_key(id));
}

/// The requests of a move, told by the entries. Each is for an entity that has a state.
/// Those for `Visited` come first, for what the move takes along and is not `Visited`
/// yet; the one for `Active` is for the destination; those for `Available` come last,
/// for what is `Inactive` and lies ahead.
pub proof fn law_entries_fix_the_requests(snapshot: &Snapshot, d: Decision, k: int)
    requires
        0 <= k < snapshot.changes(d).len(),
    ensures
        ({
            let m = snapshot.entities@;
            let c = snapshot.changes(d)[k];
            &&& m.contains_key(c.entity) && m[c.entity].state is Some
            &&& c.next != LocationState::Inactive
            &&& c.next == LocationState::Visited ==> behind(m, d, c.entity) && m[c.entity].state
                != Some(LocationState::Visited)
            &&& c.next == LocationState::Active ==> c.entity == d.new_active
            &&& c.next == LocationState::Available ==> ahead_of(m, d.new_active, c.entity)
                && m[c.entity].state == Some(LocationState::Inactive)
            &&& forall|l: int|
                k < l < snapshot.changes(d).len() && c.next != LocationState::Visited ==> (
                #[trigger] snapshot.changes(d)[l]).next == LocationState::Available
        }),
{
    let m = snapshot.entities@;
    let c = snapshot.changes(d)[k];
    let a = snapshot.closing(d);
    let b = snapshot.arriving(d);
    let e = snapshot.opening(d);
    snapshot.lemma_closing(d, c.entity);
    snapshot.lemma_paths(
        snapshot.outgoing_of(d.new_active),
        LocationState::Available,
        c.entity,
    );
    lemma_ahead(snapshot, d.new_active, c.entity);
    if let Some(path) = d.connecting_path {
        lemma_on_path(snapshot, path, c.entity);
    }
    assert(b.len() <= 1);
    if k < a.len() {
        assert(a[k] == c);
        assert(names(a, c.entity));
    } else if k < a.len() + b.len() {
        assert(b[k - a.len()] == c);
    } else {
        assert(e[k - a.len() - b.len()] == c);
        assert(names(e, c.entity));
    }
    assert forall|l: int|
        k < l < snapshot.changes(d).len() && c.next != LocationState::Visited implies (
    #[trigger] snapshot.changes(d)[l]).next == LocationState::Available by {
        assert(snapshot.changes(d)[l] == e[l - a.len() - b.len()]);
    }
}

/// No request is left out: what the move takes along and is not `Visited` is asked to
/// be, the destination is asked to be `Active` if it is not, and what lies ahead and is
/// `Inactive` is asked to be `Available`.
pub proof fn law_no_request_is_left_out(snapshot: &Snapshot, d: Decision, id: EntityId)
    requires
        snapshot.entities@.contains_key(id),
        snapshot.entities@[id].state is Some,
    ensures
        ({
            let m = snapshot.entities@;
            let state = m[id].state->Some_0;
            let all = snapshot.changes(d);
            &&& behind(m, d, id) && state != LocationState::Visited ==> all.contains(
                StateChange { entity: id, next: LocationState::Visited },
            )
            &&& id == d.new_active && (state != LocationState::Active || behind(m, d, id))
                ==> all.contains(StateChange { entity: id, next: LocationState::Active })
            &&& ahead_of(m, d.new_active, id) && state == LocationState::Inactive
                ==> all.contains(StateChange { entity: id, next: LocationState::Available })
        }),
{
    let m = snapshot.entities@;
    let state = m[id].state->Some_0;
    let all = snapshot.changes(d);
    let a = snapshot.closing(d);
    let b = snapshot.arriving(d);
    let e = snapshot.opening(d);
    snapshot.lemma_closing(d, id);
    snapshot.lemma_paths(snapshot.outgoing_of(d.new_active), LocationState::Available, id);
    lemma_ahead(snapshot, d.new_active, id);
    if let Some(path) = d.connecting_path {
        lemma_on_path(snapshot, path, id);
    }
    if behind(m, d, id) && state != LocationState::Visited {
        assert(names(a, id));
        let k = choose|k: int| 0 <= k < a.len() && (#[trigger] a[k]).entity == id;
        assert(all[k] == a[k]);
    }
    if id == d.new_active && (state != LocationState::Active || behind(m, d, id)) {
        assert(all[a.len() as int] == b[0]);
    }
    if ahead_of(m, d.new_active, id) && state == LocationState::Inactive {
        assert(names(e, id));
        let k = choose|k: int| 0 <= k < e.len() && (#[trigger] e[k]).entity == id;
        assert(all[a.len() + b.len() + k] == e[k]);
    }
}

proof fn lemma_first_active_misses_none(
    snapshot: &Snapshot,
    root: Option<EntityId>,
    nodes: Seq<EntityId>,
)
    ensures
        snapshot.first_active(root, nodes) is None ==> forall|i: int|
            0 <= i < nodes.len() ==> !snapshot.active_on(root, #[trigger] nodes[i]),
    decreases nodes.len(),
{
    if nodes.len() > 0 {
        let rest = nodes.drop_last();
        lemma_first_active_misses_none(snapshot, root, rest);
        if snapshot.first_active(root, nodes) is None {
            assert forall|i: int| 0 <= i < nodes.len() implies !snapshot.active_on(
                root,
                #[trigger] nodes[i],
            ) by {
                if i < rest.len() {
                    assert(rest[i] == nodes[i]);
                }
            }
        }
    }
}

/// The node that a move leaves, told by the entries.
proof fn lemma_previous(snapshot: &Snapshot, target: EntityId)
    ensures
        match snapshot.previous(target) {
            Some(id) => exists|a: int|
                0 <= a < snapshot.nodes@.len() && id == #[trigger] snapshot.nodes@[a] && rival(
                    snapshot.entities@,
                    target,
                    id,
                ) && forall|i: int|
                    0 <= i < a ==> !rival(
                        snapshot.entities@,
                        target,
                        #[trigger] snapshot.nodes@[i],
                    ),
            None => forall|i: int|
                0 <= i < snapshot.nodes@.len() ==> !rival(
                    snapshot.entities@,
                    target,
                    #[trigger] snapshot.nodes@[i],
                ),
        },
{
    let m = snapshot.entities@;
    let root = snapshot.parent_of(target);
    let nodes = snapshot.nodes@;
    lemma_first_active_misses_none(snapshot, root, nodes);
    if snapshot.previous(target) is Some {
        lemma_first_active_place(snapshot, root, nodes);
        let a = choose|a: int|
            0 <= a < nodes.len() && snapshot.previous(target) == Some(#[trigger] nodes[a])
                && snapshot.active_on(root, nodes[a]) && forall|i: int|
                0 <= i < a ==> !snapshot.active_on(root, #[trigger] nodes[i]);
        assert(rival(m, target, nodes[a]));
    }
}

proof fn lemma_first_active_place(
    snapshot: &Snapshot,
    root: Option<EntityId>,
    nodes: Seq<EntityId>,
)
    requires
        snapshot.first_active(root, nodes) is Some,
    ensures
        exists|a: int|
            0 <= a < nodes.len() && snapshot.first_active(root, nodes) == Some(#[trigger] nodes[a])
                && snapshot.active_on(root, nodes[a]) && forall|i: int|
                0 <= i < a ==> !snapshot.active_on(root, #[trigger] nodes[i]),
    decreases nodes.len(),
{
    let rest = nodes.drop_last();
    if snapshot.first_active(root, rest) is Some {
        lemma_first_active_place(snapshot, root, rest);
        let a = choose|a: int|
            0 <= a < rest.len() && snapshot.first_active(root, rest) == Some(#[trigger] rest[a])
                && snapshot.active_on(root, rest[a]) && forall|i: int|
                0 <= i < a ==> !snapshot.active_on(root, #[trigger] rest[i]);
        assert(nodes[a] == rest[a]);
        assert forall|i: int| 0 <= i < a implies !snapshot.active_on(root, #[trigger] nodes[i]) by {
            assert(rest[i] == nodes[i]);
        }
    } else {
        lemma_first_active_misses_none(snapshot, root, rest);
        let a = nodes.len() - 1;
        assert forall|i: int| 0 <= i < a implies !snapshot.active_on(root, #[trigger] nodes[i]) by {
            assert(rest[i] == nodes[i]);
        }
        assert(snapshot.first_active(root, nodes) == Some(nodes[a]));
    }
}

proof fn lemma_first_from_place(snapshot: &Snapshot, from: EntityId, paths: Seq<EntityId>)
    requires
        snapshot.first_from(from, paths) is Some,
    ensures
        exists|a: int|
            0 <= a < paths.len() && snapshot.first_from(from, paths) == Some(#[trigger] paths[a])
                && snapshot.starts_at(paths[a], from) && forall|i: int|
                0 <= i < a ==> !snapshot.starts_at(#[trigger] paths[i], from),
    decreases paths.len(),
{
    let rest = paths.drop_last();
    if snapshot.first_from(from, rest) is Some {
        lemma_first_from_place(snapshot, from, rest);
        let a = choose|a: int|
            0 <= a < rest.len() && snapshot.first_from(from, rest) == Some(#[trigger] rest[a])
                && snapshot.starts_at(rest[a], from) && forall|i: int|
                0 <= i < a ==> !snapshot.starts_at(#[trigger] rest[i], from);
        assert(paths[a] == rest[a]);
        assert forall|i: int| 0 <= i < a implies !snapshot.starts_at(#[trigger] paths[i], from) by {
            assert(rest[i] == paths[i]);
        }
    } else {
        lemma_first_from_misses_none(snapshot, from, rest);
        let a = paths.len() - 1;
        assert forall|i: int| 0 <= i < a implies !snapshot.starts_at(#[trigger] paths[i], from) by {
            assert(rest.contains(rest[i]));
            assert(rest[i] == paths[i]);
        }
        assert(snapshot.first_from(from, paths) == Some(paths[a]));
    }
}

/// Which path leads from the active node to a node: the first in the list of those
/// that arrive there which starts at the active node; none only if no place of the
/// list holds one.
proof fn lemma_way(snapshot: &Snapshot, from: EntityId, to: EntityId)
    ensures
        match snapshot.first_from(from, snapshot.incoming_of(to)) {
            Some(path) => exists|j: int| #[trigger]
                leads(snapshot.entities@, from, to, j) && path
                    == snapshot.entities@[to].incoming->Some_0@[j] && forall|i: int|
                    0 <= i < j ==> !#[trigger] leads(snapshot.entities@, from, to, i),
            None => forall|j: int| !#[trigger] leads(snapshot.entities@, from, to, j),
        },
{
    let m = snapshot.entities@;
    let paths = snapshot.incoming_of(to);
    lemma_first_from_misses_none(snapshot, from, paths);
    if snapshot.first_from(from, paths) is Some {
        lemma_first_from_place(snapshot, from, paths);
        let a = choose|a: int|
            0 <= a < paths.len() && snapshot.first_from(from, paths) == Some(#[trigger] paths[a])
                && snapshot.starts_at(paths[a], from) && forall|i: int|
                0 <= i < a ==> !snapshot.starts_at(#[trigger] paths[i], from);
        assert(leads(m, from, to, a));
        assert forall|i: int| 0 <= i < a implies !#[trigger] leads(m, from, to, i) by {
            assert(!snapshot.starts_at(paths[i], from));
        }
    } else {
        assert forall|j: int| !#[trigger] leads(m, from, to, j) by {
            if leads(m, from, to, j) {
                assert(paths.contains(paths[j]));
                assert(snapshot.starts_at(paths[j], from));
            }
        }
    }
}

/// A path to a node is found at whatever place of the list it stands. Where the first
/// active node of the map is at place `a` among the nodes, and the path at place `j`
/// of the list of those that arrive at the target starts there, the visit is no
/// teleport, and the path that it takes is in that list and starts at the active
/// node; no path before it does.
pub proof fn law_a_way_is_found(snapshot: &Snapshot, target: EntityId, a: int, j: int)
    requires
        snapshot.entities@.contains_key(target),
        snapshot.entities@[target].is_node,
        0 <= a < snapshot.nodes@.len(),
        rival(snapshot.entities@, target, snapshot.nodes@[a]),
        forall|i: int|
            0 <= i < a ==> !rival(snapshot.entities@, target, #[trigger] snapshot.nodes@[i]),
        leads(snapshot.entities@, snapshot.nodes@[a], target, j),
    ensures
        snapshot.verdict(target) !is TeleportDisabled,
        snapshot.verdict(target) matches Verdict::Move(d) ==> {
            &&& d.previous_active == Some(snapshot.nodes@[a])
            &&& exists|q: int|
                q <= j && #[trigger] leads(snapshot.entities@, snapshot.nodes@[a], target, q)
                    && d.connecting_path == Some(
                    snapshot.entities@[target].incoming->Some_0@[q],
                ) && forall|i: int|
                    0 <= i < q ==> !#[trigger] leads(
                        snapshot.entities@,
                        snapshot.nodes@[a],
                        target,
                        i,
                    )
        },
{
    let m = snapshot.entities@;
    let prev = snapshot.nodes@[a];
    law_the_first_active_node_counts(snapshot, target, a);
    lemma_way(snapshot, prev, target);
    let path = snapshot.first_from(prev, snapshot.incoming_of(target));
    assert(path is Some);
    let q = choose|q: int| #[trigger]
        leads(m, prev, target, q) && path == Some(m[target].incoming->Some_0@[q]) && forall|i: int|
            0 <= i < q ==> !#[trigger] leads(m, prev, target, i);
    assert(q <= j);
    assert(leads(m, prev, target, q));
}

/// The node that a move leaves is the first among the nodes that is active and a child
/// of the same entity as the target.
pub proof fn law_the_first_active_node_counts(snapshot: &Snapshot, target: EntityId, a: int)
    requires
        0 <= a < snapshot.nodes@.len(),
        rival(snapshot.entities@, target, snapshot.nodes@[a]),
        forall|i: int|
            0 <= i < a ==> !rival(snapshot.entities@, target, #[trigger] snapshot.nodes@[i]),
    ensures
        snapshot.previous(target) == Some(snapshot.nodes@[a]),
        snapshot.verdict(target) matches Verdict::Move(d) ==> d.previous_active == Some(
            snapshot.nodes@[a],
        ),
{
    lemma_previous(snapshot, target);
    if let Some(id) = snapshot.previous(target) {
        let b = choose|b: int|
            0 <= b < snapshot.nodes@.len() && id == #[trigger] snapshot.nodes@[b] && rival(
                snapshot.entities@,
                target,
                id,
            ) && forall|i: int|
                0 <= i < b ==> !rival(snapshot.entities@, target, #[trigger] snapshot.nodes@[i]);
        assert(a == b) by {
            if a < b {
                assert(!rival(snapshot.entities@, target, snapshot.nodes@[a]));
            }
            if b < a {
                assert(!rival(snapshot.entities@, target, snapshot.nodes@[b]));
            }
        }
    }
}

/// What becomes of a request for a node, told by the entries. One that is `Visited`
/// is refused unless revisits are allowed. Otherwise the visit goes by a path from
/// the active node, if one of the paths that arrive starts there. Without one it is a
/// teleport, which may be forbidden, unless no node of the map is active.
pub proof fn law_entries_decide_on_nodes(snapshot: &Snapshot, target: EntityId)
    requires
        snapshot.entities@.contains_key(target),
        snapshot.entities@[target].is_node,
    ensures
        ({
            let m = snapshot.entities@;
            let seen = m[target].state == Some(LocationState::Visited);
            let barred = seen && !rules(m, target).allow_revisit;
            let v = snapshot.verdict(target);
            &&& barred ==> v == Verdict::RevisitDisabled(target)
            &&& !barred && (forall|i: int|
                0 <= i < snapshot.nodes@.len() ==> !rival(
                    m,
                    target,
                    #[trigger] snapshot.nodes@[i],
                )) ==> v == Verdict::Move(
                Decision {
                    previous_active: None,
                    new_active: target,
                    connecting_path: None,
                    entered_path: None,
                },
            )
            &&& !barred ==> forall|a: int|
                0 <= a < snapshot.nodes@.len() && rival(m, target, #[trigger] snapshot.nodes@[a])
                    && (forall|i: int|
                    0 <= i < a ==> !rival(m, target, #[trigger] snapshot.nodes@[i])) && (forall|
                    j: int,
                | !#[trigger] leads(m, snapshot.nodes@[a], target, j)) ==> v == (
                if rules(m, target).allow_teleport {
                    Verdict::Move(
                        Decision {
                            previous_active: Some(snapshot.nodes@[a]),
                            new_active: target,
                            connecting_path: None,
                            entered_path: None,
                        },
                    )
                } else {
                    Verdict::TeleportDisabled(target)
                })
            &&& !barred ==> forall|a: int, j: int|
                0 <= a < snapshot.nodes@.len() && rival(m, target, #[trigger] snapshot.nodes@[a])
                    && (forall|i: int|
                    0 <= i < a ==> !rival(m, target, #[trigger] snapshot.nodes@[i]))
                    && #[trigger] leads(m, snapshot.nodes@[a], target, j) && (forall|i: int|
                    0 <= i < j ==> !#[trigger] leads(m, snapshot.nodes@[a], target, i)) ==> v
                    == Verdict::Move(
                    Decision {
                        previous_active: Some(snapshot.nodes@[a]),
                        new_active: target,
                        connecting_path: Some(m[target].incoming->Some_0@[j]),
                        entered_path: None,
                    },
                )
        }),
{
    let m = snapshot.entities@;
    let v = snapshot.verdict(target);
    let seen = m[target].state == Some(LocationState::Visited);
    let barred = seen && !rules(m, target).allow_revisit;
    assert(snapshot.policy_for(target) == rules(m, target));
    lemma_previous(snapshot, target);
    assert forall|a: int|
        0 <= a < snapshot.nodes@.len() && rival(m, target, #[trigger] snapshot.nodes@[a]) && (
        forall|i: int| 0 <= i < a ==> !rival(m, target, #[trigger] snapshot.nodes@[i])) && (forall|
            j: int,
        | !#[trigger] leads(m, snapshot.nodes@[a], target, j)) && !barred implies v == (
    if rules(m, target).allow_teleport {
        Verdict::Move(
            Decision {
                previous_active: Some(snapshot.nodes@[a]),
                new_active: target,
                connecting_path: None,
                entered_path: None,
            },
        )
    } else {
        Verdict::TeleportDisabled(target)
    }) by {
        law_the_first_active_node_counts(snapshot, target, a);
        lemma_way(snapshot, snapshot.nodes@[a], target);
    }
    assert forall|a: int, j: int|
        0 <= a < snapshot.nodes@.len() && rival(m, target, #[trigger] snapshot.nodes@[a]) && (
        forall|i: int| 0 <= i < a ==> !rival(m, target, #[trigger] snapshot.nodes@[i]))
            && #[trigger] leads(m, snapshot.nodes@[a], target, j) && (forall|i: int|
            0 <= i < j ==> !#[trigger] leads(m, snapshot.nodes@[a], target, i))
            && !barred implies v == Verdict::Move(
        Decision {
            previous_active: Some(snapshot.nodes@[a]),
            new_active: target,
            connecting_path: Some(m[target].incoming->Some_0@[j]),
            entered_path: None,
        },
    ) by {
        let prev = snapshot.nodes@[a];
        law_the_first_active_node_counts(snapshot, target, a);
        lemma_way(snapshot, prev, target);
        let path = snapshot.first_from(prev, snapshot.incoming_of(target));
        assert(path is Some);
        let q = choose|q: int| #[trigger]
            leads(m, prev, target, q) && path == Some(m[target].incoming->Some_0@[q]) && forall|
                i: int,
            | 0 <= i < q ==> !#[trigger] leads(m, prev, target, i);
        assert(q == j);
    }
}

/// What becomes of a request for anything but a node, told by the entries. What is no
/// path is not known. A path is refused where paths may not be visited, where it has
/// no ends, where its end is `Visited` and may not be visited again, and, if teleports
/// are forbidden, where a node of the map is active from which it does not start.
pub proof fn law_entries_decide_on_paths(snapshot: &Snapshot, target: EntityId)
    requires
        !(snapshot.entities@.contains_key(target) && snapshot.entities@[target].is_node),
    ensures
        ({
            let m = snapshot.entities@;
            let v = snapshot.verdict(target);
            let known = m.contains_key(target) && m[target].is_path;
            let (from, to) = m[target].ends->Some_0;
            let seen = m.contains_key(to.0) && m[to.0].state == Some(LocationState::Visited);
            &&& !known ==> v == Verdict::Unknown
            &&& known && !rules(m, target).allow_path_visit ==> v == Verdict::PathVisitDisabled
            &&& known && rules(m, target).allow_path_visit && m[target].ends is None ==> v
                == Verdict::MissingEnds
            &&& known && rules(m, target).allow_path_visit && m[target].ends is Some ==> {
                &&& seen && !rules(m, target).allow_revisit ==> v == Verdict::RevisitDisabled(to.0)
                &&& !(seen && !rules(m, target).allow_revisit) ==> {
                    &&& (forall|i: int|
                        0 <= i < snapshot.nodes@.len() ==> !rival(
                            m,
                            target,
                            #[trigger] snapshot.nodes@[i],
                        )) ==> v == Verdict::Move(
                        Decision {
                            previous_active: None,
                            new_active: to.0,
                            connecting_path: None,
                            entered_path: Some(target),
                        },
                    )
                    &&& forall|a: int|
                        0 <= a < snapshot.nodes@.len() && rival(
                            m,
                            target,
                            #[trigger] snapshot.nodes@[a],
                        ) && (forall|i: int|
                            0 <= i < a ==> !rival(m, target, #[trigger] snapshot.nodes@[i])) ==> {
                            let prev = snapshot.nodes@[a];
                            if prev == from.0 || rules(m, target).allow_teleport {
                                v == Verdict::Move(
                                    Decision {
                                        previous_active: Some(prev),
                                        new_active: to.0,
                                        connecting_path: if prev == from.0 {
                                            Some(target)
                                        } else {
                                            None
                                        },
                                        entered_path: Some(target),
                                    },
                                )
                            } else {
                                v == Verdict::TeleportDisabled(to.0)
                            }
                        }
                }
            }
        }),
{
    let m = snapshot.entities@;
    assert(snapshot.policy_for(target) == rules(m, target));
    lemma_previous(snapshot, target);
    assert forall|a: int|
        0 <= a < snapshot.nodes@.len() && rival(m, target, #[trigger] snapshot.nodes@[a]) && (
        forall|i: int|
            0 <= i < a ==> !rival(
                m,
                target,
                #[trigger] snapshot.nodes@[i],
            )) implies snapshot.previous(target) == Some(snapshot.nodes@[a]) by {
        law_the_first_active_node_counts(snapshot, target, a);
    }
}

} // verus!
