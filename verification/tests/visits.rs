//! Visits on a small map: two stops after an entry, one of them behind a waypoint.

use std::collections::HashMap;

use msg_level_select::visit::{on_visit_location, Decision, Entry, Snapshot, StateChange, Verdict};
use msg_level_select::{
    IncomingPaths, LevelMapPolicy, LocationState, OutgoingPaths, PathEdges, PathFrom, PathTo,
    VisitLocation,
};
use LocationState::{Active, Available, Inactive, Visited};

const ROOT: u64 = 1;
const ENTRY: u64 = 10;
const NEAR: u64 = 11;
const FAR: u64 = 12;
const END: u64 = 13;
const WAYPOINT: u64 = 20;
const DEAD: u64 = 21;
const TO_NEAR: u64 = 30;
const TO_FAR: u64 = 31;
const NEAR_TO_END: u64 = 32;
const E_NEAR: u64 = 40;
const E_WAY: u64 = 41;
const E_FAR: u64 = 42;
const E_END: u64 = 43;

fn blank() -> Entry {
    Entry {
        is_node: false,
        is_path: false,
        parent: Some(ROOT),
        state: None,
        ends: None,
        edges: None,
        outgoing: None,
        incoming: None,
        sides: None,
        policy: None,
    }
}

fn node(state: Option<LocationState>, outgoing: &[u64], incoming: &[u64]) -> Entry {
    Entry {
        is_node: true,
        state,
        outgoing: Some(OutgoingPaths::new(outgoing.to_vec())),
        incoming: Some(IncomingPaths::new(incoming.to_vec())),
        ..blank()
    }
}

fn path(from: u64, to: u64, edges: &[u64]) -> Entry {
    Entry {
        is_path: true,
        state: Some(Inactive),
        ends: Some((PathFrom(from), PathTo(to))),
        edges: Some(PathEdges::new(edges.to_vec())),
        ..blank()
    }
}

fn edge(a: u64, b: u64) -> Entry {
    Entry {
        state: Some(Inactive),
        sides: Some((a, b)),
        ..blank()
    }
}

fn fresh(policy: LevelMapPolicy) -> Snapshot {
    let mut entities = HashMap::new();
    entities.insert(
        ROOT,
        Entry {
            parent: None,
            policy: Some(policy),
            ..blank()
        },
    );
    entities.insert(ENTRY, node(Some(Inactive), &[TO_NEAR, TO_FAR], &[]));
    entities.insert(NEAR, node(Some(Inactive), &[NEAR_TO_END], &[TO_NEAR]));
    entities.insert(FAR, node(Some(Inactive), &[], &[TO_FAR]));
    entities.insert(END, node(Some(Inactive), &[], &[NEAR_TO_END]));
    entities.insert(WAYPOINT, node(Some(Inactive), &[], &[]));
    entities.insert(DEAD, node(None, &[], &[]));
    entities.insert(TO_NEAR, path(ENTRY, NEAR, &[E_NEAR]));
    entities.insert(TO_FAR, path(ENTRY, FAR, &[E_WAY, E_FAR]));
    entities.insert(NEAR_TO_END, path(NEAR, END, &[E_END]));
    entities.insert(E_NEAR, edge(ENTRY, NEAR));
    entities.insert(E_WAY, edge(ENTRY, WAYPOINT));
    entities.insert(E_FAR, edge(WAYPOINT, FAR));
    entities.insert(E_END, edge(NEAR, END));
    Snapshot {
        entities,
        nodes: vec![DEAD, ENTRY, NEAR, FAR, END, WAYPOINT],
    }
}

fn visit(snapshot: &Snapshot, target: u64) -> (Verdict, Vec<StateChange>) {
    on_visit_location(snapshot, VisitLocation { target })
}

/// Writes the states, as a state machine with these transitions does.
fn settle(snapshot: &mut Snapshot, changes: &[StateChange]) {
    for change in changes {
        if let Some(entry) = snapshot.entities.get_mut(&change.entity) {
            if let Some(state) = entry.state {
                if LocationState::can_transition(state, change.next) {
                    entry.state = Some(change.next);
                }
            }
        }
    }
}

fn state(snapshot: &Snapshot, id: u64) -> Option<LocationState> {
    snapshot.entities[&id].state
}

fn moved(snapshot: &mut Snapshot, target: u64) -> Decision {
    let (verdict, changes) = visit(snapshot, target);
    settle(snapshot, &changes);
    match verdict {
        Verdict::Move(d) => d,
        other => panic!("no move but {other:?}"),
    }
}

#[test]
fn the_first_visit_lights_up_the_corridors() {
    let mut map = fresh(LevelMapPolicy::default());
    let d = moved(&mut map, ENTRY);
    assert_eq!(
        d,
        Decision {
            previous_active: None,
            new_active: ENTRY,
            connecting_path: None,
            entered_path: None,
        }
    );
    assert_eq!(state(&map, ENTRY), Some(Active));
    for id in [TO_NEAR, TO_FAR, E_NEAR, E_WAY, E_FAR, NEAR, FAR, WAYPOINT] {
        assert_eq!(state(&map, id), Some(Available), "{id}");
    }
    for id in [END, NEAR_TO_END, E_END] {
        assert_eq!(state(&map, id), Some(Inactive), "{id}");
    }
    assert_eq!(state(&map, DEAD), None);
}

#[test]
fn a_move_leaves_a_visited_trail() {
    let mut map = fresh(LevelMapPolicy::default());
    moved(&mut map, ENTRY);
    let d = moved(&mut map, NEAR);
    assert_eq!(d.previous_active, Some(ENTRY));
    assert_eq!(d.connecting_path, Some(TO_NEAR));
    for id in [ENTRY, TO_NEAR, E_NEAR] {
        assert_eq!(state(&map, id), Some(Visited), "{id}");
    }
    assert_eq!(state(&map, NEAR), Some(Active));
    for id in [NEAR_TO_END, E_END, END, TO_FAR, FAR] {
        assert_eq!(state(&map, id), Some(Available), "{id}");
    }
    let active = map
        .entities
        .values()
        .filter(|e| e.state == Some(Active))
        .count();
    assert_eq!(active, 1);
}

#[test]
fn entering_a_path_moves_along_it() {
    let mut map = fresh(LevelMapPolicy::default());
    moved(&mut map, ENTRY);
    let d = moved(&mut map, TO_FAR);
    assert_eq!(d.new_active, FAR);
    assert_eq!(d.connecting_path, Some(TO_FAR));
    for id in [ENTRY, TO_FAR, E_WAY, WAYPOINT, E_FAR] {
        assert_eq!(state(&map, id), Some(Visited), "{id}");
    }
    assert_eq!(state(&map, FAR), Some(Active));
}

#[test]
fn requests_come_in_order_and_only_for_promotions() {
    let mut map = fresh(LevelMapPolicy::default());
    moved(&mut map, ENTRY);
    let (_, changes) = visit(&map, NEAR);
    let expected = [
        (ENTRY, Visited),
        (TO_NEAR, Visited),
        (E_NEAR, Visited),
        (ENTRY, Visited),
        (NEAR, Visited),
        (NEAR, Active),
        (NEAR_TO_END, Available),
        (E_END, Available),
        (END, Available),
    ];
    let listed: Vec<(u64, LocationState)> = changes.iter().map(|c| (c.entity, c.next)).collect();
    assert_eq!(listed, expected);
}

#[test]
fn order_of_the_writes_does_not_matter() {
    let mut map = fresh(LevelMapPolicy::default());
    moved(&mut map, ENTRY);
    let (_, mut changes) = visit(&map, TO_FAR);
    // Writes for the same state may come in any order.
    let visited = changes.iter().take_while(|c| c.next == Visited).count();
    changes[..visited].reverse();
    let mut other = fresh(LevelMapPolicy::default());
    moved(&mut other, ENTRY);
    settle(&mut map, &changes);
    moved(&mut other, TO_FAR);
    for id in map.entities.keys() {
        assert_eq!(state(&map, *id), state(&other, *id));
    }
}

#[test]
fn order_of_the_lists_does_not_matter() {
    let mut map = fresh(LevelMapPolicy::default());
    let mut other = fresh(LevelMapPolicy::default());
    other.entities.insert(ENTRY, node(Some(Inactive), &[TO_FAR, TO_NEAR, TO_FAR], &[]));
    other.entities.insert(TO_FAR, path(ENTRY, FAR, &[E_FAR, E_WAY]));
    for target in [ENTRY, FAR] {
        assert_eq!(moved(&mut map, target), moved(&mut other, target));
        for id in map.entities.keys() {
            assert_eq!(state(&map, *id), state(&other, *id), "{id}");
        }
    }
}

#[test]
fn revisits_are_gated() {
    let mut map = fresh(LevelMapPolicy::default());
    moved(&mut map, ENTRY);
    moved(&mut map, NEAR);
    let (verdict, changes) = visit(&map, ENTRY);
    assert_eq!(verdict, Verdict::RevisitDisabled(ENTRY));
    assert!(changes.is_empty());

    map.entities.get_mut(&ROOT).unwrap().policy = Some(LevelMapPolicy {
        allow_revisit: true,
        ..LevelMapPolicy::default()
    });
    let d = moved(&mut map, ENTRY);
    assert_eq!(d.connecting_path, None);
    assert_eq!(state(&map, ENTRY), Some(Active));
    assert_eq!(state(&map, NEAR), Some(Visited));
    assert_eq!(state(&map, TO_NEAR), Some(Visited));
}

#[test]
fn teleports_are_gated() {
    let policy = LevelMapPolicy {
        allow_teleport: false,
        ..LevelMapPolicy::default()
    };
    let mut map = fresh(policy);
    // Nothing is active yet, so there is nothing to teleport from.
    moved(&mut map, ENTRY);
    let (verdict, changes) = visit(&map, END);
    assert_eq!(verdict, Verdict::TeleportDisabled(END));
    assert!(changes.is_empty());
    // A path that does not start at the active node is a teleport, too.
    let (verdict, _) = visit(&map, NEAR_TO_END);
    assert_eq!(verdict, Verdict::TeleportDisabled(END));

    let mut map = fresh(LevelMapPolicy::default());
    moved(&mut map, ENTRY);
    let d = moved(&mut map, NEAR_TO_END);
    assert_eq!(d.connecting_path, None);
    assert_eq!(state(&map, END), Some(Active));
    // The path is entered all the same, but what lies along it is not.
    assert_eq!(d.entered_path, Some(NEAR_TO_END));
    assert_eq!(state(&map, NEAR_TO_END), Some(Visited));
    assert_eq!(state(&map, E_END), Some(Inactive));
    assert_eq!(state(&map, ENTRY), Some(Visited));
}

#[test]
fn path_visits_are_gated() {
    let policy = LevelMapPolicy {
        allow_path_visit: false,
        ..LevelMapPolicy::default()
    };
    let mut map = fresh(policy);
    moved(&mut map, ENTRY);
    let (verdict, changes) = visit(&map, TO_NEAR);
    assert_eq!(verdict, Verdict::PathVisitDisabled);
    assert!(changes.is_empty());
}

#[test]
fn what_is_no_place_is_ignored() {
    let mut map = fresh(LevelMapPolicy::default());
    assert_eq!(visit(&map, E_NEAR).0, Verdict::Unknown);
    assert_eq!(visit(&map, 999).0, Verdict::Unknown);
    map.entities.get_mut(&TO_NEAR).unwrap().ends = None;
    let (verdict, changes) = visit(&map, TO_NEAR);
    assert_eq!(verdict, Verdict::MissingEnds);
    assert!(changes.is_empty());
}

#[test]
fn maps_are_apart() {
    let mut map = fresh(LevelMapPolicy::default());
    moved(&mut map, ENTRY);
    // A second map with a root that has no rules, and a node that is active.
    map.entities.insert(
        50,
        Entry {
            parent: Some(2),
            ..node(Some(Active), &[], &[])
        },
    );
    map.entities.insert(
        51,
        Entry {
            parent: Some(2),
            ..node(Some(Inactive), &[], &[])
        },
    );
    map.nodes.insert(0, 50);
    map.nodes.push(51);
    let d = moved(&mut map, NEAR);
    assert_eq!(d.previous_active, Some(ENTRY));
    assert_eq!(state(&map, 50), Some(Active));
    let d = moved(&mut map, 51);
    assert_eq!(d.previous_active, Some(50));
    assert_eq!(state(&map, NEAR), Some(Active));
}

#[test]
fn the_first_visit_may_enter_a_path() {
    let mut map = fresh(LevelMapPolicy::default());
    let d = moved(&mut map, TO_NEAR);
    assert_eq!((d.previous_active, d.connecting_path), (None, None));
    assert_eq!(state(&map, TO_NEAR), Some(Visited));
    assert_eq!(state(&map, NEAR), Some(Active));
    assert_eq!(state(&map, E_NEAR), Some(Inactive));
}

#[test]
fn visiting_the_active_node_keeps_it_active() {
    let mut map = fresh(LevelMapPolicy::default());
    moved(&mut map, ENTRY);
    let (_, changes) = visit(&map, ENTRY);
    let listed: Vec<(u64, LocationState)> = changes.iter().map(|c| (c.entity, c.next)).collect();
    assert_eq!(listed, vec![(ENTRY, Visited), (ENTRY, Active)]);
    moved(&mut map, ENTRY);
    assert_eq!(state(&map, ENTRY), Some(Active));
    // A node that is active on no map is left as it is.
    map.entities.insert(
        60,
        Entry {
            parent: None,
            ..node(Some(Active), &[], &[])
        },
    );
    assert!(visit(&map, 60).1.is_empty());
}

#[test]
fn states_never_step_down_but_for_a_revisit() {
    let mut map = fresh(LevelMapPolicy {
        allow_revisit: true,
        ..LevelMapPolicy::default()
    });
    let rank = |s: Option<LocationState>| match s {
        None => 0,
        Some(Inactive) => 1,
        Some(Available) => 2,
        Some(Active) => 3,
        Some(Visited) => 4,
    };
    for target in [ENTRY, NEAR, ENTRY, TO_FAR, END, NEAR, FAR] {
        let before: Vec<(u64, i32)> = map
            .entities
            .keys()
            .map(|id| (*id, rank(state(&map, *id))))
            .collect();
        let d = moved(&mut map, target);
        for (id, was) in before {
            let now = rank(state(&map, id));
            assert!(now >= was || (id == d.new_active && was == 4 && now == 3));
        }
    }
}
