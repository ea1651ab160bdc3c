//! States, rules and links.

use msg_level_select::{
    DesiredTraversals, EdgePaths, IncomingPaths, LevelMapConfig, LevelMapPolicy, LocationState,
    OutgoingPaths, PathEdges,
};
use LocationState::{Active, Available, Inactive, Visited};

const ALL: [LocationState; 4] = [
    LocationState::Inactive,
    LocationState::Available,
    LocationState::Active,
    LocationState::Visited,
];

#[test]
fn transitions_are_those_of_the_lifecycle() {
    let allowed = [
        (Inactive, Available),
        (Inactive, Active),
        (Inactive, Visited),
        (Available, Active),
        (Available, Visited),
        (Active, Visited),
        (Visited, Active),
    ];
    for from in ALL {
        for to in ALL {
            let listed = allowed.contains(&(from, to));
            assert_eq!(LocationState::can_transition(from, to), from == to || listed);
            assert_eq!(LocationState::is_promotion(from, to), listed);
        }
    }
}

#[test]
fn only_a_revisit_steps_down() {
    for (i, from) in ALL.into_iter().enumerate() {
        for (j, to) in ALL.into_iter().enumerate() {
            if j < i && LocationState::can_transition(from, to) {
                assert_eq!(from, LocationState::Visited);
                assert_eq!(to, LocationState::Active);
            }
        }
    }
}

#[test]
fn defaults_are_documented_ones() {
    let cfg = LevelMapConfig::default();
    assert_eq!(cfg.layout, vec![1, 3, 1, 3, 3, 1]);
    assert_eq!(cfg.stage_buffer, 5);
    assert_eq!(cfg.allow_extra_traversal, 1);
    assert!(cfg.desired_traversals.is_none());
    assert_eq!(cfg.seed, None);
    assert_eq!(cfg.max_attempts, 8);
    assert_eq!(
        cfg.policy,
        LevelMapPolicy {
            allow_revisit: false,
            allow_teleport: true,
            allow_path_visit: true,
        }
    );
    assert_eq!(cfg.policy, LevelMapPolicy::default());
    assert_eq!(DesiredTraversals::default().average, 1);
    assert_eq!(LocationState::default(), LocationState::Inactive);
}

#[test]
fn links_list_what_they_were_given() {
    let edges = PathEdges::new(vec![7, 3, 7]);
    assert_eq!(edges.len(), 3);
    assert!(!edges.is_empty());
    assert_eq!(edges.get(1), 3);
    assert_eq!(edges.iter().copied().collect::<Vec<u64>>(), vec![7, 3, 7]);
    assert!(PathEdges::default().is_empty());

    let paths = EdgePaths::new(vec![9]);
    assert_eq!(paths.iter().copied().collect::<Vec<u64>>(), vec![9]);
    assert_eq!(EdgePaths::default().len(), 0);

    let out = OutgoingPaths::new(vec![1, 2]);
    assert_eq!(out.get(0), 1);
    assert_eq!(out.len(), 2);
    assert!(OutgoingPaths::default().is_empty());

    let inc = IncomingPaths::new(vec![4]);
    assert_eq!(inc.iter().copied().collect::<Vec<u64>>(), vec![4]);
    assert!(!inc.is_empty());
    assert_eq!(IncomingPaths::default().len(), 0);
}
