//! Spawns a map of four cells: an entry, a waypoint, and two exits.

use msg_level_select::generation::poisson::{Sampler, CANDIDATES};
use msg_level_select::generation::{CellData, EdgeData, Generated, PathRoute};
use msg_level_select::geometry::PointBits;
use msg_level_select::spawn::SpawnOp;
use msg_level_select::{
    LevelMap, LevelMapConfig, LevelMapSpawner, PathFrom, PathTo, Site, SpawnProgress, VisitLocation,
};
use rand::rngs::StdRng;
use rand::{Rng, SeedableRng};

fn point(x: u32, y: u32) -> PointBits {
    PointBits { x, y }
}

fn route(target: usize, cells: &[usize]) -> PathRoute {
    PathRoute {
        target_in_next: target,
        intermediate_cells: cells.to_vec(),
    }
}

fn generated() -> Generated {
    let edge = |a: usize, b: usize| EdgeData {
        cells: (a, b),
        wall: [point(a as u32, 0), point(b as u32, 1)],
    };
    Generated {
        size: point(7, 8),
        cells: (0..4)
            .map(|i| CellData {
                site: point(i, i),
                vertices: vec![point(i, 10)],
            })
            .collect(),
        edges: vec![edge(0, 1), edge(1, 2), edge(1, 3), edge(0, 3)],
        levels: vec![vec![0], vec![2, 3]],
        level_jitters: vec![vec![point(100, 0)], vec![point(102, 0), point(103, 0)]],
        connections: vec![vec![vec![
            route(0, &[1]),
            route(1, &[]),
            route(1, &[1]),
        ]]],
        rotation: 5,
        y_offset: 6,
        seed: 12,
        requested_seed: 11,
    }
}

fn spawner() -> LevelMapSpawner {
    LevelMapSpawner::new(&LevelMapConfig::default(), generated())
}

/// The acts as text, for comparing.
fn line(op: &SpawnOp) -> String {
    match op {
        SpawnOp::Root { entity, map, .. } => format!("root {entity} {}", map.seed),
        SpawnOp::Node { entity, index, .. } => format!("node {entity} {index}"),
        SpawnOp::Edge { entity, wall } => format!("edge {entity} {} {}", wall.from, wall.to),
        SpawnOp::Site {
            entity, address, ..
        } => format!("site {entity} {}.{}", address.belt, address.site),
        SpawnOp::Path {
            entity,
            stage,
            index,
            target,
            from,
            to,
            waypoints,
        } => format!("path {entity} {stage}.{index}>{target} {from:?} {to:?} {waypoints:?}"),
        SpawnOp::LinkPath { path, edges } => {
            format!("{path} crosses {:?}", edges.iter().collect::<Vec<_>>())
        }
        SpawnOp::LinkEdge { edge, paths } => {
            format!("{edge} is crossed by {:?}", paths.iter().collect::<Vec<_>>())
        }
        SpawnOp::Visit(v) => format!("visit {}", v.target),
    }
}

fn run(budget: usize) -> (Vec<String>, Vec<usize>) {
    let mut spawner = spawner();
    let mut next = 0;
    let mut lines = Vec::new();
    let mut sizes = Vec::new();
    loop {
        let n = spawner.fresh_needed(budget);
        let fresh: Vec<u64> = (next..next + n as u64).collect();
        next += n as u64;
        let (progress, ops) = spawner.step(&fresh, budget);
        sizes.push(ops.len());
        lines.extend(ops.iter().map(line));
        if progress.is_done() {
            assert_eq!(spawner.fresh_needed(5), 0);
            assert_eq!(spawner.step(&vec![], 0).0, SpawnProgress::Done(0));
            assert_eq!(spawner.step(&vec![], 5).1.len(), 0);
            return (lines, sizes);
        }
    }
}

#[test]
fn a_map_is_spawned_in_order() {
    let (lines, sizes) = run(usize::MAX);
    let expected = [
        "root 0 12",
        "node 1 0",
        "node 2 1",
        "node 3 2",
        "node 4 3",
        "edge 5 1 2",
        "edge 6 2 3",
        "edge 7 2 4",
        "edge 8 1 4",
        "site 1 0.0",
        "site 3 1.0",
        "site 4 1.1",
        "path 9 0.0>0 PathFrom(1) PathTo(3) [2]",
        "path 10 0.0>1 PathFrom(1) PathTo(4) []",
        "path 11 0.0>1 PathFrom(1) PathTo(4) [2]",
        "9 crosses [5, 6]",
        "10 crosses [8]",
        "11 crosses [5, 7]",
        "5 is crossed by [9, 11]",
        "6 is crossed by [9]",
        "8 is crossed by [10]",
        "7 is crossed by [11]",
        "visit 1",
    ];
    assert_eq!(lines, expected);
    assert_eq!(sizes, vec![23]);
}

#[test]
fn states_go_to_what_routes_touch() {
    let mut map = generated();
    map.cells.push(CellData {
        site: point(4, 4),
        vertices: vec![],
    });
    map.edges.push(EdgeData {
        cells: (2, 4),
        wall: [point(0, 0), point(0, 0)],
    });
    let mut spawner = LevelMapSpawner::new(&LevelMapConfig::default(), map);
    let fresh: Vec<u64> = (0..spawner.fresh_needed(usize::MAX) as u64).collect();
    let (_, ops) = spawner.step(&fresh, usize::MAX);
    let mut stateful: Vec<u64> = Vec::new();
    for op in &ops {
        match op {
            SpawnOp::Site { entity, .. } => stateful.push(*entity),
            SpawnOp::Path {
                entity, waypoints, ..
            } => {
                stateful.push(*entity);
                stateful.extend(waypoints);
            }
            SpawnOp::LinkEdge { edge, .. } => stateful.push(*edge),
            _ => {}
        }
    }
    stateful.sort();
    stateful.dedup();
    // Neither the root, nor the fifth node, nor the edge beside it.
    assert_eq!(fresh.len(), 14);
    assert_eq!(stateful, vec![1, 2, 3, 4, 6, 7, 8, 9, 11, 12, 13]);
}

#[test]
fn budgets_only_cut_the_list() {
    let (whole, _) = run(usize::MAX);
    for budget in [1, 2, 3, 7, 22, 23, 24] {
        let (lines, sizes) = run(budget);
        assert_eq!(lines, whole);
        assert_eq!(sizes.len(), whole.len().div_ceil(budget));
        assert!(sizes.iter().all(|n| *n <= budget));
    }
}

#[test]
fn the_root_comes_even_without_a_budget() {
    let mut spawner = spawner();
    assert_eq!(spawner.root(), None);
    assert_eq!(spawner.fresh_needed(0), 1);
    let (progress, ops) = spawner.step(&vec![77], 0);
    assert_eq!(progress, SpawnProgress::InProgress(77));
    assert_eq!(progress.root(), 77);
    assert_eq!(spawner.root(), Some(77));
    assert_eq!(ops.len(), 1);
    match &ops[0] {
        SpawnOp::Root { map, policy, .. } => {
            assert_eq!(
                *map,
                LevelMap {
                    size: point(7, 8),
                    seed: 12,
                    requested_seed: 11,
                    rotation: 5,
                    y_offset: 6,
                }
            );
            assert_eq!(*policy, LevelMapConfig::default().policy);
        }
        _ => panic!("the root comes first"),
    }
    assert_eq!(spawner.fresh_needed(0), 0);
    assert_eq!(spawner.step(&vec![], 0).1.len(), 0);
}

#[test]
fn acts_carry_the_geometry() {
    let mut spawner = spawner();
    let fresh: Vec<u64> = (0..spawner.fresh_needed(usize::MAX) as u64).collect();
    let (_, ops) = spawner.step(&fresh, usize::MAX);
    match &ops[2] {
        SpawnOp::Node { position, cell, .. } => {
            assert_eq!(*position, point(1, 1));
            assert_eq!(cell.vertices, vec![point(1, 10)]);
        }
        _ => panic!("a node"),
    }
    match &ops[6] {
        SpawnOp::Edge { wall, .. } => assert_eq!(wall.wall, [point(1, 0), point(2, 1)]),
        _ => panic!("an edge"),
    }
    match &ops[11] {
        SpawnOp::Site {
            address, position, ..
        } => {
            assert_eq!(*address, Site { belt: 1, site: 1 });
            assert_eq!(*position, point(103, 0));
        }
        _ => panic!("a stop"),
    }
    match &ops[12] {
        SpawnOp::Path { from, to, .. } => {
            assert_eq!(*from, PathFrom(1));
            assert_eq!(*to, PathTo(3));
        }
        _ => panic!("a path"),
    }
    match &ops[22] {
        SpawnOp::Visit(v) => assert_eq!(*v, VisitLocation { target: 1 }),
        _ => panic!("a visit"),
    }
}

#[test]
fn steps_without_an_edge_are_passed_over() {
    let mut g = generated();
    g.edges.truncate(1);
    let mut spawner = LevelMapSpawner::new(&LevelMapConfig::default(), g);
    let fresh: Vec<u64> = (0..spawner.fresh_needed(usize::MAX) as u64).collect();
    let (_, ops) = spawner.step(&fresh, usize::MAX);
    let links: Vec<String> = ops.iter().map(line).filter(|l| l.contains("cross")).collect();
    assert_eq!(
        links,
        vec![
            "6 crosses [5]",
            "7 crosses []",
            "8 crosses [5]",
            "5 is crossed by [6, 8]"
        ]
    );
}

#[test]
fn an_edge_lists_a_path_as_often_as_it_is_crossed() {
    let mut map = generated();
    // There and back again.
    map.connections = vec![vec![vec![route(0, &[1, 0, 1])]]];
    let mut spawner = LevelMapSpawner::new(&LevelMapConfig::default(), map);
    let fresh: Vec<u64> = (0..spawner.fresh_needed(usize::MAX) as u64).collect();
    let (_, ops) = spawner.step(&fresh, usize::MAX);
    let links: Vec<String> = ops.iter().map(line).filter(|l| l.contains("cross")).collect();
    assert_eq!(
        links,
        vec![
            "9 crosses [5, 5, 5, 6]",
            "5 is crossed by [9, 9, 9]",
            "6 is crossed by [9]"
        ]
    );
}

#[test]
fn maps_that_are_not_in_order_are_found_out() {
    assert!(generated().is_consistent());
    let mut g = generated();
    g.levels[0].clear();
    g.level_jitters[0].clear();
    g.connections[0].clear();
    assert!(!g.is_consistent());
    let mut g = generated();
    g.levels[1][0] = 4;
    assert!(!g.is_consistent());
    let mut g = generated();
    g.level_jitters[1].pop();
    assert!(!g.is_consistent());
    let mut g = generated();
    g.edges[0].cells.1 = 4;
    assert!(!g.is_consistent());
    let mut g = generated();
    g.connections[0][0][0].target_in_next = 2;
    assert!(!g.is_consistent());
    let mut g = generated();
    g.connections[0][0][0].intermediate_cells[0] = 9;
    assert!(!g.is_consistent());
    let mut g = generated();
    g.connections.push(Vec::new());
    assert!(!g.is_consistent());
}

#[test]
fn a_sample_is_given_up_after_its_candidates() {
    let mut rng = StdRng::seed_from_u64(3);
    let mut sampler = Sampler::new(4, 3, 1, 1);
    for _ in 0..CANDIDATES {
        assert_eq!(sampler.next_parent(&mut rng), Some(0));
        sampler.reject();
    }
    assert_eq!(sampler.next_parent(&mut rng), None);
    assert_eq!(CANDIDATES, 30);
}

#[test]
fn turns_are_drawn_from_the_stream() {
    let mut a = StdRng::seed_from_u64(9);
    let mut b = StdRng::seed_from_u64(9);
    let mut sampler = Sampler::new(10, 10, 0, 0);
    let mut active = vec![0];
    for i in 1..9 {
        let pick = b.random_range(0..active.len());
        assert_eq!(sampler.next_parent(&mut a), Some(active[pick]));
        assert_eq!(sampler.accept(i, i), i);
        active.push(i);
    }
    let pick = b.random_range(0..active.len());
    for _ in 0..30 {
        assert_eq!(sampler.next_parent(&mut a), Some(active[pick]));
        sampler.reject();
    }
    active.swap_remove(pick);
    let pick = b.random_range(0..active.len());
    assert_eq!(sampler.next_parent(&mut a), Some(active[pick]));
}

#[test]
fn the_neighborhood_is_five_cells_wide() {
    let mut rng = StdRng::seed_from_u64(9);
    let mut sampler = Sampler::new(6, 6, 0, 0);
    for i in 1..36 {
        sampler.next_parent(&mut rng);
        sampler.accept(i % 6, i / 6);
    }
    let block = |xs: std::ops::Range<usize>, ys: std::ops::Range<usize>| -> Vec<usize> {
        ys.flat_map(|y| xs.clone().map(move |x| y * 6 + x)).collect()
    };
    assert_eq!(sampler.nearby(0, 0), block(0..3, 0..3));
    assert_eq!(sampler.nearby(3, 2), block(1..6, 0..5));
    assert_eq!(sampler.nearby(5, 5), block(3..6, 3..6));
    assert_eq!(sampler.nearby(7, 5), block(5..6, 3..6));
    assert!(sampler.nearby(8, 0).is_empty());
}
