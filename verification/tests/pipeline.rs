//! Runs the library on maps with real geometry: points, a diagram and a selection.

use bevy::math::curve::{Curve, EaseFunction, EasingCurve};
use bevy::math::Vec2;
use msg_level_select::generation::attempts::{enough_points, unsatisfied};
use msg_level_select::generation::charting::{self, Placement};
use msg_level_select::generation::poisson::Sampler;
use msg_level_select::generation::selection::{
    pick_entry, select, select_from, DesiredLengths, Selection, SelectionError,
};
use msg_level_select::generation::voronoi::{self, shared_wall, Diagram};
use msg_level_select::generation::waypoints::inflate;
use msg_level_select::generation::{CellData, EdgeData, Generated, GenerationError};
use msg_level_select::geometry::PointBits;
use msg_level_select::spawn::SpawnOp;
use msg_level_select::{
    LevelMapConfig, LevelMapRng, LevelMapSpawner, LocationState, SpawnProgress, VisitLocation,
};
use rand::rngs::StdRng;
use rand::{Rng, SeedableRng};
use voronoice::{BoundingBox, Point, VoronoiBuilder};

fn bits(v: Vec2) -> PointBits {
    PointBits {
        x: v.x.to_bits(),
        y: v.y.to_bits(),
    }
}

fn vec2(p: PointBits) -> Vec2 {
    Vec2::new(f32::from_bits(p.x), f32::from_bits(p.y))
}

fn grid_index(p: Vec2, min: Vec2, cell: f32) -> (usize, usize) {
    let local = p - min;
    let x = (local.x / cell).floor() as isize;
    let y = (local.y / cell).floor() as isize;
    (x.max(0) as usize, y.max(0) as usize)
}

fn sample(min: Vec2, max: Vec2, radius: f32, rng: &mut StdRng) -> Vec<Vec2> {
    let size = max - min;
    let cell = radius / std::f32::consts::SQRT_2;
    let cols = (size.x / cell).ceil().max(1.0) as usize;
    let rows = (size.y / cell).ceil().max(1.0) as usize;
    let initial = Vec2::new(
        min.x + rng.random_range(0.0..size.x),
        min.y + rng.random_range(0.0..size.y),
    );
    let mut samples = vec![initial];
    let (ix, iy) = grid_index(initial, min, cell);
    let mut sampler = Sampler::new(cols, rows, ix, iy);
    while let Some(parent) = sampler.next_parent(rng) {
        let r = radius * (1.0 + rng.random_range(0.0..1.0));
        let theta = rng.random_range(0.0..std::f32::consts::TAU);
        let cand = samples[parent] + Vec2::new(r * theta.cos(), r * theta.sin());
        if cand.x < min.x || cand.x >= max.x || cand.y < min.y || cand.y >= max.y {
            sampler.reject();
            continue;
        }
        let (cx, cy) = grid_index(cand, min, cell);
        let close = sampler
            .nearby(cx, cy)
            .into_iter()
            .any(|i| (samples[i] - cand).length_squared() < radius * radius);
        if close {
            sampler.reject();
        } else {
            assert_eq!(sampler.accept(cx, cy), samples.len());
            samples.push(cand);
        }
    }
    samples
}

fn build(sites: &[Vec2], min: Vec2, max: Vec2) -> Option<Diagram> {
    let center = ((min + max) * 0.5).as_dvec2();
    let half = ((max - min) * 0.5).as_dvec2();
    let bounds = BoundingBox::new(
        Point {
            x: center.x,
            y: center.y,
        },
        half.x * 2.0,
        half.y * 2.0,
    );
    let points = sites
        .iter()
        .map(|p| Point {
            x: p.x as f64,
            y: p.y as f64,
        })
        .collect();
    let voronoi = VoronoiBuilder::default()
        .set_sites(points)
        .set_bounding_box(bounds)
        .build()?;
    voronoi::build(sites.iter().map(|&p| bits(p)).collect(), &voronoi)
}

fn bins(sites: &[PointBits], stages: usize, x_min: f32, x_max: f32) -> Vec<Option<usize>> {
    let width = (x_max - x_min) / stages as f32;
    sites
        .iter()
        .map(|p| {
            let x = f32::from_bits(p.x);
            if x < x_min || x >= x_max {
                None
            } else {
                Some(((x - x_min) / width).floor() as usize)
            }
        })
        .collect()
}

fn sample_grid(cols: usize, rows: usize, step: f32) -> Vec<Vec2> {
    let mut v = Vec::new();
    for y in 0..rows {
        for x in 0..cols {
            v.push(Vec2::new(x as f32 * step, y as f32 * step));
        }
    }
    v
}

fn build_test_diagram(seed: u64, layout: &[u32], r: f32, stage_buffer: u32) -> (Diagram, Vec2, Vec2) {
    let total_stages = layout.len() as u32 + 2 * stage_buffer;
    let max_levels = *layout.iter().max().unwrap() as f32;
    let visible_width = layout.len() as f32 * r * 2.5;
    let visible_height = (visible_width / 1.7).max(max_levels * r * 1.5);
    let buffered_width = total_stages as f32 * r * 2.5;
    let buffered_height = visible_height + stage_buffer as f32 * r * 2.0;

    let bmin = Vec2::new(-buffered_width * 0.5, -buffered_height * 0.5);
    let bmax = Vec2::new(buffered_width * 0.5, buffered_height * 0.5);
    let vmin = Vec2::new(-visible_width * 0.5, -visible_height * 0.5);
    let vmax = Vec2::new(visible_width * 0.5, visible_height * 0.5);

    let mut rng = StdRng::seed_from_u64(seed);
    let pts = sample(bmin, bmax, r, &mut rng);
    let d = build(&pts, bmin, bmax).unwrap();
    (d, vmin, vmax)
}

fn try_select(
    layout: &[u32],
    allow_extra_traversal: u32,
    max_attempts: u32,
) -> Result<(Diagram, Selection), SelectionError> {
    let mut last_err = SelectionError::LayoutTooShort;
    for attempt in 0..max_attempts {
        let (d, bmin, bmax) = build_test_diagram(attempt as u64 + 1, layout, 25.0, 5);
        let mut rng = StdRng::seed_from_u64(attempt as u64 + 1);
        let bins = bins(&d.sites, layout.len(), bmin.x, bmax.x);
        match select(
            &d,
            &layout.to_vec(),
            &bins,
            allow_extra_traversal,
            None,
            &mut rng,
        ) {
            Ok(s) => return Ok((d, s)),
            Err(e) => last_err = e,
        }
    }
    Err(last_err)
}

#[test]
fn pairwise_distance_respected() {
    let mut rng = StdRng::seed_from_u64(42);
    let pts = sample(Vec2::ZERO, Vec2::splat(200.0), 10.0, &mut rng);
    assert!(pts.len() > 50);
    for (i, a) in pts.iter().enumerate() {
        for b in pts.iter().skip(i + 1) {
            let d = (*a - *b).length();
            assert!(
                d >= 10.0 - 1e-3,
                "distance {} below radius for points {:?} {:?}",
                d,
                a,
                b
            );
        }
    }
}

#[test]
fn determinism_from_seed() {
    let mut a = StdRng::seed_from_u64(7);
    let mut b = StdRng::seed_from_u64(7);
    let pa = sample(Vec2::ZERO, Vec2::splat(80.0), 8.0, &mut a);
    let pb = sample(Vec2::ZERO, Vec2::splat(80.0), 8.0, &mut b);
    assert_eq!(pa, pb);
}

#[test]
fn neighbor_relation_is_symmetric() {
    let pts = sample_grid(6, 6, 10.0);
    let d = build(&pts, Vec2::splat(-5.0), Vec2::new(60.0, 60.0)).unwrap();
    for (i, ns) in d.neighbors.iter().enumerate() {
        for &j in ns {
            assert!(
                d.neighbors[j].contains(&i),
                "neighbor {} of {} did not list {} back",
                j,
                i,
                i
            );
        }
    }
}

#[test]
fn diagram_keeps_sites_and_polygons() {
    let pts = sample_grid(6, 6, 10.0);
    let d = build(&pts, Vec2::splat(-5.0), Vec2::new(60.0, 60.0)).unwrap();
    assert_eq!(d.sites.len(), 36);
    assert!(d.is_usable());
    for (site, p) in d.sites.iter().zip(&pts) {
        assert_eq!(vec2(*site), *p);
    }
    // The corner cell of the grid is the square of half a step around its site.
    let mut corners: Vec<(i32, i32)> = d.cell_vertices[0]
        .iter()
        .map(|v| (vec2(*v).x.round() as i32, vec2(*v).y.round() as i32))
        .collect();
    corners.sort();
    assert_eq!(corners, vec![(-5, -5), (-5, 5), (5, -5), (5, 5)]);
    for (polygon, indices) in d.cell_vertices.iter().zip(&d.cell_vertex_indices) {
        let points: Vec<PointBits> = indices.iter().map(|&i| d.vertices[i]).collect();
        assert_eq!(*polygon, points);
    }
    for (i, ns) in d.neighbors.iter().enumerate() {
        for &j in ns {
            assert_ne!(i, j);
            assert!(shared_wall(&d, i, j).is_some());
            assert!(shared_wall(&d, j, i).is_some());
        }
    }
}

#[test]
fn sites_in_a_line_have_no_diagram() {
    let pts: Vec<Vec2> = (0..5).map(|i| Vec2::new(i as f32, 0.0)).collect();
    assert!(build(&pts, Vec2::splat(-5.0), Vec2::splat(5.0)).is_none());
}

#[test]
fn a_site_outside_the_box_has_no_cell() {
    let mut pts = sample_grid(4, 4, 10.0);
    pts.push(Vec2::new(500.0, 500.0));
    assert!(build(&pts, Vec2::splat(-5.0), Vec2::splat(35.0)).is_none());
}

#[test]
fn a_tessellation_belongs_to_its_sites() {
    let pts = sample_grid(3, 3, 10.0);
    let points = pts
        .iter()
        .map(|p| Point {
            x: p.x as f64,
            y: p.y as f64,
        })
        .collect();
    let bounds = BoundingBox::new(Point { x: 10.0, y: 10.0 }, 40.0, 40.0);
    let voronoi = VoronoiBuilder::default()
        .set_sites(points)
        .set_bounding_box(bounds)
        .build()
        .unwrap();
    let mut sites: Vec<PointBits> = pts.iter().map(|&p| bits(p)).collect();
    assert!(voronoi::build(sites.clone(), &voronoi).is_some());
    sites.swap(0, 1);
    assert!(voronoi::build(sites.clone(), &voronoi).is_none());
    sites.swap(0, 1);
    sites.pop();
    assert!(voronoi::build(sites, &voronoi).is_none());
}

#[test]
fn ftl_layout_picks_correct_count() {
    let layout = [1u32, 3, 1, 3, 3, 1];
    let (_, s) = try_select(&layout, 2, 32).expect("no seed satisfied layout");
    assert_eq!(s.levels.len(), layout.len());
    for (i, &want) in layout.iter().enumerate() {
        assert_eq!(s.levels[i].len(), want as usize, "stage {i}");
    }

    // Every previous-stage cell has at least one outgoing connection.
    for stage_conns in &s.connections {
        for prev_conns in stage_conns {
            assert!(!prev_conns.is_empty(), "uncovered previous-stage cell");
        }
    }
}

#[test]
fn small_layout_picks_correct_count() {
    let layout = [2u32, 2, 2];
    let (_, s) = try_select(&layout, 1, 16).expect("no seed satisfied layout");
    assert_eq!(s.levels.len(), 3);
    assert_eq!(s.levels[0].len(), 2);
    assert_eq!(s.levels[1].len(), 2);
    assert_eq!(s.levels[2].len(), 2);
    for stage_conns in &s.connections {
        for prev_conns in stage_conns {
            assert!(!prev_conns.is_empty());
        }
    }
}

fn assert_walks(d: &Diagram, s: &Selection) {
    let mut stops: Vec<usize> = s.levels.iter().flatten().copied().collect();
    let count = stops.len();
    stops.sort();
    stops.dedup();
    assert_eq!(stops.len(), count);
    for (stage, rows) in s.connections.iter().enumerate() {
        for (i, row) in rows.iter().enumerate() {
            for (target, path) in row {
                let mut chain = vec![s.levels[stage][i]];
                chain.extend(path);
                chain.push(s.levels[stage + 1][*target]);
                for w in chain.windows(2) {
                    assert!(d.neighbors[w[0]].contains(&w[1]));
                }
                for (k, c) in path.iter().enumerate() {
                    assert!(!stops.contains(c));
                    assert!(!path[k + 1..].contains(c));
                }
            }
        }
        for j in 0..s.levels[stage + 1].len() {
            assert!(rows.iter().flatten().any(|(t, _)| *t == j));
        }
    }
}

#[test]
fn corridors_walk_between_stops() {
    let (d, s) = try_select(&[1, 3, 1, 3, 3, 1], 2, 32).expect("no seed satisfied layout");
    assert_walks(&d, &s);
    assert!(charting::fits(&s, d.neighbors.len()));
    // Corridors out of different stages share no cell.
    let cells = |stage: &Vec<Vec<(usize, Vec<usize>)>>| -> Vec<usize> {
        stage.iter().flatten().flat_map(|(_, p)| p.clone()).collect()
    };
    for (i, a) in s.connections.iter().enumerate() {
        for b in &s.connections[i + 1..] {
            assert!(cells(a).iter().all(|c| !cells(b).contains(c)));
        }
    }
    for stage in &s.levels {
        for w in stage.windows(2) {
            assert!(f32::from_bits(d.sites[w[0]].y) <= f32::from_bits(d.sites[w[1]].y));
        }
    }
}

#[test]
fn inflating_never_shortens() {
    let (d, mut s) = try_select(&[1, 3, 1, 3, 3, 1], 2, 32).expect("no seed satisfied layout");
    let before: Vec<Vec<Vec<(usize, usize)>>> = s
        .connections
        .iter()
        .map(|stage| {
            stage
                .iter()
                .map(|row| row.iter().map(|(t, p)| (*t, p.len())).collect())
                .collect()
        })
        .collect();
    let wants: Vec<Vec<Vec<usize>>> = before
        .iter()
        .map(|stage| {
            stage
                .iter()
                .map(|row| row.iter().map(|_| 3).collect())
                .collect()
        })
        .collect();
    let levels = s.levels.clone();
    inflate(&d, &mut s, &wants);
    assert_eq!(s.levels, levels);
    assert_walks(&d, &s);
    let mut longer = 0;
    for (old, new) in before.iter().flatten().flatten().zip(s.connections.iter().flatten().flatten()) {
        assert_eq!(old.0, new.0);
        assert!(new.1.len() >= old.1);
        assert!(new.1.len() == old.1 || new.1.len() <= 4);
        if new.1.len() > old.1 {
            longer += 1;
        }
    }
    assert!(longer > 0);
}

struct Measures {
    poisson_radius: f32,
    aspect_ratio: f32,
    node_position_buffer: f32,
    easing: EasingCurve<f32>,
}

fn measures() -> Measures {
    Measures {
        poisson_radius: 40.0,
        aspect_ratio: 16.0 / 9.0,
        node_position_buffer: 0.10,
        easing: EasingCurve::new(0.0, 1.0, EaseFunction::SmoothStep),
    }
}

fn working_cfg(seed: u64) -> LevelMapConfig {
    LevelMapConfig {
        seed: Some(seed),
        allow_extra_traversal: 2,
        desired_traversals: Some(Default::default()),
        ..LevelMapConfig::default()
    }
}

fn sample_count(m: &Measures, average: u8, rng: &mut StdRng) -> usize {
    let t: f32 = rng.random_range(0.0..1.0);
    let multiplier = Curve::sample(&m.easing, t).unwrap_or(0.5);
    (multiplier.clamp(0.0, 1.0) * 2.0 * average as f32).round() as usize
}

fn mean(points: &[Vec2]) -> Vec2 {
    points.iter().copied().sum::<Vec2>() / points.len() as f32
}

fn rotate(p: Vec2, theta: f32) -> Vec2 {
    let (s, c) = theta.sin_cos();
    Vec2::new(p.x * c - p.y * s, p.x * s + p.y * c)
}

fn jitter(site: Vec2, reach: f32, rng: &mut StdRng) -> Vec2 {
    if reach <= 0.0 {
        return site;
    }
    let r = reach * (rng.random_range(0.0_f32..1.0)).sqrt();
    let theta = rng.random_range(0.0..std::f32::consts::TAU);
    site + Vec2::new(r * theta.cos(), r * theta.sin())
}

// The layouts that are generated here have one entry and one exit, so the map is
// turned by the angle between the two.
fn try_generate_once(
    cfg: &LevelMapConfig,
    m: &Measures,
    seed: u64,
    requested_seed: u64,
) -> Result<Generated, GenerationError> {
    let mut rng = StdRng::seed_from_u64(seed);
    let r = m.poisson_radius;
    let total = cfg.layout.len() as u32 + 2 * cfg.stage_buffer;
    let max_levels = *cfg.layout.iter().max().unwrap() as f32;
    let visible_width = cfg.layout.len() as f32 * r * 2.5;
    let visible_height = (visible_width / m.aspect_ratio).max(max_levels * r * 1.5);
    let buffered_width = total as f32 * r * 2.5;
    let buffered_height = visible_height + cfg.stage_buffer as f32 * r * 2.0;
    let bmin = Vec2::new(-buffered_width * 0.5, -buffered_height * 0.5);
    let bmax = Vec2::new(buffered_width * 0.5, buffered_height * 0.5);
    let vmin = Vec2::new(-visible_width * 0.5, -visible_height * 0.5);
    let vmax = Vec2::new(visible_width * 0.5, visible_height * 0.5);

    let points = sample(bmin, bmax, r, &mut rng);
    if !enough_points(points.len(), &cfg.layout) {
        return Err(GenerationError::Unsatisfiable(0));
    }
    let diagram = build(&points, bmin, bmax).ok_or(GenerationError::Voronoi)?;
    let bins = bins(&diagram.sites, cfg.layout.len(), vmin.x, vmax.x);
    let entry = pick_entry(&diagram, &cfg.layout, &bins, &mut rng).map_err(unsatisfied)?;
    let desired = cfg.desired_traversals.map(|d| DesiredLengths {
        average: d.average,
        lengths: (0..cfg.layout.len() - 1)
            .map(|s| {
                (0..cfg.layout[s]).map(|_| sample_count(m, d.average, &mut rng)).collect()
            })
            .collect(),
    });
    let mut selection = select_from(
        &diagram,
        &cfg.layout,
        &bins,
        &entry,
        cfg.allow_extra_traversal,
        desired.as_ref(),
    )
    .map_err(unsatisfied)?;
    let sites = |stage: &Vec<usize>| -> Vec<Vec2> {
        stage.iter().map(|&c| vec2(diagram.sites[c])).collect()
    };
    let axis = mean(&sites(&selection.levels[cfg.layout.len() - 1])) - mean(&sites(&selection.levels[0]));
    let rotation = -axis.y.atan2(axis.x);
    if let Some(d) = cfg.desired_traversals {
        let wants: Vec<Vec<Vec<usize>>> = selection
            .connections
            .iter()
            .map(|stage| {
                stage
                    .iter()
                    .map(|row| row.iter().map(|_| sample_count(m, d.average, &mut rng)).collect())
                    .collect()
            })
            .collect();
        inflate(&diagram, &mut selection, &wants);
    }
    assert_walks(&diagram, &selection);

    let mut edges = charting::unique_edges(&diagram);
    for e in &mut edges {
        e.wall = e.wall.map(|p| bits(rotate(vec2(p), rotation)));
    }
    let reach = (m.node_position_buffer * r).max(0.0);
    let stops: Vec<Vec<PointBits>> = selection
        .levels
        .iter()
        .map(|stage| {
            stage
                .iter()
                .map(|&c| bits(rotate(jitter(vec2(diagram.sites[c]), reach, &mut rng), rotation)))
                .collect()
        })
        .collect();
    let walked = charting::path_edge_keys(&selection, diagram.neighbors.len());
    let ys: Vec<f32> = charting::traversable_heights(&stops, &edges, &walked)
        .into_iter()
        .map(f32::from_bits)
        .collect();
    let shift = ys.iter().sum::<f32>() / ys.len() as f32;
    let moved = |p: PointBits| bits(vec2(p) - Vec2::new(0.0, shift));
    let placement = Placement {
        size: bits(vmax - vmin),
        cells: charting::cells(&diagram)
            .into_iter()
            .map(|c| CellData {
                site: moved(bits(rotate(vec2(c.site), rotation))),
                vertices: c
                    .vertices
                    .into_iter()
                    .map(|v| moved(bits(rotate(vec2(v), rotation))))
                    .collect(),
            })
            .collect(),
        edges: edges
            .into_iter()
            .map(|e| EdgeData {
                cells: e.cells,
                wall: e.wall.map(moved),
            })
            .collect(),
        stops: stops
            .into_iter()
            .map(|s| s.into_iter().map(moved).collect())
            .collect(),
        rotation: rotation.to_bits(),
        y_offset: shift.to_bits(),
    };
    Ok(charting::finish(&diagram, selection, placement, seed, requested_seed))
}

fn generate(cfg: &LevelMapConfig, seed: u64) -> Result<Generated, GenerationError> {
    msg_level_select::generation::generate(&cfg.layout, seed, cfg.max_attempts, |try_seed| {
        try_generate_once(cfg, &measures(), try_seed, seed)
    })
}

/// How many of each kind of entity there are, and what the root records.
#[derive(Debug, PartialEq)]
struct MapSignature {
    nodes: usize,
    sites: usize,
    waypoints: usize,
    edges: usize,
    paths: usize,
    seed: u64,
    requested_seed: u64,
    rotation: u32,
    y_offset: u32,
    size: (u32, u32),
}

fn signature(ops: &[SpawnOp]) -> MapSignature {
    let mut roots = ops.iter().filter_map(|op| match op {
        SpawnOp::Root { map, .. } => Some(*map),
        _ => None,
    });
    let map = roots.next().expect("exactly one root");
    assert!(roots.next().is_none());
    let mut waypoints: Vec<u64> = ops
        .iter()
        .filter_map(|op| match op {
            SpawnOp::Path { waypoints, .. } => Some(waypoints.clone()),
            _ => None,
        })
        .flatten()
        .collect();
    waypoints.sort();
    waypoints.dedup();
    MapSignature {
        nodes: ops.iter().filter(|op| matches!(op, SpawnOp::Node { .. })).count(),
        sites: ops.iter().filter(|op| matches!(op, SpawnOp::Site { .. })).count(),
        waypoints: waypoints.len(),
        edges: ops.iter().filter(|op| matches!(op, SpawnOp::Edge { .. })).count(),
        paths: ops.iter().filter(|op| matches!(op, SpawnOp::Path { .. })).count(),
        seed: map.seed,
        requested_seed: map.requested_seed,
        rotation: map.rotation,
        y_offset: map.y_offset,
        size: (map.size.x, map.size.y),
    }
}

/// Drives a spawner until it is done, with ids counted from 100.
fn drive(mut spawner: LevelMapSpawner, budget: usize) -> (Vec<SpawnOp>, usize) {
    let mut ops = Vec::new();
    let mut next: u64 = 100;
    let mut steps = 0;
    assert_eq!(spawner.root(), None);
    loop {
        let n = spawner.fresh_needed(budget);
        let fresh: Vec<u64> = (0..n as u64).map(|i| next + i).collect();
        next += n as u64;
        let (progress, batch) = spawner.step(&fresh, budget);
        assert!(batch.len() <= budget.max(1));
        steps += 1;
        ops.extend(batch);
        assert_eq!(progress.root(), 100);
        assert_eq!(spawner.root(), Some(100));
        if let SpawnProgress::Done(_) = progress {
            assert!(progress.is_done());
            return (ops, steps);
        }
        assert!(!progress.is_done());
    }
}

#[test]
fn spawn_generated_map_matches_spawn_level_map() {
    // Seed 6 with this config exercises the retries: attempt 0 fails and attempt 1
    // succeeds, so the effective seed is 7 while the requested seed stays 6.
    const SEED: u64 = 6;
    let cfg = working_cfg(SEED);

    // Path A: the seed comes through the master stream.
    let mut rng = LevelMapRng::from_seed(0);
    let seed = rng.seed_for(cfg.seed);
    let generated = generate(&cfg, seed).expect("map generation succeeds");
    let (ops_a, _) = drive(LevelMapSpawner::new(&cfg, generated), usize::MAX);
    let sig_a = signature(&ops_a);

    // Path B: generate up front, then spawn the finished layout.
    let generated = generate(&cfg, SEED).expect("map generation succeeds");
    assert!(generated.is_consistent());
    let (ops_b, _) = drive(LevelMapSpawner::new(&cfg, generated), usize::MAX);
    let sig_b = signature(&ops_b);

    assert_eq!(sig_a, sig_b);
    assert_eq!(sig_a.requested_seed, SEED);
    assert_ne!(sig_a.seed, sig_a.requested_seed);
    assert_eq!(sig_a.seed, 7);
}

#[test]
fn incremental_spawn_matches_one_shot() {
    const SEED: u64 = 6;
    let cfg = working_cfg(SEED);

    let generated = generate(&cfg, SEED).expect("generation");
    let (ops_one, steps_one) = drive(LevelMapSpawner::new(&cfg, generated), usize::MAX);
    let sig_one = signature(&ops_one);
    assert_eq!(steps_one, 1);

    let generated = generate(&cfg, SEED).expect("generation");
    let (ops_inc, steps_inc) = drive(LevelMapSpawner::new(&cfg, generated), 1);
    let sig_inc = signature(&ops_inc);

    assert_eq!(sig_one, sig_inc);
    assert_eq!(ops_one.len(), ops_inc.len());
    assert_eq!(steps_inc, ops_inc.len());
}

#[test]
fn generated_map_is_wired_up() {
    let cfg = working_cfg(6);
    let generated = generate(&cfg, 6).expect("generation");
    let routes: usize = generated.connections.iter().flatten().map(|r| r.len()).sum();
    let steps: usize = generated
        .connections
        .iter()
        .flatten()
        .flatten()
        .map(|r| r.intermediate_cells.len() + 1)
        .sum();
    let first_cell = generated.levels[0][0] as u64;
    for e in &generated.edges {
        assert!(e.cells.0 < e.cells.1);
    }
    let (ops, _) = drive(LevelMapSpawner::new(&cfg, generated), 17);
    // Every step of every route crosses an edge, and both sides know of it.
    let mut by_path: Vec<(u64, u64)> = Vec::new();
    let mut by_edge: Vec<(u64, u64)> = Vec::new();
    for op in &ops {
        match op {
            SpawnOp::LinkPath { path, edges } => {
                by_path.extend(edges.iter().map(|e| (*path, *e)))
            }
            SpawnOp::LinkEdge { edge, paths } => {
                by_edge.extend(paths.iter().map(|p| (*p, *edge)))
            }
            _ => {}
        }
    }
    by_path.sort();
    by_edge.sort();
    assert_eq!(by_path.len(), steps);
    assert_eq!(by_path, by_edge);
    assert_eq!(signature(&ops).paths, routes);
    match ops.last() {
        Some(SpawnOp::Visit(visit)) => assert_eq!(
            *visit,
            VisitLocation {
                target: 101 + first_cell
            }
        ),
        _ => panic!("the last act is a visit"),
    }
    assert_eq!(LocationState::default(), LocationState::Inactive);
}
