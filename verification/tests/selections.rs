//! Selections on small diagrams that are laid out by hand.

use std::collections::HashSet;

use msg_level_select::generation::charting;
use msg_level_select::generation::crossing::Candidates;
use msg_level_select::generation::ordering::sort_by_key;
use msg_level_select::generation::picking::{build_bands, pick_into};
use msg_level_select::generation::reach::reach_into_band;
use msg_level_select::generation::selection::{
    pick_entry, pick_evenly, pick_evenly_in_y_indices, select, select_from, DesiredLengths,
    Selection, SelectionError,
};
use msg_level_select::generation::voronoi::{assemble, shared_wall, Diagram};
use msg_level_select::generation::waypoints::{find_path_with_target_length, inflate};
use msg_level_select::geometry::{order_key, PointBits};
use rand::rngs::StdRng;
use rand::{Rng, SeedableRng};

fn point(x: f32, y: f32) -> PointBits {
    PointBits {
        x: x.to_bits(),
        y: y.to_bits(),
    }
}

/// A diagram with these neighbours, and sites on a line from bottom to top.
fn diagram(neighbors: Vec<Vec<usize>>) -> Diagram {
    let n = neighbors.len();
    Diagram {
        sites: (0..n).map(|i| point(0.0, i as f32)).collect(),
        cell_vertices: vec![Vec::new(); n],
        cell_vertex_indices: vec![Vec::new(); n],
        vertices: Vec::new(),
        neighbors,
    }
}

/// Columns of cells, each cell beside those around it. Cell `c * rows + r` is in
/// column `c` and row `r`.
fn grid(cols: usize, rows: usize) -> (Diagram, Vec<Option<usize>>) {
    let mut neighbors = Vec::new();
    let mut bins = Vec::new();
    for c in 0..cols {
        for r in 0..rows {
            let mut near = Vec::new();
            if c + 1 < cols {
                near.push((c + 1) * rows + r);
            }
            if r + 1 < rows {
                near.push(c * rows + r + 1);
            }
            if c > 0 {
                near.push((c - 1) * rows + r);
            }
            if r > 0 {
                near.push(c * rows + r - 1);
            }
            neighbors.push(near);
            bins.push(Some(c));
        }
    }
    let mut d = diagram(neighbors);
    for c in 0..cols {
        for r in 0..rows {
            d.sites[c * rows + r] = point(c as f32, r as f32);
        }
    }
    (d, bins)
}

fn rng() -> StdRng {
    StdRng::seed_from_u64(1)
}

#[test]
fn a_layout_needs_two_stages() {
    let (d, bins) = grid(2, 3);
    assert!(matches!(
        select(&d, &vec![1], &bins, 0, None, &mut rng()),
        Err(SelectionError::LayoutTooShort)
    ));
    assert!(matches!(
        pick_entry(&d, &vec![], &bins, &mut rng()),
        Err(SelectionError::LayoutTooShort)
    ));
}

#[test]
fn a_stage_needs_cells() {
    let (d, mut bins) = grid(3, 2);
    bins[2] = None;
    bins[3] = None;
    assert!(matches!(
        select(&d, &vec![1, 1, 1], &bins, 3, None, &mut rng()),
        Err(SelectionError::EmptyBand(1))
    ));
    assert!(matches!(
        select_from(&d, &vec![1, 1, 1], &bins, &vec![0], 3, None),
        Err(SelectionError::EmptyBand(1))
    ));
}

#[test]
fn stages_out_of_reach_cannot_be_connected() {
    let d = diagram(vec![vec![], vec![]]);
    let bins = vec![Some(0), Some(1)];
    assert!(matches!(
        select_from(&d, &vec![1, 1], &bins, &vec![0], 5, None),
        Err(SelectionError::Unconnectable {
            from_stage: 0,
            to_stage: 1,
            level: 0
        })
    ));
    // Two stops that reach different cells need two successors.
    let d = diagram(vec![vec![2], vec![3], vec![], vec![]]);
    let bins = vec![Some(0), Some(0), Some(1), Some(1)];
    assert!(matches!(
        select_from(&d, &vec![2, 1], &bins, &vec![0, 1], 0, None),
        Err(SelectionError::Unconnectable {
            from_stage: 0,
            to_stage: 1,
            level: 0
        })
    ));
    // The second stop reaches nothing.
    let d = diagram(vec![vec![2], vec![], vec![]]);
    let bins = vec![Some(0), Some(0), Some(1)];
    assert!(matches!(
        select_from(&d, &vec![2, 1], &bins, &vec![0, 1], 0, None),
        Err(SelectionError::Unconnectable {
            from_stage: 0,
            to_stage: 1,
            level: 1
        })
    ));
}

#[test]
fn neighbors_are_connected_directly() {
    let (d, bins) = grid(3, 3);
    let s = select_from(&d, &vec![3, 3, 3], &bins, &vec![0, 1, 2], 0, None)
        .ok()
        .unwrap();
    assert_eq!(s.levels, vec![vec![0, 1, 2], vec![3, 4, 5], vec![6, 7, 8]]);
    for rows in &s.connections {
        for (i, row) in rows.iter().enumerate() {
            assert_eq!(*row, vec![(i, vec![])]);
        }
    }
}

#[test]
fn coverage_comes_first() {
    // One cell of the next stage covers both stops, and it is not the first found.
    let d = diagram(vec![vec![2, 3], vec![4, 3], vec![], vec![], vec![]]);
    let bins = vec![Some(0), Some(0), Some(1), Some(1), Some(1)];
    let s = select_from(&d, &vec![2, 1], &bins, &vec![0, 1], 0, None)
        .ok()
        .unwrap();
    assert_eq!(s.levels[1], vec![3]);
    assert_eq!(s.connections[0], vec![vec![(0, vec![])], vec![(0, vec![])]]);
}

#[test]
fn wanted_lengths_pull_targets_farther() {
    // From cell 0 the next stage is beside it (1), or behind one cell (2, then 3).
    let d = diagram(vec![vec![1, 2], vec![], vec![3], vec![]]);
    let bins = vec![Some(0), Some(1), None, Some(1)];
    let near = select_from(&d, &vec![1, 1], &bins, &vec![0], 1, None)
        .ok()
        .unwrap();
    assert_eq!(near.levels[1], vec![1]);
    let desired = DesiredLengths {
        average: 1,
        lengths: vec![vec![1]],
    };
    let far = select_from(&d, &vec![1, 1], &bins, &vec![0], 0, Some(&desired))
        .ok()
        .unwrap();
    assert_eq!(far.levels[1], vec![3]);
    assert_eq!(far.connections[0][0], vec![(0, vec![2])]);
}

#[test]
fn entry_cells_touch_the_next_stage() {
    // Only cell 1 of the first band has a neighbour in the second one.
    let d = diagram(vec![vec![1], vec![0, 2], vec![1]]);
    let bins = vec![Some(0), Some(0), Some(1)];
    assert_eq!(
        pick_entry(&d, &vec![1, 1], &bins, &mut rng()).ok().unwrap(),
        vec![1]
    );
    // Two are wanted, so the whole band is taken.
    assert_eq!(
        pick_entry(&d, &vec![2, 1], &bins, &mut rng()).ok().unwrap(),
        vec![0, 1]
    );
    // There are no three.
    assert!(matches!(
        pick_entry(&d, &vec![3, 1], &bins, &mut rng()),
        Err(SelectionError::EmptyBand(0))
    ));
    assert!(matches!(
        select(&d, &vec![3, 1], &bins, 0, None, &mut rng()),
        Err(SelectionError::EmptyBand(0))
    ));
}

#[test]
fn a_single_pick_is_near_the_middle() {
    let sorted: Vec<usize> = (10..20).collect();
    for jitter in 0..3 {
        assert_eq!(pick_evenly(&sorted, 1, jitter), vec![15 + jitter]);
    }
    assert_eq!(pick_evenly(&vec![4, 5, 6], 1, 2), vec![6]);
    assert_eq!(pick_evenly(&sorted, 2, 0), vec![12, 17]);
    assert_eq!(pick_evenly(&sorted, 0, 0), Vec::<usize>::new());
    assert_eq!(pick_evenly(&sorted, 10, 0), sorted);
    // The draw is the next one of the stream, and is made only where there is room.
    let mut a = rng();
    let mut b = rng();
    let jitter: usize = b.random_range(0..3);
    assert_eq!(
        pick_evenly_in_y_indices(&sorted, 1, &mut a),
        vec![15 + jitter]
    );
    assert_eq!(a.random::<u64>(), b.random::<u64>());
    assert_eq!(pick_evenly_in_y_indices(&vec![1, 2], 1, &mut a), vec![2]);
    assert_eq!(a.random::<u64>(), b.random::<u64>());
}

#[test]
fn bands_hold_the_cells_of_their_column() {
    let bins = vec![Some(1), None, Some(0), Some(7), Some(1)];
    assert_eq!(
        build_bands(&bins, 3),
        vec![vec![2], vec![0, 4], vec![3]]
    );
}

#[test]
fn sorting_keeps_equal_cells_in_order() {
    let keys: Vec<i128> = [3.0f32, 1.0, 3.0, -0.0, 0.0]
        .iter()
        .map(|y| order_key(y.to_bits()))
        .collect();
    assert_eq!(
        sort_by_key(&vec![4, 3, 2, 1, 0], &keys),
        vec![4, 3, 1, 2, 0]
    );
}

#[test]
fn a_stage_is_filled_up_evenly() {
    // The entry reaches five cells; three are wanted. The one that covers the entry is
    // the first found, and the others are spaced over the rest.
    let d = diagram(vec![vec![5, 1, 2, 3, 4], vec![], vec![], vec![], vec![], vec![]]);
    let bins = vec![Some(0), Some(1), Some(1), Some(1), Some(1), Some(1)];
    let s = select_from(&d, &vec![1, 3], &bins, &vec![0], 0, None)
        .ok()
        .unwrap();
    assert_eq!(s.levels[1], vec![2, 4, 5]);
    assert_eq!(
        s.connections[0][0],
        vec![(2, vec![]), (0, vec![]), (1, vec![])]
    );
}

#[test]
fn searches_report_shortest_corridors() {
    let (d, _) = grid(4, 3);
    let band: HashSet<usize> = [9, 10, 11].into_iter().collect();
    let used: HashSet<usize> = [0, 4].into_iter().collect();
    // From the corner, the middle row is blocked at its second cell.
    let found = reach_into_band(&d, 0, &band, &used, 2);
    assert_eq!(found, vec![(9, vec![3, 6])]);
    let found = reach_into_band(&d, 0, &band, &used, 3);
    assert_eq!(found, vec![(9, vec![3, 6]), (10, vec![3, 6, 7])]);
    assert!(reach_into_band(&d, 0, &band, &used, 1).is_empty());
}

#[test]
fn candidates_know_what_lies_ahead() {
    let (d, _) = grid(3, 2);
    let heights: Vec<i128> = d.sites.iter().map(|p| order_key(p.y)).collect();
    let reach = vec![vec![(2, vec![]), (3, vec![1])]];
    let next: HashSet<usize> = [4].into_iter().collect();
    let c = Candidates {
        diagram: &d,
        heights: &heights,
        reach: &reach,
        next: Some(&next),
        wanted: None,
    };
    assert!(c.is_forward(2));
    assert!(!c.is_forward(3));
    let (picks, links) = c.cross(1).ok().unwrap();
    assert_eq!(picks, vec![2]);
    assert_eq!(links, vec![vec![(0, vec![])]]);
    assert_eq!(c.cross(3).err(), Some(0));
}

fn lines(n: usize) -> Diagram {
    // Cells 0 and 1 are beside each other, and joined by a row of n cells as well.
    let mut neighbors = vec![vec![1, 2], vec![0, n + 1]];
    for i in 2..n + 2 {
        let mut near = Vec::new();
        near.push(if i == 2 { 0 } else { i - 1 });
        near.push(if i == n + 1 { 1 } else { i + 1 });
        neighbors.push(near);
    }
    diagram(neighbors)
}

#[test]
fn detours_are_about_as_long_as_wanted() {
    let d = lines(3);
    let none = HashSet::new();
    for want in [2, 3, 4] {
        assert_eq!(
            find_path_with_target_length(&d, 0, 1, want, &none),
            Some(vec![2, 3, 4])
        );
    }
    // Nothing of that length, though there are shorter paths and longer ones.
    assert_eq!(find_path_with_target_length(&d, 0, 1, 0, &none), None);
    assert_eq!(find_path_with_target_length(&d, 0, 1, 1, &none), None);
    assert_eq!(find_path_with_target_length(&d, 0, 1, 9, &none), None);
    assert_eq!(find_path_with_target_length(&d, 0, 1, 1_000_000_000_000, &none), None);
    let used: HashSet<usize> = [3].into_iter().collect();
    assert_eq!(find_path_with_target_length(&d, 0, 1, 3, &used), None);
    assert_eq!(find_path_with_target_length(&d, 0, 0, 3, &none), None);
    // The search reads the adjacency alone.
    let mut nowhere = lines(3);
    nowhere.sites.clear();
    assert_eq!(
        find_path_with_target_length(&nowhere, 0, 1, 3, &none),
        Some(vec![2, 3, 4])
    );
    let apart = diagram(vec![vec![], vec![]]);
    assert_eq!(find_path_with_target_length(&apart, 0, 1, 3, &none), None);
}

fn pair(path: Vec<usize>) -> Selection {
    Selection {
        levels: vec![vec![0], vec![1]],
        connections: vec![vec![vec![(0, path)]]],
    }
}

#[test]
fn corridors_are_stretched_where_there_is_room() {
    let d = lines(3);
    let mut s = pair(vec![]);
    inflate(&d, &mut s, &vec![vec![vec![3]]]);
    assert_eq!(s.connections[0][0][0], (0, vec![2, 3, 4]));
    // Long enough already.
    inflate(&d, &mut s, &vec![vec![vec![2]]]);
    assert_eq!(s.connections[0][0][0], (0, vec![2, 3, 4]));
    // A corridor is never made shorter, though a shorter one would be found.
    inflate(&d, &mut s, &vec![vec![vec![9]]]);
    assert_eq!(s.connections[0][0][0], (0, vec![2, 3, 4]));
    // Another corridor of the same length is no reason to give it up: 0 and 1 are
    // joined by cell 2 and by cell 3.
    let twice = diagram(vec![vec![2, 3], vec![2, 3], vec![0, 1], vec![0, 1]]);
    let mut s = pair(vec![3]);
    inflate(&twice, &mut s, &vec![vec![vec![2]]]);
    assert_eq!(s.connections[0][0][0], (0, vec![3]));
    // Nothing to extend it with.
    let mut s = pair(vec![]);
    inflate(&d, &mut s, &vec![vec![vec![1]]]);
    assert_eq!(s.connections[0][0][0], (0, vec![]));
}

/// Three cells in a row, with walls between them; the first and the last one touch in
/// a single corner.
fn meshed() -> Diagram {
    let corners = vec![vec![0, 1, 2], vec![2, 1, 3, 4], vec![4, 3, 0]];
    let vertices = (0..5).map(|i| point(i as f32, 10.0 * i as f32)).collect();
    let near = vec![vec![1, 2], vec![0, 2], vec![1, 0]];
    assemble(
        vec![point(0.0, 0.0), point(1.0, 0.0), point(2.0, 0.0)],
        vertices,
        corners,
        &near,
    )
}

#[test]
fn neighbors_without_a_wall_are_dropped() {
    let d = meshed();
    assert_eq!(d.neighbors, vec![vec![1], vec![0, 2], vec![1]]);
    assert_eq!(d.cell_vertices[2], vec![point(4.0, 40.0), point(3.0, 30.0), point(0.0, 0.0)]);
    assert_eq!(
        shared_wall(&d, 0, 1),
        Some([point(1.0, 10.0), point(2.0, 20.0)])
    );
    assert_eq!(
        shared_wall(&d, 1, 0),
        Some([point(2.0, 20.0), point(1.0, 10.0)])
    );
    assert_eq!(shared_wall(&d, 0, 2), None);
    assert!(d.is_usable());
    let mut broken = meshed();
    broken.neighbors[0].push(3);
    assert!(!broken.is_usable());
    let mut broken = meshed();
    broken.sites[1].y = f32::NAN.to_bits();
    assert!(!broken.is_usable());
    let mut broken = meshed();
    broken.sites.pop();
    assert!(!broken.is_usable());
}

#[test]
fn adjacency_is_mutual_whatever_the_lists_say() {
    // Cell 0 lists itself, cell 2 does not list cell 0 back, and cell 3 has one corner
    // in common with cell 0, twice.
    let d = assemble(
        vec![point(0.0, 0.0); 4],
        (0..5).map(|i| point(i as f32, 0.0)).collect(),
        vec![vec![0, 1, 2], vec![1, 0, 0], vec![0, 1], vec![2, 3, 2]],
        &vec![vec![0, 1, 2, 3], vec![0], vec![], vec![0]],
    );
    assert_eq!(d.neighbors, vec![vec![1], vec![0], vec![], vec![]]);
    // The ends of a wall differ, though a corner is listed twice.
    assert_eq!(shared_wall(&d, 1, 0), Some([point(1.0, 0.0), point(0.0, 0.0)]));
    assert_eq!(shared_wall(&d, 3, 0), None);
    assert_eq!(shared_wall(&d, 0, 3), None);
}

#[test]
fn picks_fill_what_is_free() {
    let picks = |sorted: &[usize], n: usize, taken: &[usize]| -> Vec<usize> {
        let mut out = taken.to_vec();
        let mut members: HashSet<usize> = taken.iter().copied().collect();
        pick_into(&sorted.to_vec(), n, &mut out, &mut members);
        assert_eq!(members, out.iter().copied().collect());
        out
    };
    assert_eq!(picks(&[5, 6, 7, 8], 2, &[]), vec![6, 8]);
    // A pick whose place is taken goes on to the next one.
    assert_eq!(picks(&[5, 6, 7, 8], 2, &[6]), vec![6, 7, 8]);
    assert_eq!(picks(&[5, 6, 7, 8], 2, &[8, 6]), vec![8, 6, 7, 5]);
    // There is no more than there is.
    assert_eq!(picks(&[5, 6, 7], 9, &[6, 1]).len(), 4);
    assert_eq!(picks(&[5, 6, 7], usize::MAX, &[]).len(), 3);
    assert_eq!(picks(&[], 3, &[1]), vec![1]);
    assert_eq!(picks(&[5], 0, &[1]), vec![1]);
}

#[test]
fn every_wall_is_charted_once() {
    let d = meshed();
    let edges = charting::unique_edges(&d);
    let pairs: Vec<(usize, usize)> = edges.iter().map(|e| e.cells).collect();
    assert_eq!(pairs, vec![(0, 1), (1, 2)]);
    assert_eq!(edges[1].wall, [point(3.0, 30.0), point(4.0, 40.0)]);
    let cells = charting::cells(&d);
    assert_eq!(cells.len(), 3);
    assert_eq!(cells[1].site, point(1.0, 0.0));
    assert_eq!(cells[1].vertices, d.cell_vertices[1]);
}

#[test]
fn heights_are_those_of_stops_and_walked_walls() {
    let d = meshed();
    let s = Selection {
        levels: vec![vec![2], vec![1]],
        connections: vec![vec![vec![(0, vec![])]]],
    };
    let walked = charting::path_edge_keys(&s, 3);
    assert!(walked.contains(1, 2));
    assert!(!walked.contains(2, 1));
    assert!(!walked.contains(0, 1));
    let stops = vec![vec![point(0.0, 1.5)], vec![point(0.0, 2.5)]];
    let ys: Vec<f32> = charting::traversable_heights(&stops, &charting::unique_edges(&d), &walked)
        .into_iter()
        .map(f32::from_bits)
        .collect();
    assert_eq!(ys, vec![1.5, 2.5, 30.0, 40.0]);
}

#[test]
fn routes_keep_targets_and_cells() {
    let s = Selection {
        levels: vec![vec![0], vec![2, 3]],
        connections: vec![vec![vec![(1, vec![4, 5]), (0, vec![])]]],
    };
    let r = charting::routes(&s.connections);
    assert_eq!(r[0][0].len(), 2);
    assert_eq!(r[0][0][0].target_in_next, 1);
    assert_eq!(r[0][0][0].intermediate_cells, vec![4, 5]);
    assert_eq!(r[0][0][1].target_in_next, 0);
    assert!(charting::fits(&s, 6));
    assert!(!charting::fits(&s, 5));
    let mut astray = s;
    astray.connections[0][0][1].0 = 2;
    assert!(!charting::fits(&astray, 6));
    assert!(!charting::fits(&pair(vec![]), 1));
}
