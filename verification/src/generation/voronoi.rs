//! The Voronoi diagram that maps are laid out on: site positions, cell polygons and
//! adjacency.

use crate::geometry::{has_number, is_number, PointBits};
use crate::graph::{in_range, linked};
use crate::sequences::{lemma_filter, lemma_push_contains};
use bevy::math::DVec2;
use std::collections::HashSet;
use voronoice::{Point, Voronoi};
use vstd::prelude::*;

pub mod walls;

verus! {

/// A point of `voronoice`, with double-precision coordinates.
#[verifier::external_type_specification]
#[verifier::external_body]
pub struct ExPoint(Point);

/// A diagram of `voronoice`.
#[verifier::external_type_specification]
#[verifier::external_body]
pub struct ExVoronoi(Voronoi);

/// The cells of a Voronoi diagram, their corners and their adjacency.
pub struct Diagram {
    /// The site of each cell.
    pub sites: Vec<PointBits>,
    /// `cell_vertices[i]` is the polygon of cell `i`.
    pub cell_vertices: Vec<Vec<PointBits>>,
    /// Same shape as `cell_vertices`, holding indices into `vertices`.
    pub cell_vertex_indices: Vec<Vec<usize>>,
    /// The corners of all cells. Cells that meet in a corner share its index.
    pub vertices: Vec<PointBits>,
    /// `neighbors[i]` lists the cells that share a wall with cell `i`.
    pub neighbors: Vec<Vec<usize>>,
}

/// The contents of a list of lists.
pub open spec fn lists<T>(v: Seq<Vec<T>>) -> Seq<Seq<T>> {
    v.map_values(|row: Vec<T>| row@)
}

impl Diagram {
    /// The adjacency of the cells.
    pub open spec fn graph(&self) -> Seq<Seq<usize>> {
        lists(self.neighbors@)
    }

    /// The corners of the cells, as indices into `vertices`.
    pub open spec fn corners(&self) -> Seq<Seq<usize>> {
        lists(self.cell_vertex_indices@)
    }

    /// The neighbour lists name cells of this diagram only, and each cell has a
    /// site whose y is a number.
    pub open spec fn wf(&self) -> bool {
        &&& in_range(self.graph())
        &&& self.sites@.len() == self.neighbors@.len()
        &&& forall|c: int| 0 <= c < self.sites@.len() ==> is_number((#[trigger] self.sites@[c]).y)
    }

    /// Whether cells can be picked out of this diagram.
    pub fn is_usable(&self) -> (r: bool)
        ensures
            r == self.wf(),
    {
        if self.sites.len() != self.neighbors.len() {
            return false;
        }
        let n = self.neighbors.len();
        let mut c: usize = 0;
        while c < n
            invariant
                c <= n,
                n == self.neighbors@.len(),
                n == self.sites@.len(),
                forall|d: int| 0 <= d < c ==> is_number((#[trigger] self.sites@[d]).y),
                forall|d: int, k: int|
                    0 <= d < c && 0 <= k < self.graph()[d].len() ==> (
                    #[trigger] self.graph()[d][k]) < n,
            decreases n - c,
        {
            if !has_number(self.sites[c].y) {
                return false;
            }
            let row = &self.neighbors[c];
            assert(self.graph()[c as int] == row@);
            let mut k: usize = 0;
            while k < row.len()
                invariant
                    k <= row@.len(),
                    c < n,
                    n == self.neighbors@.len(),
                    self.graph()[c as int] == row@,
                    forall|l: int| 0 <= l < k ==> (#[trigger] row@[l]) < n,
                decreases row@.len() - k,
            {
                if row[k] >= n {
                    assert(self.graph()[c as int][k as int] >= n);
                    return false;
                }
                k += 1;
            }
            c += 1;
        }
        true
    }

    /// Each cell has a polygon and a list of neighbours, and every index is one of a
    /// corner or a cell.
    pub open spec fn meshed(&self) -> bool {
        &&& in_range(self.graph())
        &&& self.sites@.len() == self.neighbors@.len()
        &&& self.cell_vertex_indices@.len() == self.neighbors@.len()
        &&& within(self.corners(), self.vertices@.len())
        &&& lists(self.cell_vertices@) == polygons(self.corners(), self.vertices@)
    }

    /// No cell is its own neighbour, neighbours list each other, and they share a
    /// wall seen from either side.
    pub open spec fn walled(&self) -> bool {
        forall|a: usize, b: usize|
            a < self.graph().len() && b < self.graph().len() && #[trigger] linked(
                self.graph(),
                a,
                b,
            ) ==> {
                &&& a != b
                &&& linked(self.graph(), b, a)
                &&& wall(self, a as int, b as int) is Some
                &&& wall(self, b as int, a as int) is Some
            }
    }
}

/// Every index is below `n`.
pub open spec fn within(rows: Seq<Seq<usize>>, n: nat) -> bool {
    forall|i: int, k: int|
        0 <= i < rows.len() && 0 <= k < rows[i].len() ==> (#[trigger] rows[i][k]) < n
}

/// The points that lists of indices stand for.
pub open spec fn polygons(corners: Seq<Seq<usize>>, vertices: Seq<PointBits>) -> Seq<
    Seq<PointBits>,
> {
    corners.map_values(|row: Seq<usize>| row.map_values(|v: usize| vertices[v as int]))
}

/// The corners of `row` that are also corners of `other`, each once.
pub open spec fn common(row: Seq<usize>, other: Seq<usize>) -> Seq<usize>
    decreases row.len(),
{
    if row.len() == 0 {
        Seq::empty()
    } else {
        let before = common(row.drop_last(), other);
        let v = row.last();
        if other.contains(v) && !before.contains(v) {
            before.push(v)
        } else {
            before
        }
    }
}

/// Cells `i` and `j` are different, list each other, and share a wall: they have two
/// corners in common.
pub open spec fn adjoin(corners: Seq<Seq<usize>>, near: Seq<Seq<usize>>, i: int, j: int) -> bool {
    &&& i != j
    &&& near[i].contains(j as usize)
    &&& near[j].contains(i as usize)
    &&& common(corners[j], corners[i]).len() >= 2
}

/// The cells that cell `i` lists and that it adjoins.
pub open spec fn adjoining(corners: Seq<Seq<usize>>, near: Seq<Seq<usize>>, i: int) -> Seq<usize> {
    near[i].filter(|j: usize| adjoin(corners, near, i, j as int))
}

/// The adjacency that is left when cells that do not adjoin are dropped.
pub open spec fn walled_graph(corners: Seq<Seq<usize>>, near: Seq<Seq<usize>>) -> Seq<Seq<usize>> {
    Seq::new(near.len(), |i: int| adjoining(corners, near, i))
}

/// Two patterns stand for the same number, or neither stands for one.
pub open spec fn same_number(a: u32, b: u32) -> bool {
    a == b || (!is_number(a) && !is_number(b))
}

/// Two points have the same coordinates.
pub open spec fn same_point(a: PointBits, b: PointBits) -> bool {
    same_number(a.x, b.x) && same_number(a.y, b.y)
}

/// Two lists hold the same points.
pub open spec fn same_points(a: Seq<PointBits>, b: Seq<PointBits>) -> bool {
    a.len() == b.len() && forall|i: int|
        0 <= i < a.len() ==> same_point(#[trigger] a[i], b[i])
}

/// A point of `voronoice` in single precision, as `DVec2::as_vec2` rounds it.
pub uninterp spec fn rounded(point: Point) -> PointBits;

/// The sites of the cells, as `Voronoi::sites` lists them.
pub uninterp spec fn site_points(voronoi: Voronoi) -> Seq<Point>;

/// The corner indices of each cell, as `Voronoi::cells` lists them.
pub uninterp spec fn cell_corners(voronoi: Voronoi) -> Seq<Seq<usize>>;

/// The corners of all cells, as `Voronoi::vertices` lists them.
pub uninterp spec fn corner_points(voronoi: Voronoi) -> Seq<Point>;

/// The cells that `VoronoiCell::iter_neighbors` yields for a cell.
pub uninterp spec fn cells_beside(voronoi: Voronoi, cell: usize) -> Seq<usize>;

/// `DVec2::as_vec2`: each coordinate is rounded to the nearest single-precision
/// number. Which pattern stands for a coordinate that is no number is left open.
#[verifier::external_body]
fn round(point: &Point) -> (bits: PointBits)
    ensures
        same_point(bits, rounded(*point)),
{
    let [x, y] = DVec2::new(point.x, point.y).as_vec2().to_array();
    PointBits { x: x.to_bits(), y: y.to_bits() }
}

/// `Voronoi::sites`: the sites that have a cell, one for each.
#[verifier::external_body]
fn site_list(voronoi: &Voronoi) -> (points: Vec<Point>)
    ensures
        points@ == site_points(*voronoi),
        points@.len() == cell_corners(*voronoi).len(),
{
    voronoi.sites().clone()
}

/// `Voronoi::cells`: for each cell the indices of its corners in
/// `Voronoi::vertices`.
#[verifier::external_body]
fn corner_lists(voronoi: &Voronoi) -> (rows: Vec<Vec<usize>>)
    ensures
        lists(rows@) == cell_corners(*voronoi),
        within(lists(rows@), corner_points(*voronoi).len()),
{
    voronoi.cells().clone()
}

/// `Voronoi::vertices`: the corners that the cells index.
#[verifier::external_body]
fn corner_list(voronoi: &Voronoi) -> (points: Vec<Point>)
    ensures
        points@ == corner_points(*voronoi),
{
    voronoi.vertices().clone()
}

/// `VoronoiCell::iter_neighbors`, run to its end: indices of cells. A cell that is
/// not there panics.
#[verifier::external_body]
fn neighbor_list(voronoi: &Voronoi, cell: usize) -> (cells: Vec<usize>)
    requires
        cell < cell_corners(*voronoi).len(),
    ensures
        cells@ == cells_beside(*voronoi, cell),
        forall|k: int|
            0 <= k < cells@.len() ==> (#[trigger] cells@[k]) < cell_corners(*voronoi).len(),
{
    voronoi.cell(cell).iter_neighbors().collect()
}

/// The points in single precision.
fn round_all(points: &Vec<Point>) -> (r: Vec<PointBits>)
    ensures
        same_points(r@, points@.map_values(|p: Point| rounded(p))),
{
    let mut r: Vec<PointBits> = Vec::new();
    let mut i: usize = 0;
    while i < points.len()
        invariant
            i <= points@.len(),
            r@.len() == i,
            forall|k: int| 0 <= k < i ==> same_point(#[trigger] r@[k], rounded(points@[k])),
        decreases points@.len() - i,
    {
        r.push(round(&points[i]));
        i += 1;
    }
    r
}

/// Whether two patterns stand for the same number, or neither for one.
fn are_same_number(a: u32, b: u32) -> (r: bool)
    ensures
        r == same_number(a, b),
{
    a == b || (!has_number(a) && !has_number(b))
}

/// Whether two lists hold the same points.
fn are_same_points(a: &Vec<PointBits>, b: &Vec<PointBits>) -> (r: bool)
    ensures
        r == same_points(a@, b@),
{
    if a.len() != b.len() {
        return false;
    }
    let mut i: usize = 0;
    while i < a.len()
        invariant
            a@.len() == b@.len(),
            i <= a@.len(),
            forall|k: int| 0 <= k < i ==> same_point(#[trigger] a@[k], b@[k]),
        decreases a@.len() - i,
    {
        let (p, q) = (a[i], b[i]);
        if !are_same_number(p.x, q.x) || !are_same_number(p.y, q.y) {
            assert(!same_point(a@[i as int], b@[i as int]));
            return false;
        }
        i += 1;
    }
    true
}

/// The members of a list.
fn members(row: &Vec<usize>) -> (set: HashSet<usize>)
    ensures
        set@ == row@.to_set(),
{
    broadcast use vstd::std_specs::hash::group_hash_axioms;

    let mut set: HashSet<usize> = HashSet::new();
    let mut k: usize = 0;
    assert(set@ =~= row@.take(0).to_set());
    while k < row.len()
        invariant
            k <= row@.len(),
            set@ == row@.take(k as int).to_set(),
        decreases row@.len() - k,
    {
        broadcast use vstd::std_specs::hash::group_hash_axioms;

        set.insert(row[k]);
        proof {
            row@.take(k as int).lemma_push_to_set_commute(row@[k as int]);
            assert(row@.take(k + 1) =~= row@.take(k as int).push(row@[k as int]));
        }
        k += 1;
    }
    assert(row@.take(k as int) =~= row@);
    set
}

/// A list holds `x`.
fn holds(row: &Vec<usize>, x: usize) -> (r: bool)
    ensures
        r == row@.contains(x),
{
    let mut k: usize = 0;
    while k < row.len()
        invariant
            k <= row@.len(),
            forall|m: int| 0 <= m < k ==> row@[m] != x,
        decreases row@.len() - k,
    {
        if row[k] == x {
            assert(row@[k as int] == x);
            return true;
        }
        k += 1;
    }
    false
}

/// Each corner in common is listed once.
proof fn lemma_common(row: Seq<usize>, other: Seq<usize>)
    ensures
        common(row, other).no_duplicates(),
        forall|v: usize| #[trigger]
            common(row, other).contains(v) <==> row.contains(v) && other.contains(v),
    decreases row.len(),
{
    if row.len() > 0 {
        let rest = row.drop_last();
        let last = row.last();
        lemma_common(rest, other);
        let before = common(rest, other);
        assert(row =~= rest.push(last));
        assert forall|v: usize| #[trigger]
            common(row, other).contains(v) <==> row.contains(v) && other.contains(v) by {
            lemma_push_contains(rest, last, v);
            lemma_push_contains(before, last, v);
            assert(before.contains(v) <==> rest.contains(v) && other.contains(v));
        }
    }
}

/// Two cells have as many corners in common seen from either side.
proof fn lemma_common_is_mutual(a: Seq<usize>, b: Seq<usize>)
    ensures
        common(a, b).len() == common(b, a).len(),
{
    lemma_common(a, b);
    lemma_common(b, a);
    common(a, b).unique_seq_to_set();
    common(b, a).unique_seq_to_set();
    assert forall|v: usize| common(a, b).to_set().contains(v) <==> common(
        b,
        a,
    ).to_set().contains(v) by {
        assert(common(a, b).contains(v) <==> a.contains(v) && b.contains(v));
        assert(common(b, a).contains(v) <==> b.contains(v) && a.contains(v));
    }
    assert(common(a, b).to_set() =~= common(b, a).to_set());
}

/// The corners of `row` that are in `set`, each once.
fn common_corners(row: &Vec<usize>, other: &Vec<usize>, set: &HashSet<usize>) -> (r: Vec<usize>)
    requires
        set@ == other@.to_set(),
    ensures
        r@ == common(row@, other@),
{
    broadcast use vstd::std_specs::hash::group_hash_axioms;

    let mut r: Vec<usize> = Vec::new();
    let mut k: usize = 0;
    assert(r@ =~= common(row@.take(0), other@));
    while k < row.len()
        invariant
            k <= row@.len(),
            set@ == other@.to_set(),
            r@ == common(row@.take(k as int), other@),
        decreases row@.len() - k,
    {
        broadcast use vstd::std_specs::hash::group_hash_axioms;

        proof {
            assert(row@.take(k + 1).drop_last() =~= row@.take(k as int));
            assert(set@.contains(row@[k as int]) == other@.contains(row@[k as int]));
        }
        if set.contains(&row[k]) && !holds(&r, row[k]) {
            r.push(row[k]);
        }
        k += 1;
    }
    assert(row@.take(k as int) =~= row@);
    r
}

/// The cells that cell `i` lists and that it adjoins.
fn adjoining_cells(corners: &Vec<Vec<usize>>, near: &Vec<Vec<usize>>, i: usize) -> (r: Vec<usize>)
    requires
        corners@.len() == near@.len(),
        i < corners@.len(),
        within(lists(near@), near@.len()),
    ensures
        r@ == adjoining(lists(corners@), lists(near@), i as int),
{
    let ghost rows = lists(corners@);
    let ghost lists_near = lists(near@);
    let ghost meets = |j: usize| adjoin(rows, lists_near, i as int, j as int);
    let set = members(&corners[i]);
    let row = &near[i];
    let mut r: Vec<usize> = Vec::new();
    let mut k: usize = 0;
    assert(r@ =~= row@.take(0).filter(meets)) by {
        reveal(Seq::filter);
    }
    while k < row.len()
        invariant
            k <= row@.len(),
            i < corners@.len(),
            corners@.len() == near@.len(),
            rows == lists(corners@),
            lists_near == lists(near@),
            row@ == lists_near[i as int],
            set@ == corners@[i as int]@.to_set(),
            within(lists_near, near@.len()),
            meets == (|j: usize| adjoin(rows, lists_near, i as int, j as int)),
            r@ == row@.take(k as int).filter(meets),
        decreases row@.len() - k,
    {
        let j = row[k];
        assert(lists_near[i as int][k as int] < near@.len());
        let shared = common_corners(&corners[j], &corners[i], &set);
        let back = holds(&near[j], i);
        proof {
            reveal(Seq::filter);
            assert(row@.take(k + 1).drop_last() =~= row@.take(k as int));
            assert(rows[j as int] == corners@[j as int]@);
            assert(rows[i as int] == corners@[i as int]@);
            assert(lists_near[j as int] == near@[j as int]@);
            assert(lists_near[i as int].contains(j));
        }
        if i != j && back && shared.len() >= 2 {
            r.push(j);
        }
        k += 1;
    }
    assert(row@.take(k as int) =~= row@);
    r
}

proof fn lemma_walled(corners: Seq<Seq<usize>>, near: Seq<Seq<usize>>, a: usize, b: usize)
    requires
        a < near.len(),
    ensures
        linked(walled_graph(corners, near), a, b) <==> adjoin(corners, near, a as int, b as int),
{
    let meets = |j: usize| adjoin(corners, near, a as int, j as int);
    let row = near[a as int];
    lemma_filter(row, meets);
    assert(row.filter(meets).contains(b) <==> row.contains(b) && meets(b));
}

/// Whatever the lists are, two cells are neighbours or not seen from either side, and
/// no cell is its own neighbour. Neighbours are listed, and have two corners in
/// common.
pub proof fn law_adjacency_is_mutual(corners: Seq<Seq<usize>>, near: Seq<Seq<usize>>)
    requires
        near.len() <= usize::MAX,
    ensures
        forall|a: usize, b: usize|
            a < near.len() && b < near.len() && #[trigger] linked(walled_graph(corners, near), a, b)
                ==> {
                &&& a != b
                &&& linked(walled_graph(corners, near), b, a)
                &&& linked(near, a, b)
                &&& common(corners[a as int], corners[b as int]).len() >= 2
                &&& common(corners[b as int], corners[a as int]).len() >= 2
            },
{
    let graph = walled_graph(corners, near);
    assert forall|a: usize, b: usize|
        a < near.len() && b < near.len() && #[trigger] linked(graph, a, b) implies {
        &&& a != b
        &&& linked(graph, b, a)
        &&& linked(near, a, b)
        &&& common(corners[a as int], corners[b as int]).len() >= 2
        &&& common(corners[b as int], corners[a as int]).len() >= 2
    } by {
        lemma_walled(corners, near, a, b);
        lemma_walled(corners, near, b, a);
        lemma_common_is_mutual(corners[b as int], corners[a as int]);
    }
}

/// Puts a diagram together. `near[i]` lists the cells whose unclipped regions touch
/// that of cell `i`. Only those that list it back and share a wall with it are kept,
/// so that adjacency is mutual and every two neighbours have a wall between them.
pub fn assemble(
    sites: Vec<PointBits>,
    vertices: Vec<PointBits>,
    corners: Vec<Vec<usize>>,
    near: &Vec<Vec<usize>>,
) -> (diagram: Diagram)
    requires
        corners@.len() == sites@.len(),
        near@.len() == sites@.len(),
        within(lists(corners@), vertices@.len()),
        within(lists(near@), sites@.len()),
    ensures
        diagram.sites == sites,
        diagram.vertices == vertices,
        diagram.cell_vertex_indices == corners,
        diagram.graph() == walled_graph(lists(corners@), lists(near@)),
        diagram.meshed(),
        diagram.walled(),
{
    let ghost rows = lists(corners@);
    let mut cell_vertices: Vec<Vec<PointBits>> = Vec::new();
    let mut neighbors: Vec<Vec<usize>> = Vec::new();
    let mut i: usize = 0;
    while i < corners.len()
        invariant
            i <= corners@.len(),
            rows == lists(corners@),
            corners@.len() == sites@.len(),
            near@.len() == sites@.len(),
            within(rows, vertices@.len()),
            within(lists(near@), sites@.len()),
            cell_vertices@.len() == i,
            neighbors@.len() == i,
            forall|c: int|
                0 <= c < i ==> (#[trigger] cell_vertices@[c])@ == polygons(rows, vertices@)[c],
            forall|c: int|
                0 <= c < i ==> (#[trigger] neighbors@[c])@ == adjoining(rows, lists(near@), c),
        decreases corners@.len() - i,
    {
        let row = &corners[i];
        assert(rows[i as int] == row@);
        let mut polygon: Vec<PointBits> = Vec::new();
        let mut k: usize = 0;
        while k < row.len()
            invariant
                k <= row@.len(),
                i < rows.len(),
                rows[i as int] == row@,
                within(rows, vertices@.len()),
                polygon@.len() == k,
                forall|c: int| 0 <= c < k ==> #[trigger] polygon@[c] == vertices@[row@[c] as int],
            decreases row@.len() - k,
        {
            assert(rows[i as int][k as int] < vertices@.len());
            polygon.push(vertices[row[k]]);
            k += 1;
        }
        assert(polygon@ =~= polygons(rows, vertices@)[i as int]);
        neighbors.push(adjoining_cells(&corners, near, i));
        cell_vertices.push(polygon);
        i += 1;
    }
    assert(near@.len() == near.len());
    let diagram = Diagram { sites, cell_vertices, cell_vertex_indices: corners, vertices, neighbors };
    proof {
        let graph = walled_graph(rows, lists(near@));
        assert(diagram.graph() =~= graph);
        assert(lists(diagram.cell_vertices@) =~= polygons(rows, vertices@));
        assert forall|c: int, k: int|
            0 <= c < graph.len() && 0 <= k < graph[c].len() implies (#[trigger] graph[c][k])
            < graph.len() by {
            let row = lists(near@)[c];
            let meets = |j: usize| adjoin(rows, lists(near@), c, j as int);
            lemma_filter(row, meets);
            assert(row.filter(meets).contains(graph[c][k]));
            assert(row.contains(graph[c][k]));
            let m = choose|m: int| 0 <= m < row.len() && row[m] == graph[c][k];
            assert(lists(near@)[c][m] < sites@.len());
        }
        law_adjacency_is_mutual(rows, lists(near@));
        assert(diagram.corners() == rows);
    }
    diagram
}

/// The diagram of the sites, out of their tessellation. There is none where the
/// tessellation is not one of these sites: a site that lies outside the box that cells
/// are clipped to has no cell.
pub fn build(sites: Vec<PointBits>, voronoi: &Voronoi) -> (r: Option<Diagram>)
    ensures
        r is Some <==> same_points(
            sites@,
            site_points(*voronoi).map_values(|p: Point| rounded(p)),
        ),
        r matches Some(diagram) ==> {
            &&& diagram.sites == sites
            &&& same_points(
                diagram.vertices@,
                corner_points(*voronoi).map_values(|p: Point| rounded(p)),
            )
            &&& diagram.corners() == cell_corners(*voronoi)
            &&& diagram.graph() == walled_graph(
                cell_corners(*voronoi),
                Seq::new(sites@.len(), |i: int| cells_beside(*voronoi, i as usize)),
            )
            &&& diagram.meshed()
            &&& diagram.walled()
        },
{
    let n = sites.len();
    let placed = round_all(&site_list(voronoi));
    let ghost meant = site_points(*voronoi).map_values(|p: Point| rounded(p));
    let fits = are_same_points(&sites, &placed);
    proof {
        if same_points(sites@, placed@) {
            assert forall|i: int| 0 <= i < sites@.len() implies same_point(
                #[trigger] sites@[i],
                meant[i],
            ) by {
                assert(same_point(placed@[i], meant[i]));
            }
        }
        if same_points(sites@, meant) {
            assert forall|i: int| 0 <= i < sites@.len() implies same_point(
                #[trigger] sites@[i],
                placed@[i],
            ) by {
                assert(same_point(placed@[i], meant[i]));
            }
        }
    }
    if !fits {
        return None;
    }
    let corners = corner_lists(voronoi);
    assert(lists(corners@).len() == corners@.len());
    let vertices = round_all(&corner_list(voronoi));
    let mut near: Vec<Vec<usize>> = Vec::new();
    let mut i: usize = 0;
    while i < n
        invariant
            i <= n,
            n == cell_corners(*voronoi).len(),
            near@.len() == i,
            within(lists(near@), n as nat),
            forall|c: int|
                0 <= c < i ==> (#[trigger] near@[c])@ == cells_beside(*voronoi, c as usize),
        decreases n - i,
    {
        let row = neighbor_list(voronoi, i);
        let ghost before = near@;
        near.push(row);
        proof {
            assert forall|c: int, k: int|
                0 <= c < near@.len() && 0 <= k < lists(near@)[c].len() implies (
            #[trigger] lists(near@)[c][k]) < n by {
                if c < i {
                    assert(lists(before)[c][k] == lists(near@)[c][k]);
                } else {
                    assert(row@[k] < n);
                }
            }
        }
        i += 1;
    }
    assert(lists(near@) =~= Seq::new(
        sites@.len(),
        |i: int| cells_beside(*voronoi, i as usize),
    ));
    Some(assemble(sites, vertices, corners, &near))
}

/// The two ends of the wall that cells `a` and `b` share; none if they have fewer
/// than two corners in common.
pub open spec fn wall(diagram: &Diagram, a: int, b: int) -> Option<[PointBits; 2]> {
    let shared = common(diagram.corners()[a], diagram.corners()[b]);
    if shared.len() < 2 {
        None
    } else {
        Some([diagram.vertices@[shared[0] as int], diagram.vertices@[shared[1] as int]])
    }
}

/// Finds the two ends of the wall that cells `a` and `b` share.
pub fn shared_wall(diagram: &Diagram, a: usize, b: usize) -> (r: Option<[PointBits; 2]>)
    requires
        a < diagram.cell_vertex_indices@.len(),
        b < diagram.cell_vertex_indices@.len(),
        within(diagram.corners(), diagram.vertices@.len()),
    ensures
        match r {
            None => wall(diagram, a as int, b as int) is None,
            Some(ends) => wall(diagram, a as int, b as int) is Some && ends@ == wall(
                diagram,
                a as int,
                b as int,
            )->Some_0@,
        },
{
    let set = members(&diagram.cell_vertex_indices[b]);
    let row = &diagram.cell_vertex_indices[a];
    let shared = common_corners(row, &diagram.cell_vertex_indices[b], &set);
    assert(diagram.corners()[a as int] == row@);
    assert(diagram.corners()[b as int] == diagram.cell_vertex_indices@[b as int]@);
    if shared.len() < 2 {
        return None;
    }
    proof {
        lemma_common(row@, diagram.corners()[b as int]);
        assert forall|k: int| 0 <= k < shared@.len() implies (#[trigger] shared@[k])
            < diagram.vertices@.len() by {
            assert(shared@.contains(shared@[k]));
            let m = choose|m: int| 0 <= m < row@.len() && row@[m] == shared@[k];
            assert(diagram.corners()[a as int][m] < diagram.vertices@.len());
        }
    }
    Some([diagram.vertices[shared[0]], diagram.vertices[shared[1]]])
}

} // verus!
