//! The generation of maps.
//!
//! Points are sampled at a distance from each other ([`poisson`]) and turned into a
//! diagram of cells ([`voronoi`]). The cells are banded by column, and each stage of
//! the layout is picked out of its band ([`selection`], [`picking`], [`ordering`])
//! so that all of the stage before can go on ([`reach`], [`crossing`]). Corridors are
//! then stretched to the wanted lengths ([`waypoints`]), and the walls, cells and
//! routes are charted ([`charting`]). A seed on which this fails is followed by
//! another ([`attempts`]).
//!
//! What is here works on indices, on the order of coordinates and on coordinates as
//! bits; distances, angles and random lengths are for the caller to compute.

pub mod attempts;
pub mod charting;
pub mod crossing;
pub mod ordering;
pub mod picking;
pub mod poisson;
pub mod reach;
pub mod selection;
pub mod voronoi;
pub mod waypoints;

pub use crate::generation::attempts::generate;

use crate::generation::charting::{all_below, below};
use crate::generation::crossing::Route;
use crate::generation::selection::Chosen;
use crate::generation::voronoi::lists;
use crate::geometry::PointBits;
use vstd::prelude::*;

verus! {

/// Why no map could be made.
#[derive(Clone, Copy, Debug, PartialEq, Eq, Structural)]
pub enum GenerationError {
    /// The layout has fewer than two stages.
    LayoutTooShort,
    /// The points have no Voronoi diagram.
    Voronoi,
    /// No seed satisfied the layout in this many attempts.
    Unsatisfiable(u32),
}

/// A map: all cells and walls of its diagram, and the stops and routes among them.
pub struct Generated {
    /// Width and height of the visible region.
    pub size: PointBits,
    /// Every cell of the diagram.
    pub cells: Vec<CellData>,
    /// The walls, each pair of cells once, as indices into `cells`. Neighbours whose
    /// wall was clipped away have none.
    pub edges: Vec<EdgeData>,
    /// `levels[stage][index]` is the cell of a stop.
    pub levels: Vec<Vec<usize>>,
    /// Where within its cell each stop lies. Same shape as `levels`.
    pub level_jitters: Vec<Vec<PointBits>>,
    /// `connections[stage][index]` lists the routes from a stop to the next stage.
    pub connections: Vec<Vec<Vec<PathRoute>>>,
    /// The angle by which the map was turned, as the bits of a number.
    pub rotation: u32,
    /// What was subtracted from every y after that, as the bits of a number.
    pub y_offset: u32,
    /// The seed that made the map.
    pub seed: u64,
    /// The seed that was asked for.
    pub requested_seed: u64,
}

/// A cell of a map.
pub struct CellData {
    /// Its site, which is where its node lies by default.
    pub site: PointBits,
    /// Its polygon.
    pub vertices: Vec<PointBits>,
}

/// The wall between two cells.
#[derive(Clone, Copy)]
pub struct EdgeData {
    /// The two cells, the lower index first.
    pub cells: (usize, usize),
    /// The ends of the wall.
    pub wall: [PointBits; 2],
}

/// A route from a stop to a stop of the next stage.
pub struct PathRoute {
    /// The index of its target within the next stage.
    pub target_in_next: usize,
    /// The cells that it walks through, without its ends.
    pub intermediate_cells: Vec<usize>,
}

impl PathRoute {
    /// The route as values.
    pub open spec fn route(&self) -> Route {
        (self.target_in_next, self.intermediate_cells@)
    }
}

/// The routes of all stages as values.
pub open spec fn routes_of(v: Seq<Vec<Vec<PathRoute>>>) -> Seq<Seq<Seq<Route>>> {
    v.map_values(
        |stage: Vec<Vec<PathRoute>>|
            stage@.map_values(
                |row: Vec<PathRoute>| row@.map_values(|r: PathRoute| r.route()),
            ),
    )
}

impl Generated {
    /// The stops and routes as values.
    pub open spec fn chosen(&self) -> Chosen {
        Chosen { levels: lists(self.levels@), connections: routes_of(self.connections@) }
    }

    /// The pairs of cells that a wall lies between.
    pub open spec fn pairs(&self) -> Seq<(usize, usize)> {
        self.edges@.map_values(|e: EdgeData| e.cells)
    }

    /// Every index is one of a cell or a stop, each stop has a position, and there is
    /// an entry stop.
    pub open spec fn wf(&self) -> bool {
        &&& self.chosen().addressed(self.cells@.len())
        &&& self.levels@[0]@.len() > 0
        &&& self.level_jitters@.len() == self.levels@.len()
        &&& forall|s: int|
            0 <= s < self.levels@.len() ==> (#[trigger] self.level_jitters@[s])@.len()
                == self.levels@[s]@.len()
        &&& forall|e: int|
            0 <= e < self.edges@.len() ==> (#[trigger] self.edges@[e]).cells.0 < self.cells@.len()
                && self.edges@[e].cells.1 < self.cells@.len()
        &&& forall|s: int, i: int, k: int, x: int|
            #![trigger self.chosen().route(s, i, k).1[x]]
            self.chosen().has_route(s, i, k) && 0 <= x < self.chosen().route(s, i, k).1.len()
                ==> self.chosen().route(s, i, k).1[x] < self.cells@.len()
    }
}

/// A route names a stop of the next stage, and leads through cells.
spec fn route_in_place(g: &Generated, s: int, i: int, k: int) -> bool {
    &&& g.chosen().route(s, i, k).0 < g.chosen().levels[s + 1].len()
    &&& below(g.chosen().route(s, i, k).1, g.cells@.len())
}

impl Generated {
    /// Whether every index is one of a cell or a stop, each stop has a position, and
    /// there is an entry stop.
    pub fn is_consistent(&self) -> (r: bool)
        ensures
            r == self.wf(),
    {
        let ghost chosen = self.chosen();
        let cells = self.cells.len();
        let stages = self.connections.len();
        proof {
            assert(self.levels@.len() == self.levels.len());
            assert(self.connections@.len() == self.connections.len());
        }
        if self.levels.len() == 0 || self.levels.len() - 1 != stages || self.levels[0].len() == 0
            || self.level_jitters.len() != self.levels.len() {
            return false;
        }
        if !self.stops_in_place() || !self.edges_in_place() {
            return false;
        }
        let mut s: usize = 0;
        while s < stages
            invariant
                s <= stages,
                chosen == self.chosen(),
                cells == self.cells@.len(),
                stages == self.connections@.len(),
                self.levels@.len() == stages + 1,
                forall|t: int|
                    0 <= t < s ==> (#[trigger] chosen.connections[t]).len()
                        == chosen.levels[t].len(),
                forall|t: int, i: int, k: int| #[trigger]
                    chosen.has_route(t, i, k) && t < s ==> route_in_place(self, t, i, k),
            decreases stages - s,
        {
            assert(chosen.levels[s as int] == self.levels@[s as int]@);
            if self.connections[s].len() != self.levels[s].len() {
                assert(chosen.connections[s as int].len() != chosen.levels[s as int].len());
                return false;
            }
            if !self.routes_in_place(s) {
                return false;
            }
            s += 1;
        }
        proof {
            assert forall|t: int, i: int, k: int| #[trigger]
                chosen.has_route(t, i, k) implies route_in_place(self, t, i, k) by {}
            assert forall|t: int, i: int, k: int, x: int|
                #![trigger chosen.route(t, i, k).1[x]]
                chosen.has_route(t, i, k) && 0 <= x
                    < chosen.route(t, i, k).1.len() implies chosen.route(t, i, k).1[x]
                < cells by {
                assert(route_in_place(self, t, i, k));
            }
        }
        true
    }

    /// Whether the stops are cells, and each has a position.
    fn stops_in_place(&self) -> (r: bool)
        requires
            self.level_jitters@.len() == self.levels@.len(),
        ensures
            r ==> forall|s: int|
                0 <= s < self.levels@.len() ==> (#[trigger] self.level_jitters@[s])@.len()
                    == self.levels@[s]@.len(),
            r ==> forall|s: int, i: int|
                0 <= s < self.levels@.len() && 0 <= i < self.chosen().levels[s].len() ==> (
                #[trigger] self.chosen().levels[s][i]) < self.cells@.len(),
            !r ==> !self.wf(),
    {
        let ghost chosen = self.chosen();
        let mut s: usize = 0;
        while s < self.levels.len()
            invariant
                s <= self.levels@.len(),
                chosen == self.chosen(),
                self.level_jitters@.len() == self.levels@.len(),
                forall|t: int|
                    0 <= t < s ==> (#[trigger] self.level_jitters@[t])@.len()
                        == self.levels@[t]@.len(),
                forall|t: int, i: int|
                    0 <= t < s && 0 <= i < chosen.levels[t].len() ==> (
                    #[trigger] chosen.levels[t][i]) < self.cells@.len(),
            decreases self.levels@.len() - s,
        {
            assert(chosen.levels[s as int] == self.levels@[s as int]@);
            if self.level_jitters[s].len() != self.levels[s].len() {
                assert(self.level_jitters@[s as int]@.len() != self.levels@[s as int]@.len());
                return false;
            }
            if !all_below(&self.levels[s], self.cells.len()) {
                proof {
                    let row = chosen.levels[s as int];
                    let x = choose|x: int|
                        0 <= x < row.len() && !((#[trigger] row[x]) < self.cells@.len());
                    assert(chosen.levels[s as int][x] >= self.cells@.len());
                }
                return false;
            }
            s += 1;
        }
        true
    }

    /// Whether the edges lie between cells.
    fn edges_in_place(&self) -> (r: bool)
        ensures
            r ==> forall|e: int|
                0 <= e < self.edges@.len() ==> (#[trigger] self.edges@[e]).cells.0
                    < self.cells@.len() && self.edges@[e].cells.1 < self.cells@.len(),
            !r ==> !self.wf(),
    {
        let mut e: usize = 0;
        while e < self.edges.len()
            invariant
                e <= self.edges@.len(),
                forall|f: int|
                    0 <= f < e ==> (#[trigger] self.edges@[f]).cells.0 < self.cells@.len()
                        && self.edges@[f].cells.1 < self.cells@.len(),
            decreases self.edges@.len() - e,
        {
            let (a, b) = self.edges[e].cells;
            if a >= self.cells.len() || b >= self.cells.len() {
                assert(self.edges@[e as int].cells == (a, b));
                return false;
            }
            e += 1;
        }
        true
    }

    /// Whether the routes of a stage are in place.
    fn routes_in_place(&self, s: usize) -> (r: bool)
        requires
            s < self.connections@.len(),
            self.levels@.len() == self.connections@.len() + 1,
        ensures
            r ==> forall|i: int, k: int| #[trigger]
                self.chosen().has_route(s as int, i, k) ==> route_in_place(self, s as int, i, k),
            !r ==> !self.wf(),
    {
        let ghost chosen = self.chosen();
        let cells = self.cells.len();
        let stage = &self.connections[s];
        proof {
            assert(self.levels@.len() == self.levels.len());
            assert(chosen.levels[s + 1] == self.levels@[s + 1]@);
        }
        let next = self.levels[s + 1].len();
        let mut i: usize = 0;
        while i < stage.len()
            invariant
                i <= stage@.len(),
                chosen == self.chosen(),
                cells == self.cells@.len(),
                s < self.connections@.len(),
                stage == self.connections@[s as int],
                next == chosen.levels[s + 1].len(),
                forall|j: int, k: int| #[trigger]
                    chosen.has_route(s as int, j, k) && j < i ==> route_in_place(
                        self,
                        s as int,
                        j,
                        k,
                    ),
            decreases stage@.len() - i,
        {
            let row = &stage[i];
            let mut k: usize = 0;
            while k < row.len()
                invariant
                    k <= row@.len(),
                    chosen == self.chosen(),
                    cells == self.cells@.len(),
                    s < self.connections@.len(),
                    stage == self.connections@[s as int],
                    i < stage@.len(),
                    row == stage@[i as int],
                    next == chosen.levels[s + 1].len(),
                    forall|l: int| #[trigger]
                        chosen.has_route(s as int, i as int, l) && l < k ==> route_in_place(
                            self,
                            s as int,
                            i as int,
                            l,
                        ),
                decreases row@.len() - k,
            {
                let route = &row[k];
                proof {
                    assert(chosen.has_route(s as int, i as int, k as int));
                    assert(chosen.route(s as int, i as int, k as int) == route.route());
                }
                if route.target_in_next >= next || !all_below(&route.intermediate_cells, cells) {
                    proof {
                        if route.target_in_next < next {
                            let path = route.intermediate_cells@;
                            let x = choose|x: int|
                                0 <= x < path.len() && !((#[trigger] path[x]) < cells);
                            assert(chosen.route(s as int, i as int, k as int).1[x] >= cells);
                        }
                    }
                    return false;
                }
                assert(route_in_place(self, s as int, i as int, k as int));
                k += 1;
            }
            assert(chosen.connections[s as int][i as int].len() == row@.len());
            i += 1;
        }
        assert(chosen.connections[s as int].len() == stage@.len());
        true
    }
}

} // verus!
