//! Picks the cells of a diagram that match a layout.
//!
//! The cells are banded by column, one band for each stage. A stage is picked out
//! of the cells of its band that the previous stage reaches, so that every cell of
//! the previous stage gets a successor.

use crate::generation::crossing::{ahead, arrival_lists, Candidates, Crossing, Route};
use crate::generation::ordering::{key_in, lemma_sort_by, sort_by, sort_by_key, sorted_by};
use crate::generation::picking::{band, build_bands, lemma_band};
use crate::generation::reach::{
    arrivals, law_reached_is_shortest, law_reached_repeats_no_cell, reach_into_band, reached, Terrain,
};
use crate::generation::voronoi::{lists, Diagram};
use crate::geometry::{order_key, order_of};
use crate::graph::{chain, in_range, is_walk};
use crate::rng::{draw_index, drawn_index, past_index};
use crate::sequences::lemma_filter;
use crate::spacing::{
    even_slot, law_slots_increase, law_slots_never_decrease, slot, well_apart,
};
use rand::rngs::StdRng;
use std::collections::HashSet;
use vstd::prelude::*;

pub mod stages;

verus! {

/// The outcome of the selection.
pub struct Selection {
    /// `levels[stage][index]` is a cell of the diagram.
    pub levels: Vec<Vec<usize>>,
    /// `connections[stage][index]` lists the connections of that cell: the index of
    /// the target in the next stage, and the cells between the two.
    pub connections: Vec<Vec<Vec<(usize, Vec<usize>)>>>,
}

/// Why no selection could be made.
#[derive(Debug, Clone, Copy, PartialEq, Eq, Structural)]
pub enum SelectionError {
    /// The layout has fewer than two stages.
    LayoutTooShort,
    /// The band of this stage has too few cells to pick from: none at all, or, for the
    /// entry stage, fewer than the layout asks for.
    EmptyBand(usize),
    /// The cell `level` of one stage cannot be connected to the next stage.
    Unconnectable { from_stage: usize, to_stage: usize, level: usize },
}

/// Corridor lengths to aim for: the average asked for, and one length for each
/// cell of each stage but the last.
pub struct DesiredLengths {
    pub average: u8,
    pub lengths: Vec<Vec<usize>>,
}

/// The connections of all stages.
pub open spec fn route_lists(v: Seq<Vec<Vec<(usize, Vec<usize>)>>>) -> Seq<Seq<Seq<Route>>> {
    v.map_values(|stage: Vec<Vec<(usize, Vec<usize>)>>| arrival_lists(stage@))
}

/// A selection as values.
pub struct Chosen {
    pub levels: Seq<Seq<usize>>,
    pub connections: Seq<Seq<Seq<Route>>>,
}

impl View for Selection {
    type V = Chosen;

    open spec fn view(&self) -> Chosen {
        Chosen { levels: lists(self.levels@), connections: route_lists(self.connections@) }
    }
}

/// Everything that a selection is made from, but for the entry cells.
pub struct Plan {
    pub graph: Seq<Seq<usize>>,
    pub heights: Seq<i128>,
    pub bins: Seq<Option<usize>>,
    pub layout: Seq<u32>,
    pub max: nat,
    pub lengths: Option<Seq<Seq<usize>>>,
}

/// A selection in the making, with the cells that are taken.
pub struct Progress {
    pub chosen: Chosen,
    pub used: Set<usize>,
}

/// The cells between the ends of some connection.
pub open spec fn walked(links: Seq<Seq<Route>>) -> Set<usize> {
    Set::new(
        |c: usize|
            exists|i: int, k: int|
                0 <= i < links.len() && 0 <= k < links[i].len() && (
                #[trigger] links[i][k]).1.contains(c),
    )
}

/// The integers by which the cells of a diagram are ordered from one side to the
/// other.
pub open spec fn heights(diagram: &Diagram) -> Seq<i128> {
    diagram.sites@.map_values(|p: crate::geometry::PointBits| order_of(p.y) as i128)
}

/// The most cells that a corridor may hold.
pub open spec fn budget(allow_extra_traversal: u32, desired: Option<&DesiredLengths>) -> nat {
    match desired {
        None => allow_extra_traversal as nat,
        Some(d) => if allow_extra_traversal > 2 * d.average + 1 {
            allow_extra_traversal as nat
        } else {
            (2 * d.average + 1) as nat
        },
    }
}

/// The plan that the arguments of [`select`] make up.
pub open spec fn plan(
    diagram: &Diagram,
    layout: Seq<u32>,
    bins: Seq<Option<usize>>,
    allow_extra_traversal: u32,
    desired: Option<&DesiredLengths>,
) -> Plan {
    Plan {
        graph: diagram.graph(),
        heights: heights(diagram),
        bins,
        layout,
        max: budget(allow_extra_traversal, desired),
        lengths: match desired {
            None => None,
            Some(d) => Some(lists(d.lengths@)),
        },
    }
}

impl Plan {
    /// The cells of the band of a stage.
    pub open spec fn band(self, stage: int) -> Seq<usize> {
        band(self.bins, self.layout.len(), stage)
    }

    /// The first empty band is `b`.
    pub open spec fn first_empty(self, b: int) -> bool {
        &&& 0 <= b < self.layout.len()
        &&& self.band(b).len() == 0
        &&& forall|j: int| 0 <= j < b ==> #[trigger] self.band(j).len() > 0
    }

    /// Every stage has a band with cells in it, and that of the entry stage has
    /// enough of them.
    pub open spec fn banded(self) -> bool {
        &&& forall|j: int| 0 <= j < self.layout.len() ==> #[trigger] self.band(j).len() > 0
        &&& self.layout[0] <= self.band(0).len()
    }

    /// Every stage has a band with cells in it, but that of the entry stage has not
    /// enough of them.
    pub open spec fn short_of_entries(self) -> bool {
        &&& forall|j: int| 0 <= j < self.layout.len() ==> #[trigger] self.band(j).len() > 0
        &&& self.layout[0] > self.band(0).len()
    }

    /// Where the search for the cells of a stage goes.
    pub open spec fn terrain(self, stage: int, used: Set<usize>) -> Terrain {
        Terrain { graph: self.graph, band: self.band(stage).to_set(), used, max: self.max }
    }

    /// What a stage is picked from.
    pub open spec fn crossing(self, stage: int, prev: Seq<usize>, used: Set<usize>) -> Crossing {
        Crossing {
            reach: prev.map_values(|c: usize| reached(self.terrain(stage, used), c)),
            forward: ahead(
                self.graph,
                if stage + 1 < self.layout.len() {
                    Some(self.band(stage + 1).to_set())
                } else {
                    None
                },
            ),
            wanted: match self.lengths {
                None => None,
                Some(lengths) => Some(lengths[stage - 1]),
            },
            heights: self.heights,
        }
    }

    /// The entry cells alone.
    pub open spec fn begin(self, entry: Seq<usize>) -> Progress {
        Progress {
            chosen: Chosen { levels: seq![entry], connections: Seq::empty() },
            used: entry.to_set(),
        }
    }

    /// The selection with one stage more.
    pub open spec fn advance(self, p: Progress) -> Result<Progress, SelectionError> {
        let stage = p.chosen.levels.len() as int;
        match self.crossing(stage, p.chosen.levels.last(), p.used).outcome(
            self.layout[stage] as nat,
        ) {
            Err(level) => Err(
                SelectionError::Unconnectable {
                    from_stage: (stage - 1) as usize,
                    to_stage: stage as usize,
                    level,
                },
            ),
            Ok((picks, links)) => Ok(
                Progress {
                    chosen: Chosen {
                        levels: p.chosen.levels.push(picks),
                        connections: p.chosen.connections.push(links),
                    },
                    used: p.used.union(picks.to_set()).union(walked(links)),
                },
            ),
        }
    }

    /// The selection of the first `stages` stages.
    pub open spec fn stages(self, entry: Seq<usize>, stages: nat) -> Result<
        Progress,
        SelectionError,
    >
        decreases stages,
    {
        if stages <= 1 {
            Ok(self.begin(entry))
        } else {
            match self.stages(entry, (stages - 1) as nat) {
                Err(e) => Err(e),
                Ok(p) => self.advance(p),
            }
        }
    }

    /// What keeps any selection from being made.
    pub open spec fn obstacle(self, e: SelectionError) -> bool {
        match e {
            SelectionError::LayoutTooShort => self.layout.len() < 2,
            SelectionError::EmptyBand(b) => self.layout.len() >= 2 && (self.first_empty(b as int)
                || (b == 0 && self.short_of_entries())),
            _ => false,
        }
    }

    /// The entry cells are picked out of these: the cells of the first band that
    /// touch the second one, if there are enough of them, in the order of their
    /// heights.
    pub open spec fn entry_cells(self) -> Seq<usize> {
        let near = ahead(self.graph, Some(self.band(1).to_set()));
        let touching = self.band(0).filter(|c: usize| near.contains(c));
        sort_by(
            if touching.len() >= self.layout[0] {
                touching
            } else {
                self.band(0)
            },
            key_in(self.heights),
        )
    }
}

/// `n` cells of `sorted`: all of them if there are not more; one near the middle,
/// `jitter` places off, if one is wanted; else evenly spaced ones.
pub open spec fn even_picks(sorted: Seq<usize>, n: nat, jitter: nat) -> Seq<usize> {
    let len = sorted.len();
    if n == 1 {
        let mid = len as int / 2 + jitter;
        seq![
            sorted[if mid < len {
                mid
            } else {
                len - 1
            }],
        ]
    } else if n >= len {
        sorted
    } else {
        Seq::new(n, |k: int| sorted[slot(k as nat, n, len) as int])
    }
}

/// A single pick is jittered if there is room for it.
pub open spec fn jitters(n: nat, len: nat) -> bool {
    n == 1 && len > 2
}

/// Picks `n` cells of `sorted`, which is not empty if one is wanted.
pub fn pick_evenly(sorted: &Vec<usize>, n: usize, jitter: usize) -> (out: Vec<usize>)
    requires
        n == 1 ==> sorted@.len() > 0,
    ensures
        out@ == even_picks(sorted@, n as nat, jitter as nat),
{
    let len = sorted.len();
    let mut out: Vec<usize> = Vec::new();
    if n == 1 {
        let half = len / 2;
        let mid: usize = if jitter < len - half {
            half + jitter
        } else {
            len - 1
        };
        out.push(sorted[mid]);
        assert(out@ =~= even_picks(sorted@, n as nat, jitter as nat));
        return out;
    }
    if n >= len {
        let out = sorted.clone();
        assert(out@ =~= sorted@);
        return out;
    }
    let mut k: usize = 0;
    while k < n
        invariant
            k <= n,
            n < len,
            len == sorted@.len(),
            out@ == Seq::new(k as nat, |k: int| sorted@[slot(k as nat, n as nat, len as nat) as int]),
        decreases n - k,
    {
        let at = even_slot(k, n, len);
        out.push(sorted[at]);
        k += 1;
        assert(out@ =~= Seq::new(
            k as nat,
            |k: int| sorted@[slot(k as nat, n as nat, len as nat) as int],
        ));
    }
    out
}

/// Picks `n` cells of `sorted`. The place of a single pick is drawn from `rng`.
pub fn pick_evenly_in_y_indices(sorted: &Vec<usize>, n: usize, rng: &mut StdRng) -> (out: Vec<usize>)
    requires
        n == 1 ==> sorted@.len() > 0,
    ensures
        out@ == even_picks(
            sorted@,
            n as nat,
            if jitters(n as nat, sorted@.len()) {
                drawn_index(*old(rng), 3) as nat
            } else {
                0
            },
        ),
        *final(rng) == if jitters(n as nat, sorted@.len()) {
            past_index(*old(rng), 3)
        } else {
            *old(rng)
        },
{
    let jitter: usize = if n == 1 && sorted.len() > 2 {
        draw_index(rng, 3)
    } else {
        0
    };
    pick_evenly(sorted, n, jitter)
}

/// The order of the cells by height, as integers.
fn height_keys(diagram: &Diagram) -> (keys: Vec<i128>)
    requires
        diagram.wf(),
    ensures
        keys@ == heights(diagram),
{
    let mut keys: Vec<i128> = Vec::new();
    let mut c: usize = 0;
    while c < diagram.sites.len()
        invariant
            c <= diagram.sites@.len(),
            keys@ == heights(diagram).take(c as int),
        decreases diagram.sites@.len() - c,
    {
        keys.push(order_key(diagram.sites[c].y));
        c += 1;
        assert(keys@ =~= heights(diagram).take(c as int));
    }
    assert(keys@ =~= heights(diagram));
    keys
}

/// The cells of a list as a set.
fn members_of(cells: &Vec<usize>) -> (set: HashSet<usize>)
    ensures
        set@ == cells@.to_set(),
{
    broadcast use vstd::std_specs::hash::group_hash_axioms;

    let mut set: HashSet<usize> = HashSet::new();
    let mut i: usize = 0;
    assert(set@ =~= cells@.take(0).to_set());
    while i < cells.len()
        invariant
            i <= cells@.len(),
            set@ == cells@.take(i as int).to_set(),
        decreases cells@.len() - i,
    {
        broadcast use vstd::std_specs::hash::group_hash_axioms;

        set.insert(cells[i]);
        proof {
            cells@.take(i as int).lemma_push_to_set_commute(cells@[i as int]);
            assert(cells@.take(i + 1) =~= cells@.take(i as int).push(cells@[i as int]));
        }
        i += 1;
    }
    assert(cells@.take(cells@.len() as int) =~= cells@);
    set
}

/// The bands of a layout, or what is wrong with them.
fn usable_bands(layout: &Vec<u32>, bins: &Vec<Option<usize>>, Ghost(plan): Ghost<Plan>) -> (r: Result<
    Vec<Vec<usize>>,
    SelectionError,
>)
    requires
        plan.layout == layout@,
        plan.bins == bins@,
    ensures
        match r {
            Err(e) => plan.obstacle(e),
            Ok(bands) => {
                &&& layout@.len() >= 2
                &&& plan.banded()
                &&& lists(bands@) == Seq::new(layout@.len(), |b: int| plan.band(b))
            },
        },
{
    if layout.len() < 2 {
        return Err(SelectionError::LayoutTooShort);
    }
    let bands = build_bands(bins, layout.len());
    let mut b: usize = 0;
    while b < bands.len()
        invariant
            layout@.len() >= 2,
            plan.layout == layout@,
            plan.bins == bins@,
            bands@.len() == layout@.len(),
            forall|j: int| 0 <= j < bands@.len() ==> (#[trigger] bands@[j])@ == plan.band(j),
            b <= bands@.len(),
            forall|j: int| 0 <= j < b ==> #[trigger] plan.band(j).len() > 0,
        decreases bands@.len() - b,
    {
        assert(bands@[b as int]@ == plan.band(b as int));
        if bands[b].len() == 0 {
            return Err(SelectionError::EmptyBand(b));
        }
        b += 1;
    }
    assert(bands@[0]@ == plan.band(0));
    if (layout[0] as usize) > bands[0].len() {
        return Err(SelectionError::EmptyBand(0));
    }
    assert(lists(bands@) =~= Seq::new(layout@.len(), |b: int| plan.band(b)));
    Ok(bands)
}

/// Picks the cells of the first stage, as many as the layout asks for. A cell that
/// touches the second band is preferred; a single cell is drawn from near the middle.
pub fn pick_entry(
    diagram: &Diagram,
    layout: &Vec<u32>,
    bins: &Vec<Option<usize>>,
    rng: &mut StdRng,
) -> (r: Result<Vec<usize>, SelectionError>)
    requires
        diagram.wf(),
        bins@.len() == diagram.neighbors@.len(),
    ensures
        ({
            let plan = plan(diagram, layout@, bins@, 0, None);
            match r {
                Err(e) => plan.obstacle(e) && *final(rng) == *old(rng),
                Ok(entry) => {
                    let sorted = plan.entry_cells();
                    let n = layout@[0] as nat;
                    &&& layout@.len() >= 2
                    &&& plan.banded()
                    &&& entry@ == even_picks(
                        sorted,
                        n,
                        if jitters(n, sorted.len()) {
                            drawn_index(*old(rng), 3) as nat
                        } else {
                            0
                        },
                    )
                    &&& *final(rng) == if jitters(n, sorted.len()) {
                        past_index(*old(rng), 3)
                    } else {
                        *old(rng)
                    }
                    &&& entry@.len() == n
                    &&& forall|i: int|
                        0 <= i < entry@.len() ==> (#[trigger] entry@[i]) < diagram.neighbors@.len()
                },
            }
        }),
{
    let ghost plan = plan(diagram, layout@, bins@, 0, None);
    let bands = match usable_bands(layout, bins, Ghost(plan)) {
        Err(e) => {
            return Err(e);
        },
        Ok(bands) => bands,
    };
    assert(lists(bands@).len() == bands@.len());
    let keys = height_keys(diagram);
    let first = &bands[0];
    let next = members_of(&bands[1]);
    proof {
        assert(lists(bands@)[0] == plan.band(0) && lists(bands@)[1] == plan.band(1));
        assert(bins@.len() == bins.len());
        lemma_band(plan.bins, plan.layout.len(), 0);
    }
    let nothing: Vec<Vec<(usize, Vec<usize>)>> = Vec::new();
    let around = Candidates {
        diagram,
        heights: &keys,
        reach: &nothing,
        next: Some(&next),
        wanted: None,
    };
    let ghost near = ahead(plan.graph, Some(plan.band(1).to_set()));
    let ghost keep = |c: usize| near.contains(c);
    let mut touching: Vec<usize> = Vec::new();
    reveal(Seq::filter);
    assert(first@.take(0).filter(keep) =~= Seq::<usize>::empty());
    let mut i: usize = 0;
    while i < first.len()
        invariant
            around.wf(),
            around@.forward == near,
            keep == (|c: usize| near.contains(c)),
            i <= first@.len(),
            forall|j: int| 0 <= j < first@.len() ==> (#[trigger] first@[j]) < keys@.len(),
            around.heights@ == keys@,
            touching@ == first@.take(i as int).filter(keep),
            forall|j: int| 0 <= j < touching@.len() ==> (#[trigger] touching@[j]) < keys@.len(),
        decreases first@.len() - i,
    {
        reveal(Seq::filter);
        assert(first@.take(i + 1).drop_last() =~= first@.take(i as int));
        let c = first[i];
        if around.is_forward(c) {
            touching.push(c);
        }
        i += 1;
    }
    assert(first@.take(first@.len() as int) =~= first@);
    let n: usize = layout[0] as usize;
    let enough = touching.len() >= n;
    let pool: &Vec<usize> = if enough {
        &touching
    } else {
        first
    };
    let sorted = sort_by_key(pool, &keys);
    proof {
        lemma_sort_by(pool@, key_in(keys@));
        assert forall|j: int| 0 <= j < sorted@.len() implies (#[trigger] sorted@[j])
            < keys@.len() by {
            assert(sorted@.contains(sorted@[j]));
            let i = choose|i: int| 0 <= i < pool@.len() && pool@[i] == sorted@[j];
            assert(pool@[i] < keys@.len());
        }
        assert(plan.band(0).len() > 0);
        assert(sorted@ == plan.entry_cells());
    }
    let entry = pick_evenly_in_y_indices(&sorted, n, rng);
    Ok(entry)
}

/// The lengths wanted suffice for every cell of every stage.
pub open spec fn lengths_suffice(desired: Option<&DesiredLengths>, layout: Seq<u32>) -> bool {
    desired matches Some(d) ==> {
        &&& d.lengths@.len() >= layout.len() - 1
        &&& forall|s: int|
            0 <= s < layout.len() - 1 ==> (#[trigger] d.lengths@[s])@.len() >= layout[s]
    }
}

impl Plan {
    /// What holds of a selection in the making: it has the shape that the layout
    /// asks for, and is made of cells of the graph.
    spec fn in_shape(self, p: Progress, entries: nat) -> bool {
        let levels = p.chosen.levels;
        &&& levels.len() > 0
        &&& p.chosen.connections.len() == levels.len() - 1
        &&& levels[0].len() == entries
        &&& forall|s: int| 0 < s < levels.len() ==> (#[trigger] levels[s]).len() == self.layout[s]
        &&& forall|s: int, i: int|
            0 <= s < levels.len() && 0 <= i < levels[s].len() ==> (#[trigger] levels[s][i])
                < self.graph.len()
    }
}

/// Searches the next band from each cell of the previous stage.
fn search_all(
    diagram: &Diagram,
    prev: &Vec<usize>,
    band: &HashSet<usize>,
    used: &HashSet<usize>,
    max: usize,
    Ghost(terrain): Ghost<Terrain>,
) -> (reach: Vec<Vec<(usize, Vec<usize>)>>)
    requires
        diagram.wf(),
        terrain == (Terrain {
            graph: diagram.graph(),
            band: band@,
            used: used@,
            max: max as nat,
        }),
        forall|i: int| 0 <= i < prev@.len() ==> (#[trigger] prev@[i]) < diagram.neighbors@.len(),
    ensures
        arrival_lists(reach@) == prev@.map_values(|c: usize| reached(terrain, c)),
        forall|i: int, k: int|
            0 <= i < reach@.len() && 0 <= k < reach@[i]@.len() ==> (#[trigger] reach@[i]@[k]).0
                < diagram.neighbors@.len(),
{
    let mut reach: Vec<Vec<(usize, Vec<usize>)>> = Vec::new();
    let ghost whole = prev@.map_values(|c: usize| reached(terrain, c));
    let mut i: usize = 0;
    assert(arrival_lists(reach@) =~= whole.take(0));
    while i < prev.len()
        invariant
            diagram.wf(),
            terrain == (Terrain {
                graph: diagram.graph(),
                band: band@,
                used: used@,
                max: max as nat,
            }),
            forall|i: int|
                0 <= i < prev@.len() ==> (#[trigger] prev@[i]) < diagram.neighbors@.len(),
            i <= prev@.len(),
            reach@.len() == i,
            whole == prev@.map_values(|c: usize| reached(terrain, c)),
            arrival_lists(reach@) == whole.take(i as int),
            forall|i: int, k: int|
                0 <= i < reach@.len() && 0 <= k < reach@[i]@.len() ==> (#[trigger] reach@[i]@[k]).0
                    < diagram.neighbors@.len(),
        decreases prev@.len() - i,
    {
        let start = prev[i];
        let found = reach_into_band(diagram, start, band, used, max);
        proof {
            assert(diagram.neighbors@.len() == diagram.neighbors.len());
            law_reached_is_shortest(terrain, start);
            assert forall|k: int| 0 <= k < found@.len() implies (#[trigger] found@[k]).0
                < diagram.neighbors@.len() by {
                let a = arrivals(found@)[k];
                assert(a == reached(terrain, start)[k]);
                assert(a.0 == found@[k].0);
                let whole = chain(start, a.1, a.0);
                assert(whole[whole.len() - 1] == a.0);
            }
        }
        let ghost before = reach@;
        reach.push(found);
        assert(arrival_lists(reach@) =~= arrival_lists(before).push(arrivals(found@)));
        i += 1;
        assert(arrival_lists(reach@) =~= whole.take(i as int));
    }
    assert(whole.take(prev@.len() as int) =~= whole);
    reach
}

/// Adds the cells of a stage and of the corridors to it to the cells that are
/// taken.
pub(crate) fn take_cells(used: &mut HashSet<usize>, picks: &Vec<usize>, links: &Vec<Vec<(usize, Vec<usize>)>>)
    ensures
        final(used)@ == old(used)@.union(picks@.to_set()).union(walked(arrival_lists(links@))),
{
    broadcast use vstd::std_specs::hash::group_hash_axioms;

    let ghost base = used@;
    let ghost routes = arrival_lists(links@);
    let mut i: usize = 0;
    assert(used@ =~= base.union(picks@.take(0).to_set()));
    while i < picks.len()
        invariant
            i <= picks@.len(),
            used@ == base.union(picks@.take(i as int).to_set()),
        decreases picks@.len() - i,
    {
        broadcast use vstd::std_specs::hash::group_hash_axioms;

        used.insert(picks[i]);
        proof {
            picks@.take(i as int).lemma_push_to_set_commute(picks@[i as int]);
            assert(picks@.take(i + 1) =~= picks@.take(i as int).push(picks@[i as int]));
        }
        i += 1;
        assert(used@ =~= base.union(picks@.take(i as int).to_set()));
    }
    assert(picks@.take(picks@.len() as int) =~= picks@);
    let ghost taken = used@;
    let mut i: usize = 0;
    while i < links.len()
        invariant
            i <= links@.len(),
            routes == arrival_lists(links@),
            forall|c: usize| #[trigger]
                used@.contains(c) <==> taken.contains(c) || exists|a: int, k: int|
                    0 <= a < i && 0 <= k < routes[a].len() && (
                    #[trigger] routes[a][k]).1.contains(c),
        decreases links@.len() - i,
    {
        let row = &links[i];
        let ghost upto = used@;
        assert(routes[i as int] == arrivals(row@));
        let mut k: usize = 0;
        while k < row.len()
            invariant
                k <= row@.len(),
                i < routes.len(),
                routes[i as int] == arrivals(row@),
                forall|c: usize| #[trigger]
                    used@.contains(c) <==> upto.contains(c) || exists|l: int|
                        0 <= l < k && (#[trigger] routes[i as int][l]).1.contains(c),
            decreases row@.len() - k,
        {
            let path = &row[k].1;
            let ghost so_far = used@;
            assert(routes[i as int][k as int].1 == path@);
            let mut j: usize = 0;
            while j < path.len()
                invariant
                    j <= path@.len(),
                    forall|c: usize| #[trigger]
                        used@.contains(c) <==> so_far.contains(c) || exists|l: int|
                            0 <= l < j && #[trigger] path@[l] == c,
                decreases path@.len() - j,
            {
                broadcast use vstd::std_specs::hash::group_hash_axioms;

                let ghost earlier = used@;
                used.insert(path[j]);
                j += 1;
                assert forall|c: usize| #[trigger] used@.contains(c) <==> so_far.contains(c)
                    || exists|l: int| 0 <= l < j && #[trigger] path@[l] == c by {
                    if c == path@[j - 1] {
                        assert(path@[j - 1] == c);
                    } else {
                        assert(used@.contains(c) == earlier.contains(c));
                    }
                }
            }
            k += 1;
            assert forall|c: usize| #[trigger] used@.contains(c) <==> upto.contains(c) || exists|
                l: int,
            | 0 <= l < k && (#[trigger] routes[i as int][l]).1.contains(c) by {
                if path@.contains(c) {
                    let l = choose|l: int| 0 <= l < path@.len() && path@[l] == c;
                    assert(path@[l] == c);
                    assert(routes[i as int][k - 1].1.contains(c));
                }
            }
        }
        i += 1;
        assert forall|c: usize| #[trigger] used@.contains(c) <==> taken.contains(c) || exists|
            a: int,
            k: int,
        |
            0 <= a < i && 0 <= k < routes[a].len() && (#[trigger] routes[a][k]).1.contains(c) by {
            if exists|l: int|
                0 <= l < row@.len() && (#[trigger] routes[i - 1][l]).1.contains(c) {
                let l = choose|l: int|
                    0 <= l < row@.len() && (#[trigger] routes[i - 1][l]).1.contains(c);
                assert(routes[i - 1][l].1.contains(c));
            }
            if exists|a: int, k: int|
                0 <= a < i && 0 <= k < routes[a].len() && (#[trigger] routes[a][k]).1.contains(
                    c,
                ) {
                let (a, k) = choose|a: int, k: int|
                    0 <= a < i && 0 <= k < routes[a].len() && (
                    #[trigger] routes[a][k]).1.contains(c);
                if a < i - 1 {
                    assert(upto.contains(c));
                }
            }
        }
    }
    assert(used@ =~= base.union(picks@.to_set()).union(walked(routes)));
}

/// Picks the cells of one stage and connects the previous one to them.
fn pick_stage(
    diagram: &Diagram,
    keys: &Vec<i128>,
    bands: &Vec<Vec<usize>>,
    prev: &Vec<usize>,
    used: &HashSet<usize>,
    max: usize,
    stage: usize,
    want: usize,
    wanted: Option<&Vec<usize>>,
    Ghost(plan): Ghost<Plan>,
) -> (r: Result<(Vec<usize>, Vec<Vec<(usize, Vec<usize>)>>), usize>)
    requires
        diagram.wf(),
        plan.graph == diagram.graph(),
        plan.heights == keys@,
        keys@.len() == diagram.neighbors@.len(),
        plan.max == max,
        lists(bands@) == Seq::new(plan.layout.len(), |b: int| plan.band(b)),
        1 <= stage < plan.layout.len(),
        forall|i: int| 0 <= i < prev@.len() ==> (#[trigger] prev@[i]) < diagram.neighbors@.len(),
        match wanted {
            None => plan.lengths is None,
            Some(w) => w@.len() >= prev@.len() && plan.lengths is Some && plan.lengths->Some_0[stage
                - 1] == w@,
        },
    ensures
        match r {
            Err(i) => plan.crossing(stage as int, prev@, used@).outcome(want as nat) == Err::<
                (Seq<usize>, Seq<Seq<Route>>),
                usize,
            >(i),
            Ok((picks, links)) => plan.crossing(stage as int, prev@, used@).outcome(want as nat)
                == Ok::<(Seq<usize>, Seq<Seq<Route>>), usize>((picks@, arrival_lists(links@))),
        },
{
    let ghost banded = Seq::new(plan.layout.len(), |b: int| plan.band(b));
    assert(lists(bands@).len() == bands@.len());
    assert(banded[stage as int] == bands@[stage as int]@);
    let band = members_of(&bands[stage]);
    let ghost terrain = plan.terrain(stage as int, used@);
    let reach = search_all(diagram, prev, &band, used, max, Ghost(terrain));
    let ahead_band: HashSet<usize>;
    let next: Option<&HashSet<usize>> = if stage < bands.len() - 1 {
        assert(banded[stage + 1] == bands@[stage + 1]@);
        ahead_band = members_of(&bands[stage + 1]);
        Some(&ahead_band)
    } else {
        None
    };
    let from = Candidates { diagram, heights: keys, reach: &reach, next, wanted };
    let ghost crossing = plan.crossing(stage as int, prev@, used@);
    proof {
        assert(arrival_lists(reach@).len() == reach@.len());
        assert(from@.reach =~= crossing.reach);
        assert(from@.wanted == crossing.wanted);
        assert(from@.forward == crossing.forward);
        assert(from@ == crossing);
    }
    from.cross(want)
}

/// Picks the stages after the first one, whose cells are given.
pub fn select_from(
    diagram: &Diagram,
    layout: &Vec<u32>,
    bins: &Vec<Option<usize>>,
    entry: &Vec<usize>,
    allow_extra_traversal: u32,
    desired: Option<&DesiredLengths>,
) -> (r: Result<Selection, SelectionError>)
    requires
        diagram.wf(),
        bins@.len() == diagram.neighbors@.len(),
        forall|i: int| 0 <= i < entry@.len() ==> (#[trigger] entry@[i]) < diagram.neighbors@.len(),
        layout@.len() > 0 ==> entry@.len() == layout@[0],
        lengths_suffice(desired, layout@),
    ensures
        ({
            let plan = plan(diagram, layout@, bins@, allow_extra_traversal, desired);
            match r {
                Err(e) => plan.obstacle(e) || (layout@.len() >= 2 && plan.banded() && plan.stages(
                    entry@,
                    layout@.len(),
                ) == Err::<Progress, SelectionError>(e)),
                Ok(s) => layout@.len() >= 2 && plan.banded() && plan.stages(
                    entry@,
                    layout@.len(),
                ) is Ok && s@ == plan.stages(entry@, layout@.len())->Ok_0.chosen && s@.fills(
                    layout@,
                ),
            }
        }),
{
    let ghost plan = plan(diagram, layout@, bins@, allow_extra_traversal, desired);
    let bands = match usable_bands(layout, bins, Ghost(plan)) {
        Err(e) => {
            return Err(e);
        },
        Ok(bands) => bands,
    };
    let ghost banded = Seq::new(layout@.len(), |b: int| plan.band(b));
    assert(lists(bands@).len() == bands@.len());
    let keys = height_keys(diagram);
    let max: usize = match desired {
        None => allow_extra_traversal as usize,
        Some(d) => {
            let lift: usize = d.average as usize * 2 + 1;
            if allow_extra_traversal as usize > lift {
                allow_extra_traversal as usize
            } else {
                lift
            }
        },
    };
    let ghost start = entry@;
    let mut used = members_of(entry);
    let mut levels: Vec<Vec<usize>> = Vec::new();
    let first = entry.clone();
    assert(first@ =~= entry@);
    levels.push(first);
    let mut connections: Vec<Vec<Vec<(usize, Vec<usize>)>>> = Vec::new();
    let ghost mut p = plan.begin(start);
    assert(lists(levels@) =~= p.chosen.levels);
    assert(route_lists(connections@) =~= p.chosen.connections);
    let mut stage: usize = 1;
    while stage < layout.len()
        invariant
            diagram.wf(),
            bins@.len() == diagram.neighbors@.len(),
            plan == self::plan(diagram, layout@, bins@, allow_extra_traversal, desired),
            start.len() == layout@[0],
            lengths_suffice(desired, layout@),
            start == entry@,
            lists(bands@) == banded,
            banded == Seq::new(layout@.len(), |b: int| plan.band(b)),
            bands@.len() == layout@.len(),
            keys@ == plan.heights,
            max == plan.max,
            layout@.len() >= 2,
            plan.banded(),
            1 <= stage <= layout@.len(),
            levels@.len() == stage,
            lists(levels@) == p.chosen.levels,
            route_lists(connections@) == p.chosen.connections,
            used@ == p.used,
            plan.in_shape(p, start.len()),
            plan.stages(start, stage as nat) == Ok::<Progress, SelectionError>(p),
        decreases layout@.len() - stage,
    {
        let want: usize = layout[stage] as usize;
        let prev = &levels[stage - 1];
        let wanted: Option<&Vec<usize>> = match desired {
            None => None,
            Some(d) => Some(&d.lengths[stage - 1]),
        };
        let ghost crossing = plan.crossing(stage as int, prev@, p.used);
        proof {
            assert(p.chosen.levels.last() == prev@);
            assert forall|i: int| 0 <= i < prev@.len() implies (#[trigger] prev@[i])
                < diagram.neighbors@.len() by {
                assert(p.chosen.levels[stage - 1][i] < plan.graph.len());
            }
            assert(p.chosen.levels[stage - 1].len() == prev@.len());
            assert(plan.stages(start, (stage + 1) as nat) == plan.advance(p));
        }
        match pick_stage(diagram, &keys, &bands, prev, &used, max, stage, want, wanted, Ghost(plan)) {
            Err(level) => {
                let e = SelectionError::Unconnectable {
                    from_stage: stage - 1,
                    to_stage: stage,
                    level,
                };
                proof {
                    assert(p.chosen.levels.len() == stage);
                    assert(plan.advance(p) == Err::<Progress, SelectionError>(e));
                    plan.lemma_stages_fail(start, (stage + 1) as nat, layout@.len());
                }
                return Err(e);
            },
            Ok((picks, links)) => {
                take_cells(&mut used, &picks, &links);
                let ghost before = p;
                proof {
                    p = plan.advance(before)->Ok_0;
                    crossing.law_outcome(want as nat);
                    plan.lemma_advance(before, start.len());
                }
                let ghost old_levels = levels@;
                let ghost old_connections = connections@;
                levels.push(picks);
                connections.push(links);
                assert(lists(levels@) =~= lists(old_levels).push(picks@));
                assert(route_lists(connections@) =~= route_lists(old_connections).push(
                    arrival_lists(links@),
                ));
            },
        }
        stage += 1;
    }
    Ok(Selection { levels, connections })
}

impl Plan {
    /// A stage that fails ends the selection.
    proof fn lemma_stages_fail(self, entry: Seq<usize>, at: nat, upto: nat)
        requires
            at <= upto,
            self.stages(entry, at) is Err,
        ensures
            self.stages(entry, upto) == self.stages(entry, at),
        decreases upto,
    {
        if at < upto {
            self.lemma_stages_fail(entry, at, (upto - 1) as nat);
        }
    }

    /// One stage more keeps the shape.
    proof fn lemma_advance(self, p: Progress, entries: nat)
        requires
            self.in_shape(p, entries),
            p.chosen.levels.len() < self.layout.len(),
            in_range(self.graph),
            self.graph.len() <= usize::MAX,
            self.advance(p) is Ok,
        ensures
            self.in_shape(self.advance(p)->Ok_0, entries),
    {
        let stage = p.chosen.levels.len() as int;
        let prev = p.chosen.levels.last();
        let terrain = self.terrain(stage, p.used);
        let crossing = self.crossing(stage, prev, p.used);
        let want = self.layout[stage] as nat;
        crossing.law_outcome(want);
        let (picks, links) = crossing.outcome(want)->Ok_0;
        let next = self.advance(p)->Ok_0;
        assert forall|s: int, i: int|
            0 <= s < next.chosen.levels.len() && 0 <= i < next.chosen.levels[s].len() implies (
        #[trigger] next.chosen.levels[s][i]) < self.graph.len() by {
            if s < stage {
                assert(next.chosen.levels[s] == p.chosen.levels[s]);
                assert(p.chosen.levels[s][i] < self.graph.len());
            } else {
                assert(crossing.reachable(picks[i]));
                let j = choose|j: int|
                    0 <= j < crossing.reach.len() && #[trigger] crossing.reaches(j, picks[i]);
                let k = choose|k: int|
                    0 <= k < crossing.reach[j].len() && (#[trigger] crossing.reach[j][k]).0
                        == picks[i];
                assert(p.chosen.levels[stage - 1][j] < self.graph.len());
                law_reached_is_shortest(terrain, prev[j]);
                let a = crossing.reach[j][k];
                assert(a == reached(terrain, prev[j])[k]);
                let whole = chain(prev[j], a.1, a.0);
                assert(whole[whole.len() - 1] == a.0);
            }
        }
        assert forall|s: int| 0 < s < next.chosen.levels.len() implies (
        #[trigger] next.chosen.levels[s]).len() == self.layout[s] by {
            if s < stage {
                assert(next.chosen.levels[s] == p.chosen.levels[s]);
            }
        }
        assert(next.chosen.levels[0] == p.chosen.levels[0]);
    }
}

/// Picks cells of the diagram that match the layout, and connects every cell to
/// the next stage. `bins` gives the column of each cell within the visible region.
pub fn select(
    diagram: &Diagram,
    layout: &Vec<u32>,
    bins: &Vec<Option<usize>>,
    allow_extra_traversal: u32,
    desired: Option<&DesiredLengths>,
    rng: &mut StdRng,
) -> (r: Result<Selection, SelectionError>)
    requires
        diagram.wf(),
        bins@.len() == diagram.neighbors@.len(),
        lengths_suffice(desired, layout@),
    ensures
        ({
            let plan = plan(diagram, layout@, bins@, allow_extra_traversal, desired);
            let sorted = plan.entry_cells();
            let n = layout@[0] as nat;
            let entry = even_picks(
                sorted,
                n,
                if jitters(n, sorted.len()) {
                    drawn_index(*old(rng), 3) as nat
                } else {
                    0
                },
            );
            &&& match r {
                Err(e) => plan.obstacle(e) || (layout@.len() >= 2 && plan.banded() && plan.stages(
                    entry,
                    layout@.len(),
                ) == Err::<Progress, SelectionError>(e)),
                Ok(s) => layout@.len() >= 2 && plan.banded() && plan.stages(
                    entry,
                    layout@.len(),
                ) is Ok && s@ == plan.stages(entry, layout@.len())->Ok_0.chosen && s@.fills(layout@),
            }
            &&& *final(rng) == if layout@.len() >= 2 && plan.banded() && jitters(n, sorted.len()) {
                past_index(*old(rng), 3)
            } else {
                *old(rng)
            }
        }),
{
    let ghost whole = plan(diagram, layout@, bins@, allow_extra_traversal, desired);
    let ghost bare = plan(diagram, layout@, bins@, 0, None);
    proof {
        assert forall|b: int| whole.band(b) == #[trigger] bare.band(b) by {}
        assert(whole.entry_cells() == bare.entry_cells());
    }
    match pick_entry(diagram, layout, bins, rng) {
        Err(e) => {
            proof {
                if let SelectionError::EmptyBand(b) = e {
                    if bare.first_empty(b as int) {
                        assert forall|j: int| 0 <= j < b implies #[trigger] whole.band(j).len()
                            > 0 by {
                            assert(bare.band(j).len() > 0);
                        }
                        assert(bare.band(b as int).len() == 0);
                        assert(whole.band(b as int).len() == 0);
                    } else {
                        assert forall|j: int| 0 <= j < whole.layout.len() implies #[trigger] whole.band(
                            j,
                        ).len() > 0 by {
                            assert(bare.band(j).len() > 0);
                        }
                    }
                    assert(!whole.banded());
                }
            }
            Err(e)
        },
        Ok(entry) => {
            assert forall|j: int| 0 <= j < whole.layout.len() implies #[trigger] whole.band(j).len()
                > 0 by {
                assert(bare.band(j).len() > 0);
            }
            select_from(diagram, layout, bins, &entry, allow_extra_traversal, desired)
        },
    }
}

impl Chosen {
    /// Connection `k` of cell `i` of stage `s`.
    pub open spec fn route(self, s: int, i: int, k: int) -> Route {
        self.connections[s][i][k]
    }

    /// The cells that a connection visits, its ends included.
    pub open spec fn visits(self, s: int, i: int, k: int) -> Seq<usize> {
        chain(
            self.levels[s][i],
            self.route(s, i, k).1,
            self.levels[s + 1][self.route(s, i, k).0 as int],
        )
    }

    /// There is such a connection.
    pub open spec fn has_route(self, s: int, i: int, k: int) -> bool {
        &&& 0 <= s < self.connections.len()
        &&& 0 <= i < self.connections[s].len()
        &&& 0 <= k < self.connections[s][i].len()
    }

    /// Each cell of each stage but the last has a list of connections, and each of
    /// these names a cell of the next stage. There are `cells` cells in all.
    pub open spec fn addressed(self, cells: nat) -> bool {
        &&& self.levels.len() == self.connections.len() + 1
        &&& forall|s: int|
            0 <= s < self.connections.len() ==> (#[trigger] self.connections[s]).len()
                == self.levels[s].len()
        &&& forall|s: int, i: int, k: int| #[trigger]
            self.has_route(s, i, k) ==> self.route(s, i, k).0 < self.levels[s + 1].len()
        &&& forall|s: int, i: int|
            0 <= s < self.levels.len() && 0 <= i < self.levels[s].len() ==> (
            #[trigger] self.levels[s][i]) < cells
    }

    /// The connections are in order, and each walks from neighbour to neighbour.
    pub open spec fn linked(self, graph: Seq<Seq<usize>>) -> bool {
        &&& self.addressed(graph.len())
        &&& forall|s: int, i: int, k: int| #[trigger]
            self.has_route(s, i, k) ==> is_walk(graph, self.visits(s, i, k))
    }

    /// Each cell of each stage but the last has a connection to the next stage.
    pub open spec fn leads_on(self) -> bool {
        forall|s: int, i: int|
            0 <= s < self.connections.len() && 0 <= i < self.connections[s].len() ==> (
            #[trigger] self.connections[s][i]).len() > 0
    }

    /// Each cell of each stage but the first is the target of a connection.
    pub open spec fn led_to(self) -> bool {
        forall|s: int, j: int|
            0 <= s < self.connections.len() && 0 <= j < self.levels[s + 1].len()
                ==> #[trigger] self.is_target(s, j)
    }

    /// Some connection from stage `s` goes to cell `j` of the next stage.
    pub open spec fn is_target(self, s: int, j: int) -> bool {
        exists|i: int, k: int| #[trigger] self.has_route(s, i, k) && self.route(s, i, k).0 == j
    }

    /// No cell is in two stages, and none is in a stage and within a corridor.
    pub open spec fn apart(self) -> bool {
        &&& forall|s: int, i: int, t: int, j: int|
            #![trigger self.levels[s][i], self.levels[t][j]]
            0 <= s < t < self.levels.len() && 0 <= i < self.levels[s].len() && 0 <= j
                < self.levels[t].len() ==> self.levels[s][i] != self.levels[t][j]
        &&& forall|s: int, i: int, k: int, t: int, j: int|
            #![trigger self.has_route(s, i, k), self.levels[t][j]]
            self.has_route(s, i, k) && 0 <= t < self.levels.len() && 0 <= j < self.levels[t].len()
                ==> !self.route(s, i, k).1.contains(self.levels[t][j])
    }

    /// Each stage has as many cells as the layout says.
    pub open spec fn fills(self, layout: Seq<u32>) -> bool {
        &&& self.levels.len() == layout.len()
        &&& forall|s: int| 0 <= s < layout.len() ==> (#[trigger] self.levels[s]).len() == layout[s]
    }

    /// No corridor repeats a cell.
    pub open spec fn simple(self) -> bool {
        forall|s: int, i: int, k: int| #[trigger]
            self.has_route(s, i, k) ==> self.route(s, i, k).1.no_duplicates()
    }

    /// Corridors out of different stages share no cell.
    pub open spec fn separate(self) -> bool {
        forall|s: int, i: int, k: int, t: int, j: int, l: int|
            #![trigger self.has_route(s, i, k), self.has_route(t, j, l)]
            self.has_route(s, i, k) && self.has_route(t, j, l) && s < t ==> self.route(
                s,
                i,
                k,
            ).1.to_set().disjoint(self.route(t, j, l).1.to_set())
    }
}

impl Plan {
    /// The stages picked so far lead from one to the next.
    spec fn sound(self, p: Progress, entry: Seq<usize>) -> bool {
        &&& self.in_shape(p, entry.len())
        &&& p.chosen.levels[0] == entry
        &&& p.chosen.linked(self.graph)
        &&& p.chosen.leads_on()
        &&& p.chosen.led_to()
        &&& forall|s: int|
            0 < s < p.chosen.levels.len() ==> (#[trigger] p.chosen.levels[s]).no_duplicates()
                && sorted_by(p.chosen.levels[s], key_in(self.heights))
        &&& forall|s: int, i: int|
            0 < s < p.chosen.levels.len() && 0 <= i < p.chosen.levels[s].len() ==> self.band(
                s,
            ).contains(#[trigger] p.chosen.levels[s][i])
        &&& forall|s: int, i: int, k: int| #[trigger]
            p.chosen.has_route(s, i, k) ==> p.chosen.route(s, i, k).1.len() <= self.max
        &&& p.chosen.simple()
        &&& p.chosen.separate()
    }

    /// Every cell of a stage or a corridor is taken.
    spec fn recorded(self, p: Progress) -> bool {
        &&& forall|s: int, i: int|
            0 <= s < p.chosen.levels.len() && 0 <= i < p.chosen.levels[s].len()
                ==> p.used.contains(#[trigger] p.chosen.levels[s][i])
        &&& forall|s: int, i: int, k: int, c: usize|
            #![trigger p.chosen.has_route(s, i, k), p.used.contains(c)]
            p.chosen.has_route(s, i, k) && p.chosen.route(s, i, k).1.contains(c)
                ==> p.used.contains(c)
    }

    /// What an arrival of the search from cell `i` of the last stage is like.
    proof fn lemma_arrival(self, p: Progress, entry: Seq<usize>, i: int, l: int)
        requires
            in_range(self.graph),
            self.graph.len() <= usize::MAX,
            self.in_shape(p, entry.len()),
            0 <= i < p.chosen.levels.last().len(),
            0 <= l < self.crossing(
                p.chosen.levels.len() as int,
                p.chosen.levels.last(),
                p.used,
            ).reach[i].len(),
        ensures
            ({
                let stage = p.chosen.levels.len() as int;
                let prev = p.chosen.levels.last();
                let (target, path) = self.crossing(stage, prev, p.used).reach[i][l];
                &&& self.band(stage).contains(target)
                &&& !p.used.contains(target)
                &&& path.len() <= self.max
                &&& path.no_duplicates()
                &&& is_walk(self.graph, chain(prev[i], path, target))
                &&& forall|c: usize| #[trigger]
                    path.contains(c) ==> !p.used.contains(c) && !self.band(stage).contains(c)
                &&& target < self.graph.len()
            }),
    {
        let stage = p.chosen.levels.len() as int;
        let prev = p.chosen.levels.last();
        let terrain = self.terrain(stage, p.used);
        let crossing = self.crossing(stage, prev, p.used);
        assert(p.chosen.levels[stage - 1][i] < self.graph.len());
        law_reached_is_shortest(terrain, prev[i]);
        law_reached_repeats_no_cell(terrain, prev[i], l);
        assert(crossing.reach[i] == reached(terrain, prev[i]));
        let (target, path) = reached(terrain, prev[i])[l];
        assert(terrain.corridor(prev[i], path, target));
        assert(terrain.band.contains(target));
        let whole = chain(prev[i], path, target);
        assert(whole[whole.len() - 1] == target);
        assert forall|c: usize| #[trigger] path.contains(c) implies !p.used.contains(c)
            && !self.band(stage).contains(c) by {
            let j = choose|j: int| 0 <= j < path.len() && path[j] == c;
            assert(terrain.free(path[j]));
            if self.band(stage).contains(c) {
                assert(self.band(stage).to_set().contains(c));
            }
        }
    }

    proof fn lemma_advance_sound(self, p: Progress, entry: Seq<usize>)
        requires
            in_range(self.graph),
            self.graph.len() <= usize::MAX,
            self.sound(p, entry),
            self.recorded(p),
            p.chosen.apart(),
            p.chosen.levels.len() < self.layout.len(),
            self.advance(p) is Ok,
        ensures
            self.sound(self.advance(p)->Ok_0, entry),
            self.recorded(self.advance(p)->Ok_0),
            self.advance(p)->Ok_0.chosen.apart(),
    {
        let stage = p.chosen.levels.len() as int;
        let prev = p.chosen.levels.last();
        let crossing = self.crossing(stage, prev, p.used);
        let want = self.layout[stage] as nat;
        crossing.law_outcome(want);
        let (picks, links) = crossing.outcome(want)->Ok_0;
        let next = self.advance(p)->Ok_0;
        let was = p.chosen;
        let now = next.chosen;
        self.lemma_advance(p, entry.len());
        assert(prev == was.levels[stage - 1]);
        assert forall|s: int| 0 <= s < stage implies #[trigger] now.levels[s] == was.levels[s] by {}
        assert forall|s: int| 0 <= s < stage - 1 implies #[trigger] now.connections[s]
            == was.connections[s] by {}
        assert(now.levels[stage] == picks && now.connections[stage - 1] == links);
        assert forall|s: int, i: int, k: int|
            s < stage - 1 && #[trigger] now.has_route(s, i, k) implies was.has_route(s, i, k)
            && was.route(s, i, k) == now.route(s, i, k) by {}
        // The new connections.
        assert forall|i: int, k: int| #[trigger] now.has_route(stage - 1, i, k) implies now.route(
            stage - 1,
            i,
            k,
        ).0 < picks.len() && is_walk(self.graph, now.visits(stage - 1, i, k)) && now.route(
            stage - 1,
            i,
            k,
        ).1.len() <= self.max && now.route(stage - 1, i, k).1.no_duplicates() && (forall|
            c: usize,
        | #[trigger]
            now.route(stage - 1, i, k).1.contains(c) ==> !p.used.contains(c) && !self.band(
                stage,
            ).contains(c)) by {
            let r = now.route(stage - 1, i, k);
            assert(crossing.stands_for(i, picks, links[i][k]));
            let a = (picks[r.0 as int], r.1);
            let l = choose|l: int| 0 <= l < crossing.reach[i].len() && crossing.reach[i][l] == a;
            self.lemma_arrival(p, entry, i, l);
        }
        // The new cells.
        assert forall|j: int| 0 <= j < picks.len() implies self.band(stage).contains(
            #[trigger] picks[j],
        ) && !p.used.contains(picks[j]) && now.is_target(stage - 1, j) by {
            assert(crossing.reachable(picks[j]));
            let i = choose|i: int|
                0 <= i < crossing.reach.len() && #[trigger] crossing.reaches(i, picks[j]);
            let l = choose|l: int|
                0 <= l < crossing.reach[i].len() && (#[trigger] crossing.reach[i][l]).0
                    == picks[j];
            self.lemma_arrival(p, entry, i, l);
            assert(picks.contains(picks[j]));
            assert(picks.index_of(picks[j]) == j);
            let r = (j as usize, crossing.reach[i][l].1);
            assert(links[i].contains(r));
            let k = choose|k: int| 0 <= k < links[i].len() && links[i][k] == r;
            assert(now.has_route(stage - 1, i, k));
        }
        assert(now.linked(self.graph)) by {
            assert forall|s: int|
                0 <= s < now.connections.len() implies (#[trigger] now.connections[s]).len()
                == now.levels[s].len() by {
                if s < stage - 1 {
                    assert(now.connections[s] == was.connections[s]);
                }
            }
            assert forall|s: int, i: int, k: int| #[trigger] now.has_route(s, i, k) implies now.route(
                s,
                i,
                k,
            ).0 < now.levels[s + 1].len() && is_walk(self.graph, now.visits(s, i, k)) by {
                if s < stage - 1 {
                    assert(was.has_route(s, i, k));
                    assert(now.visits(s, i, k) == was.visits(s, i, k));
                }
            }
        }
        assert(now.leads_on()) by {
            assert forall|s: int, i: int|
                0 <= s < now.connections.len() && 0 <= i < now.connections[s].len() implies (
            #[trigger] now.connections[s][i]).len() > 0 by {
                if s < stage - 1 {
                    assert(was.connections[s][i].len() > 0);
                }
            }
        }
        assert(now.led_to()) by {
            assert forall|s: int, j: int|
                0 <= s < now.connections.len() && 0 <= j < now.levels[s
                    + 1].len() implies #[trigger] now.is_target(s, j) by {
                if s < stage - 1 {
                    assert(was.is_target(s, j));
                    let (i, k) = choose|i: int, k: int| #[trigger]
                        was.has_route(s, i, k) && was.route(s, i, k).0 == j;
                    assert(now.has_route(s, i, k));
                } else {
                    assert(picks[j] == now.levels[s + 1][j]);
                }
            }
        }
        assert forall|s: int, i: int|
            0 < s < now.levels.len() && 0 <= i < now.levels[s].len() implies self.band(s).contains(
            #[trigger] now.levels[s][i],
        ) by {
            if s < stage {
                assert(self.band(s).contains(was.levels[s][i]));
            } else {
                assert(self.band(stage).contains(picks[i]));
            }
        }
        assert forall|s: int| 0 < s < now.levels.len() implies (
        #[trigger] now.levels[s]).no_duplicates() && sorted_by(
            now.levels[s],
            key_in(self.heights),
        ) by {
            if s < stage {
                assert(now.levels[s] == was.levels[s]);
            }
        }
        assert(now.levels[0] == was.levels[0]);
        assert(now.simple()) by {
            assert forall|s: int, i: int, k: int| #[trigger]
                now.has_route(s, i, k) implies now.route(s, i, k).1.no_duplicates() by {
                if s < stage - 1 {
                    assert(was.has_route(s, i, k));
                }
            }
        }
        assert(now.separate()) by {
            assert forall|s: int, i: int, k: int, t: int, j: int, l: int|
                #![trigger now.has_route(s, i, k), now.has_route(t, j, l)]
                now.has_route(s, i, k) && now.has_route(t, j, l) && s < t implies now.route(
                s,
                i,
                k,
            ).1.to_set().disjoint(now.route(t, j, l).1.to_set()) by {
                assert(was.has_route(s, i, k));
                if t < stage - 1 {
                    assert(was.has_route(t, j, l));
                } else {
                    assert forall|c: usize|
                        now.route(s, i, k).1.contains(c) implies !now.route(t, j, l).1.contains(
                        c,
                    ) by {
                        assert(was.route(s, i, k).1.contains(c));
                        assert(p.used.contains(c));
                    }
                }
            }
        }
        assert(self.sound(next, entry));
        // What is taken.
        assert forall|s: int, i: int|
            0 <= s < now.levels.len() && 0 <= i < now.levels[s].len() implies next.used.contains(
            #[trigger] now.levels[s][i],
        ) by {
            if s < stage {
                assert(p.used.contains(was.levels[s][i]));
            } else {
                assert(picks.contains(picks[i]));
                assert(picks.to_set().contains(picks[i]));
            }
        }
        assert forall|s: int, i: int, k: int, c: usize|
            #![trigger now.has_route(s, i, k), next.used.contains(c)]
            now.has_route(s, i, k) && now.route(s, i, k).1.contains(c) implies next.used.contains(
            c,
        ) by {
            if s < stage - 1 {
                assert(was.has_route(s, i, k) && was.route(s, i, k).1.contains(c));
                assert(p.used.contains(c));
            } else {
                assert(links[i][k].1.contains(c));
                assert(walked(links).contains(c));
            }
        }
        assert(self.recorded(next));
        // Nothing is taken twice.
        assert forall|s: int, i: int, t: int, j: int|
            #![trigger now.levels[s][i], now.levels[t][j]]
            0 <= s < t < now.levels.len() && 0 <= i < now.levels[s].len() && 0 <= j
                < now.levels[t].len() implies now.levels[s][i] != now.levels[t][j] by {
            if t < stage {
                assert(was.levels[s][i] != was.levels[t][j]);
            } else {
                assert(p.used.contains(was.levels[s][i]));
                assert(!p.used.contains(picks[j]));
            }
        }
        assert forall|s: int, i: int, k: int, t: int, j: int|
            #![trigger now.has_route(s, i, k), now.levels[t][j]]
            now.has_route(s, i, k) && 0 <= t < now.levels.len() && 0 <= j
                < now.levels[t].len() implies !now.route(s, i, k).1.contains(
            now.levels[t][j],
        ) by {
            let c = now.levels[t][j];
            if now.route(s, i, k).1.contains(c) {
                if s < stage - 1 {
                    assert(was.has_route(s, i, k));
                    if t < stage {
                        assert(was.levels[t][j] == c);
                    } else {
                        assert(p.used.contains(c));
                        assert(!p.used.contains(picks[j]));
                    }
                } else {
                    if t < stage {
                        assert(p.used.contains(was.levels[t][j]));
                    } else {
                        assert(self.band(stage).contains(picks[j]));
                    }
                }
            }
        }
    }

    proof fn lemma_stages_sound(self, entry: Seq<usize>, stages: nat)
        requires
            in_range(self.graph),
            self.graph.len() <= usize::MAX,
            forall|i: int| 0 <= i < entry.len() ==> (#[trigger] entry[i]) < self.graph.len(),
            1 <= stages <= self.layout.len(),
            self.stages(entry, stages) is Ok,
        ensures
            self.sound(self.stages(entry, stages)->Ok_0, entry),
            self.recorded(self.stages(entry, stages)->Ok_0),
            self.stages(entry, stages)->Ok_0.chosen.apart(),
            self.stages(entry, stages)->Ok_0.chosen.levels.len() == stages,
        decreases stages,
    {
        if stages <= 1 {
            let p = self.begin(entry);
            assert forall|i: int| 0 <= i < entry.len() implies p.used.contains(
                #[trigger] entry[i],
            ) by {
                assert(entry.contains(entry[i]));
            }
        } else {
            self.lemma_stages_sound(entry, (stages - 1) as nat);
            self.lemma_advance_sound(self.stages(entry, (stages - 1) as nat)->Ok_0, entry);
        }
    }
}

/// Every stop of a selection has a path to some stop of the next stage, and every
/// stop but those of the entry stage has a path to it. Paths walk from neighbour to
/// neighbour.
pub proof fn law_every_stop_is_connected(plan: Plan, entry: Seq<usize>)
    requires
        in_range(plan.graph),
        plan.graph.len() <= usize::MAX,
        forall|i: int| 0 <= i < entry.len() ==> (#[trigger] entry[i]) < plan.graph.len(),
        plan.layout.len() >= 1,
        plan.stages(entry, plan.layout.len()) is Ok,
    ensures
        plan.stages(entry, plan.layout.len())->Ok_0.chosen.linked(plan.graph),
        plan.stages(entry, plan.layout.len())->Ok_0.chosen.leads_on(),
        plan.stages(entry, plan.layout.len())->Ok_0.chosen.led_to(),
{
    plan.lemma_stages_sound(entry, plan.layout.len());
}

/// A selection has the stages that the layout asks for: the entry cells first, and
/// then as many cells as each stage is to have, out of the band of the stage, in
/// the order of their heights. Where there are as many entry cells as the layout asks
/// for, every stage has its number of stops.
pub proof fn law_selection_matches_layout(plan: Plan, entry: Seq<usize>)
    requires
        in_range(plan.graph),
        plan.graph.len() <= usize::MAX,
        forall|i: int| 0 <= i < entry.len() ==> (#[trigger] entry[i]) < plan.graph.len(),
        plan.layout.len() >= 1,
        plan.stages(entry, plan.layout.len()) is Ok,
    ensures
        ({
            let chosen = plan.stages(entry, plan.layout.len())->Ok_0.chosen;
            &&& chosen.levels.len() == plan.layout.len()
            &&& chosen.levels[0] == entry
            &&& forall|s: int|
                0 < s < plan.layout.len() ==> (#[trigger] chosen.levels[s]).len() == plan.layout[s]
            &&& entry.len() == plan.layout[0] ==> chosen.fills(plan.layout)
            &&& forall|s: int|
                0 < s < plan.layout.len() ==> sorted_by(
                    #[trigger] chosen.levels[s],
                    key_in(plan.heights),
                )
            &&& forall|s: int, i: int|
                0 < s < plan.layout.len() && 0 <= i < chosen.levels[s].len() ==> plan.band(
                    s,
                ).contains(#[trigger] chosen.levels[s][i])
        }),
{
    plan.lemma_stages_sound(entry, plan.layout.len());
}

/// A selection uses no cell for two things: the stages share no cell, no stage but
/// the entry stage can hold a cell twice, no corridor leads through a stop or repeats
/// a cell, and corridors out of different stages share no cell. No corridor is longer
/// than the plan allows.
pub proof fn law_selection_keeps_cells_apart(plan: Plan, entry: Seq<usize>)
    requires
        in_range(plan.graph),
        plan.graph.len() <= usize::MAX,
        forall|i: int| 0 <= i < entry.len() ==> (#[trigger] entry[i]) < plan.graph.len(),
        plan.layout.len() >= 1,
        plan.stages(entry, plan.layout.len()) is Ok,
    ensures
        ({
            let chosen = plan.stages(entry, plan.layout.len())->Ok_0.chosen;
            &&& chosen.apart()
            &&& chosen.simple()
            &&& chosen.separate()
            &&& forall|s: int|
                0 < s < plan.layout.len() ==> (#[trigger] chosen.levels[s]).no_duplicates()
            &&& forall|s: int, i: int, k: int| #[trigger]
                chosen.has_route(s, i, k) ==> chosen.route(s, i, k).1.len() <= plan.max
        }),
{
    plan.lemma_stages_sound(entry, plan.layout.len());
}

/// The entry stage has as many cells as the layout asks for. They are cells of its
/// band.
pub proof fn law_entry_fills_its_stage(plan: Plan, jitter: nat)
    requires
        plan.layout.len() >= 2,
        plan.banded(),
    ensures
        ({
            let n = plan.layout[0] as nat;
            let entry = even_picks(plan.entry_cells(), n, jitter);
            &&& entry.len() == n
            &&& forall|i: int| 0 <= i < entry.len() ==> plan.band(0).contains(#[trigger] entry[i])
        }),
{
    let n = plan.layout[0] as nat;
    let sorted = plan.entry_cells();
    plan.lemma_entry_cells();
    assert(plan.band(0).len() > 0);
    let entry = even_picks(sorted, n, jitter);
    assert forall|i: int| 0 <= i < entry.len() implies plan.band(0).contains(
        #[trigger] entry[i],
    ) by {
        assert(slot(i as nat, n, sorted.len()) < sorted.len());
        assert(sorted.contains(entry[i]));
    }
}

/// The entry stage is in the order of its cells' heights.
pub proof fn law_entry_is_in_order(plan: Plan, jitter: nat)
    requires
        plan.layout.len() >= 2,
        plan.banded(),
    ensures
        sorted_by(
            even_picks(plan.entry_cells(), plan.layout[0] as nat, jitter),
            key_in(plan.heights),
        ),
{
    let n = plan.layout[0] as nat;
    let sorted = plan.entry_cells();
    let len = sorted.len();
    plan.lemma_entry_cells();
    let entry = even_picks(sorted, n, jitter);
    if n != 1 && n < len {
        assert forall|i: int, j: int| 0 <= i <= j < entry.len() implies key_in(plan.heights)(
            #[trigger] entry[i],
        ) <= key_in(plan.heights)(#[trigger] entry[j]) by {
            law_slots_never_decrease(i as nat, j as nat, n, len);
        }
    }
}

/// The entry stage holds no cell twice if it takes one cell, or all cells that it is
/// picked from, or cells that are well apart.
pub proof fn law_entry_picks_are_distinct(plan: Plan, jitter: nat)
    requires
        plan.layout.len() >= 2,
        plan.banded(),
        plan.bins.len() <= usize::MAX,
        1 < plan.layout[0] < plan.entry_cells().len() ==> well_apart(
            plan.layout[0] as nat,
            plan.entry_cells().len(),
        ),
    ensures
        even_picks(plan.entry_cells(), plan.layout[0] as nat, jitter).no_duplicates(),
{
    let n = plan.layout[0] as nat;
    let sorted = plan.entry_cells();
    let len = sorted.len();
    plan.lemma_entry_cells();
    let entry = even_picks(sorted, n, jitter);
    if 1 < n < len {
        assert forall|i: int, j: int| 0 <= i < j < entry.len() implies #[trigger] entry[i]
            != #[trigger] entry[j] by {
            law_slots_increase(i as nat, j as nat, n, len);
        }
    }
}

impl Plan {
    /// The entry cells are picked out of cells of the first band, enough of them and
    /// in the order of their heights.
    proof fn lemma_entry_cells(self)
        ensures
            sorted_by(self.entry_cells(), key_in(self.heights)),
            self.entry_cells().len() <= self.band(0).len(),
            self.layout[0] <= self.band(0).len() ==> self.layout[0] <= self.entry_cells().len(),
            forall|c: usize| #[trigger] self.entry_cells().contains(c) ==> self.band(0).contains(c),
            self.bins.len() <= usize::MAX ==> self.entry_cells().no_duplicates(),
    {
        let near = ahead(self.graph, Some(self.band(1).to_set()));
        let keep = |c: usize| near.contains(c);
        let touching = self.band(0).filter(keep);
        let from = if touching.len() >= self.layout[0] {
            touching
        } else {
            self.band(0)
        };
        if self.bins.len() <= usize::MAX {
            lemma_band(self.bins, self.layout.len(), 0);
        }
        lemma_filter(self.band(0), keep);
        lemma_filter_len(self.band(0), keep);
        lemma_sort_by(from, key_in(self.heights));
        assert(self.entry_cells() == sort_by(from, key_in(self.heights)));
        assert forall|c: usize| #[trigger] self.entry_cells().contains(c) implies self.band(
            0,
        ).contains(c) by {
            assert(from.contains(c));
        }
    }
}

proof fn lemma_filter_len(s: Seq<usize>, keep: spec_fn(usize) -> bool)
    ensures
        s.filter(keep).len() <= s.len(),
    decreases s.len(),
{
    reveal(Seq::filter);
    if s.len() > 0 {
        lemma_filter_len(s.drop_last(), keep);
    }
}

} // verus!
