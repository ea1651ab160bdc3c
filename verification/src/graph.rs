//! Walks over the cells of a diagram.
//!
//! A graph is the list of every cell's neighbours, in the order in which the
//! diagram lists them.

use vstd::prelude::*;

verus! {

/// Every neighbour is a cell of the graph.
pub open spec fn in_range(graph: Seq<Seq<usize>>) -> bool {
    forall|c: int, k: int|
        0 <= c < graph.len() && 0 <= k < graph[c].len() ==> (#[trigger] graph[c][k]) < graph.len()
}

/// `b` is listed as a neighbour of `a`.
pub open spec fn linked(graph: Seq<Seq<usize>>, a: usize, b: usize) -> bool {
    graph[a as int].contains(b)
}

/// Each cell of `cells` is a cell of the graph, and is followed by one of its
/// neighbours.
pub open spec fn is_walk(graph: Seq<Seq<usize>>, cells: Seq<usize>) -> bool {
    &&& forall|i: int| 0 <= i < cells.len() ==> (#[trigger] cells[i]) < graph.len()
    &&& forall|i: int|
        0 <= i < cells.len() - 1 ==> #[trigger] linked(graph, cells[i], cells[i + 1])
}

/// The cells that a route visits: its two ends and the cells between them.
pub open spec fn chain(from: usize, between: Seq<usize>, to: usize) -> Seq<usize> {
    seq![from] + between + seq![to]
}

/// Two cells, the lower index first.
pub open spec fn ordered(a: usize, b: usize) -> (usize, usize) {
    if a <= b {
        (a, b)
    } else {
        (b, a)
    }
}

/// The number of cells below `n` that are not in `visited`.
pub open spec fn unvisited(visited: Set<usize>, n: nat) -> nat
    decreases n,
{
    if n == 0 {
        0
    } else {
        unvisited(visited, (n - 1) as nat) + if visited.contains((n - 1) as usize) {
            0nat
        } else {
            1nat
        }
    }
}

/// Visiting one more cell leaves one cell less to visit.
pub proof fn lemma_visit_one(visited: Set<usize>, n: nat, c: usize)
    requires
        n <= usize::MAX + 1,
        !visited.contains(c),
    ensures
        unvisited(visited.insert(c), n) == unvisited(visited, n) - if c < n {
            1int
        } else {
            0int
        },
    decreases n,
{
    if n > 0 {
        lemma_visit_one(visited, (n - 1) as nat, c);
        if c < n - 1 {
            assert((n - 1) as usize != c);
        }
    }
}

} // verus!
