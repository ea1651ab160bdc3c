//! Walls and neighbours, told by the corners that cells have in common.

use super::{
    adjoin, common, lemma_common, lemma_walled, lists, same_point, same_points, wall,
    walled_graph, Diagram,
};
use crate::geometry::{is_number, PointBits};
use crate::graph::linked;
use vstd::prelude::*;

verus! {

/// Two lists of corners have two corners in common.
pub open spec fn share_two(a: Seq<usize>, b: Seq<usize>) -> bool {
    exists|u: usize, v: usize|
        #![trigger a.contains(u), a.contains(v)]
        u != v && a.contains(u) && a.contains(v) && b.contains(u) && b.contains(v)
}

/// The places `i` and `j` of `a` are the first two whose corners are also in `b`, where
/// a corner that occurs again counts once.
pub open spec fn first_two(a: Seq<usize>, b: Seq<usize>, i: int, j: int) -> bool {
    &&& 0 <= i < j < a.len()
    &&& a[i] != a[j]
    &&& b.contains(a[i]) && b.contains(a[j])
    &&& forall|k: int| 0 <= k < i ==> !b.contains(#[trigger] a[k])
    &&& forall|k: int| i < k < j ==> !b.contains(#[trigger] a[k]) || a[k] == a[i]
}

proof fn lemma_share_two(a: Seq<usize>, b: Seq<usize>)
    ensures
        common(a, b).len() >= 2 <==> share_two(a, b),
        share_two(a, b) <==> share_two(b, a),
{
    let both = common(a, b);
    lemma_common(a, b);
    if both.len() >= 2 {
        assert(both.contains(both[0]) && both.contains(both[1]));
        assert(a.contains(both[0]) && a.contains(both[1]));
    }
    if share_two(a, b) {
        let (u, v) = choose|u: usize, v: usize|
            #![trigger a.contains(u), a.contains(v)]
            u != v && a.contains(u) && a.contains(v) && b.contains(u) && b.contains(v);
        assert(both.contains(u) && both.contains(v));
        let i = choose|i: int| 0 <= i < both.len() && both[i] == u;
        let j = choose|j: int| 0 <= j < both.len() && both[j] == v;
        assert(i != j);
        assert(b.contains(u) && b.contains(v));
    }
    if share_two(b, a) {
        let (u, v) = choose|u: usize, v: usize|
            #![trigger b.contains(u), b.contains(v)]
            u != v && b.contains(u) && b.contains(v) && a.contains(u) && a.contains(v);
        assert(a.contains(u) && a.contains(v));
    }
}

/// Where the first common corners stand.
proof fn lemma_common_places(a: Seq<usize>, b: Seq<usize>)
    ensures
        common(a, b).len() == 0 ==> forall|k: int| 0 <= k < a.len() ==> !b.contains(#[trigger] a[k]),
        common(a, b).len() == 1 ==> exists|i: int|
            0 <= i < a.len() && #[trigger] a[i] == common(a, b)[0] && b.contains(a[i]) && (forall|
                k: int,
            | 0 <= k < i ==> !b.contains(#[trigger] a[k])) && forall|k: int|
                i < k < a.len() ==> !b.contains(#[trigger] a[k]) || a[k] == a[i],
        common(a, b).len() >= 2 ==> exists|i: int, j: int| #[trigger]
            first_two(a, b, i, j) && a[i] == common(a, b)[0] && a[j] == common(a, b)[1],
    decreases a.len(),
{
    if a.len() > 0 {
        let rest = a.drop_last();
        let last = a.last();
        let n = a.len() - 1;
        lemma_common_places(rest, b);
        lemma_common(rest, b);
        let before = common(rest, b);
        let now = common(a, b);
        assert forall|k: int| 0 <= k < n implies rest[k] == #[trigger] a[k] by {}
        if before.len() == 0 {
            if now.len() == 1 {
                assert(a[n] == now[0]);
                assert forall|k: int| 0 <= k < n implies !b.contains(#[trigger] a[k]) by {
                    assert(!b.contains(rest[k]));
                }
            } else {
                assert forall|k: int| 0 <= k < a.len() implies !b.contains(#[trigger] a[k]) by {
                    if k < n {
                        assert(!b.contains(rest[k]));
                    } else {
                        assert(a[k] == last);
                    }
                }
            }
        } else if before.len() == 1 {
            let i = choose|i: int|
                0 <= i < rest.len() && #[trigger] rest[i] == before[0] && b.contains(rest[i]) && (
                forall|k: int| 0 <= k < i ==> !b.contains(#[trigger] rest[k])) && forall|k: int|
                    i < k < rest.len() ==> !b.contains(#[trigger] rest[k]) || rest[k] == rest[i];
            assert(a[i] == before[0]);
            assert forall|k: int| 0 <= k < i implies !b.contains(#[trigger] a[k]) by {
                assert(!b.contains(rest[k]));
            }
            assert forall|k: int| i < k < n implies !b.contains(#[trigger] a[k]) || a[k]
                == a[i] by {
                assert(!b.contains(rest[k]) || rest[k] == rest[i]);
            }
            if now.len() == 2 {
                assert(now[0] == before[0]);
                assert(now[1] == last);
                assert(before.contains(before[0]));
                assert(last != before[0]);
                assert(first_two(a, b, i, n));
            } else {
                assert(now == before);
                assert(!b.contains(last) || before.contains(last));
                if before.contains(last) {
                    let x = choose|x: int| 0 <= x < before.len() && before[x] == last;
                    assert(x == 0);
                }
                assert forall|k: int| i < k < a.len() implies !b.contains(#[trigger] a[k]) || a[k]
                    == a[i] by {
                    if k == n {
                        assert(a[k] == last);
                    }
                }
            }
        } else {
            let (i, j) = choose|i: int, j: int| #[trigger]
                first_two(rest, b, i, j) && rest[i] == before[0] && rest[j] == before[1];
            assert(now[0] == before[0] && now[1] == before[1]);
            assert forall|k: int| 0 <= k < i implies !b.contains(#[trigger] a[k]) by {
                assert(!b.contains(rest[k]));
            }
            assert forall|k: int| i < k < j implies !b.contains(#[trigger] a[k]) || a[k]
                == a[i] by {
                assert(!b.contains(rest[k]) || rest[k] == rest[i]);
            }
            assert(first_two(a, b, i, j));
        }
    }
}

/// Two cells share a wall if and only if two corners are in both of their lists. The
/// ends of the wall are the corners at the first two places of the list of the first
/// cell whose corners are also in that of the second.
pub proof fn law_a_wall_joins_the_first_common_corners(diagram: &Diagram, a: int, b: int)
    requires
        0 <= a < diagram.cell_vertex_indices@.len(),
        0 <= b < diagram.cell_vertex_indices@.len(),
    ensures
        ({
            let mine = diagram.cell_vertex_indices@[a]@;
            let yours = diagram.cell_vertex_indices@[b]@;
            &&& wall(diagram, a, b) is Some <==> share_two(mine, yours)
            &&& wall(diagram, a, b) is Some <==> wall(diagram, b, a) is Some
            &&& wall(diagram, a, b) matches Some(ends) ==> exists|i: int, j: int| #[trigger]
                first_two(mine, yours, i, j) && ends@ == seq![
                    diagram.vertices@[mine[i] as int],
                    diagram.vertices@[mine[j] as int],
                ]
        }),
{
    let mine = diagram.cell_vertex_indices@[a]@;
    let yours = diagram.cell_vertex_indices@[b]@;
    assert(diagram.corners()[a] == mine);
    assert(diagram.corners()[b] == yours);
    lemma_share_two(mine, yours);
    lemma_share_two(yours, mine);
    lemma_common_places(mine, yours);
    if let Some(ends) = wall(diagram, a, b) {
        let (i, j) = choose|i: int, j: int| #[trigger]
            first_two(mine, yours, i, j) && mine[i] == common(mine, yours)[0] && mine[j] == common(
                mine,
                yours,
            )[1];
        assert(ends@ =~= seq![diagram.vertices@[mine[i] as int], diagram.vertices@[mine[j] as int]]);
    }
}

/// The neighbours of a cell are the cells in its list, in that order, but for itself,
/// those that do not list it back, and those with which it has fewer than two corners
/// in common.
pub proof fn law_neighbors_list_each_other_and_share_a_wall(
    corners: Seq<Seq<usize>>,
    near: Seq<Seq<usize>>,
    a: usize,
    b: usize,
)
    requires
        a < near.len(),
    ensures
        walled_graph(corners, near).len() == near.len(),
        walled_graph(corners, near)[a as int] == near[a as int].filter(
            |c: usize|
                c != a && near[c as int].contains(a) && share_two(
                    corners[a as int],
                    corners[c as int],
                ),
        ),
        walled_graph(corners, near)[a as int].contains(b) <==> near[a as int].contains(b) && a != b
            && near[b as int].contains(a) && share_two(corners[a as int], corners[b as int]),
{
    lemma_walled(corners, near, a, b);
    lemma_share_two(corners[b as int], corners[a as int]);
    let row = near[a as int];
    let meets = |j: usize| adjoin(corners, near, a as int, j as int);
    let keep = |c: usize|
        c != a && near[c as int].contains(a) && share_two(corners[a as int], corners[c as int]);
    assert forall|k: int| 0 <= k < row.len() implies meets(#[trigger] row[k]) == keep(row[k]) by {
        let c = row[k];
        assert(row.contains(c));
        lemma_share_two(corners[c as int], corners[a as int]);
    }
    lemma_filter_same(row, meets, keep);
    assert(linked(walled_graph(corners, near), a, b) == walled_graph(
        corners,
        near,
    )[a as int].contains(b));
}

/// Filters that agree on a list keep the same of it.
proof fn lemma_filter_same(s: Seq<usize>, a: spec_fn(usize) -> bool, b: spec_fn(usize) -> bool)
    requires
        forall|k: int| 0 <= k < s.len() ==> a(#[trigger] s[k]) == b(s[k]),
    ensures
        s.filter(a) == s.filter(b),
    decreases s.len(),
{
    reveal(Seq::filter);
    if s.len() > 0 {
        let rest = s.drop_last();
        assert forall|k: int| 0 <= k < rest.len() implies a(#[trigger] rest[k]) == b(rest[k]) by {
            assert(rest[k] == s[k]);
        }
        lemma_filter_same(rest, a, b);
        assert(a(s[s.len() - 1]) == b(s[s.len() - 1]));
    }
}

/// The polygon of a cell holds the corners of its list, in order.
pub proof fn law_polygons_follow_the_corners(diagram: &Diagram, c: int, k: int)
    requires
        diagram.meshed(),
        0 <= c < diagram.cell_vertex_indices@.len(),
        0 <= k < diagram.cell_vertex_indices@[c]@.len(),
    ensures
        diagram.cell_vertices@.len() == diagram.cell_vertex_indices@.len(),
        diagram.cell_vertices@[c]@.len() == diagram.cell_vertex_indices@[c]@.len(),
        diagram.cell_vertex_indices@[c]@[k] < diagram.vertices@.len(),
        diagram.cell_vertices@[c]@[k]
            == diagram.vertices@[diagram.cell_vertex_indices@[c]@[k] as int],
{
    let points = lists(diagram.cell_vertices@);
    assert(points.len() == diagram.cell_vertices@.len());
    assert(diagram.corners().len() == diagram.cell_vertex_indices@.len());
    assert(points[c] == diagram.cell_vertices@[c]@);
    assert(diagram.corners()[c] == diagram.cell_vertex_indices@[c]@);
    assert(diagram.corners()[c][k] < diagram.vertices@.len());
}

/// A list of lists is read as it is.
pub proof fn law_lists_are_read_as_they_are<T>(v: Seq<Vec<T>>, i: int)
    requires
        0 <= i < v.len(),
    ensures
        lists(v).len() == v.len(),
        lists(v)[i] == v[i]@,
{
}

/// Lists of points whose coordinates are numbers are the same if and only if they are
/// equal. A coordinate that is no number is the same as any other that is none, and
/// never the same as a number.
pub proof fn law_the_same_points_are_equal(a: Seq<PointBits>, b: Seq<PointBits>, i: int)
    ensures
        (forall|k: int|
            0 <= k < a.len() ==> is_number((#[trigger] a[k]).x) && is_number(a[k].y)) ==> (
        same_points(a, b) <==> a == b),
        same_points(a, b) && 0 <= i < a.len() ==> i < b.len() && is_number(a[i].x) == is_number(
            b[i].x,
        ) && is_number(a[i].y) == is_number(b[i].y),
        a.len() == b.len() && (forall|k: int|
            0 <= k < a.len() ==> !is_number((#[trigger] a[k]).x) && !is_number(a[k].y)
                && !is_number(b[k].x) && !is_number(b[k].y)) ==> same_points(a, b),
{
    if same_points(a, b) && 0 <= i < a.len() {
        assert(same_point(a[i], b[i]));
    }
    if forall|k: int| 0 <= k < a.len() ==> is_number((#[trigger] a[k]).x) && is_number(a[k].y) {
        if same_points(a, b) {
            assert forall|k: int| 0 <= k < a.len() implies a[k] == b[k] by {
                assert(same_point(a[k], b[k]));
            }
            assert(a =~= b);
        }
    }
}

} // verus!
