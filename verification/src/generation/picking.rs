//! Bands of cells, and picks out of a sorted list.

use crate::sequences::{lemma_filter, lemma_push_contains};
use crate::spacing::{even_slot, slot};
use std::collections::HashSet;
use vstd::prelude::*;

verus! {

/// A cell whose column is `bin` belongs to band `b` of `stages`. Columns past the
/// last band count as the last one.
pub open spec fn in_band(bin: Option<usize>, stages: nat, b: int) -> bool {
    match bin {
        None => false,
        Some(column) => b == if column < stages {
            column as int
        } else {
            stages - 1
        },
    }
}

/// The cells of band `b`, in the order of their indices.
pub open spec fn band(bins: Seq<Option<usize>>, stages: nat, b: int) -> Seq<usize>
    decreases bins.len(),
{
    if bins.len() == 0 {
        Seq::empty()
    } else {
        let rest = band(bins.drop_last(), stages, b);
        if in_band(bins.last(), stages, b) {
            rest.push((bins.len() - 1) as usize)
        } else {
            rest
        }
    }
}

/// A band lists each of its cells once, and nothing else.
pub proof fn lemma_band(bins: Seq<Option<usize>>, stages: nat, b: int)
    requires
        bins.len() <= usize::MAX,
    ensures
        forall|i: int|
            0 <= i < band(bins, stages, b).len() ==> (#[trigger] band(bins, stages, b)[i])
                < bins.len() && in_band(bins[band(bins, stages, b)[i] as int], stages, b),
        forall|c: usize|
            c < bins.len() && #[trigger] in_band(bins[c as int], stages, b) ==> band(
                bins,
                stages,
                b,
            ).contains(c),
        band(bins, stages, b).no_duplicates(),
    decreases bins.len(),
{
    if bins.len() > 0 {
        let less = bins.drop_last();
        lemma_band(less, stages, b);
        let rest = band(less, stages, b);
        let all = band(bins, stages, b);
        let last = (bins.len() - 1) as usize;
        assert forall|i: int| 0 <= i < all.len() implies (#[trigger] all[i]) < bins.len()
            && in_band(bins[all[i] as int], stages, b) by {
            if i < rest.len() {
                assert(all[i] == rest[i]);
                assert(bins[rest[i] as int] == less[rest[i] as int]);
            }
        }
        assert forall|c: usize|
            c < bins.len() && #[trigger] in_band(bins[c as int], stages, b) implies all.contains(
            c,
        ) by {
            if c < less.len() {
                assert(in_band(less[c as int], stages, b));
                let i = choose|i: int| 0 <= i < rest.len() && rest[i] == c;
                assert(all[i] == c);
            } else {
                assert(all[all.len() - 1] == c);
            }
        }
    }
}

/// Sorts the cells into bands by their columns.
pub fn build_bands(bins: &Vec<Option<usize>>, stage_count: usize) -> (bands: Vec<Vec<usize>>)
    requires
        stage_count > 0,
    ensures
        bands@.len() == stage_count,
        forall|b: int|
            0 <= b < stage_count ==> (#[trigger] bands@[b])@ == band(
                bins@,
                stage_count as nat,
                b,
            ),
{
    let mut bands: Vec<Vec<usize>> = Vec::new();
    let mut b: usize = 0;
    while b < stage_count
        invariant
            b <= stage_count,
            bands@.len() == b,
            forall|j: int| 0 <= j < b ==> (#[trigger] bands@[j])@ == Seq::<usize>::empty(),
        decreases stage_count - b,
    {
        bands.push(Vec::new());
        b += 1;
    }
    assert(bins@.take(0) =~= Seq::<Option<usize>>::empty());
    let mut i: usize = 0;
    while i < bins.len()
        invariant
            stage_count > 0,
            i <= bins@.len(),
            bands@.len() == stage_count,
            forall|b: int|
                0 <= b < stage_count ==> (#[trigger] bands@[b])@ == band(
                    bins@.take(i as int),
                    stage_count as nat,
                    b,
                ),
        decreases bins@.len() - i,
    {
        assert(bins@.take(i + 1).drop_last() =~= bins@.take(i as int));
        if let Some(column) = bins[i] {
            let bin: usize = if column < stage_count {
                column
            } else {
                stage_count - 1
            };
            bands[bin].push(i);
        }
        i += 1;
    }
    assert(bins@.take(bins@.len() as int) =~= bins@);
    bands
}

/// The first of `left` places of `sorted` from `at` on, past the end on to the
/// start, whose cell is not taken.
pub open spec fn probe(sorted: Seq<usize>, taken: Seq<usize>, at: int, left: nat) -> Option<int>
    decreases left,
{
    if left == 0 {
        None
    } else if !taken.contains(sorted[at]) {
        Some(at)
    } else {
        probe(sorted, taken, (at + 1) % (sorted.len() as int), (left - 1) as nat)
    }
}

/// `chosen` with the first `k` of `n` evenly spaced picks out of `sorted`. A pick
/// whose place is taken goes on to the next free one.
pub open spec fn picked(sorted: Seq<usize>, n: nat, k: nat, chosen: Seq<usize>) -> Seq<usize>
    decreases k,
{
    if k == 0 {
        chosen
    } else {
        let before = picked(sorted, n, (k - 1) as nat, chosen);
        match probe(
            sorted,
            before,
            slot((k - 1) as nat, n, sorted.len()) as int,
            sorted.len(),
        ) {
            Some(at) => before.push(sorted[at]),
            None => before,
        }
    }
}

/// Looking on from `at`, a place that is taken makes no difference when every
/// other place is taken too.
proof fn lemma_probe_full(sorted: Seq<usize>, taken: Seq<usize>, at: int, left: nat)
    requires
        0 <= at < sorted.len(),
        forall|i: int| 0 <= i < sorted.len() ==> taken.contains(#[trigger] sorted[i]),
    ensures
        probe(sorted, taken, at, left) is None,
    decreases left,
{
    if left > 0 {
        lemma_probe_full(sorted, taken, (at + 1) % (sorted.len() as int), (left - 1) as nat);
    }
}

/// A probe that visits every place and finds none free has found them all taken.
proof fn lemma_probe_found(sorted: Seq<usize>, taken: Seq<usize>, at: int, left: nat)
    requires
        0 <= at < sorted.len(),
        left <= sorted.len(),
    ensures
        match probe(sorted, taken, at, left) {
            Some(i) => 0 <= i < sorted.len() && !taken.contains(sorted[i]),
            None => forall|j: int|
                0 <= j < left ==> taken.contains(
                    sorted[#[trigger] ((at + j) % (sorted.len() as int))],
                ),
        },
    decreases left,
{
    if left > 0 && taken.contains(sorted[at]) {
        let len = sorted.len() as int;
        let next = (at + 1) % len;
        lemma_probe_found(sorted, taken, next, (left - 1) as nat);
        if probe(sorted, taken, at, left) is None {
            assert forall|j: int| 0 <= j < left implies taken.contains(
                sorted[#[trigger] ((at + j) % len)],
            ) by {
                if j == 0 {
                    assert(at % len == at) by (nonlinear_arith)
                        requires
                            0 <= at < len,
                    ;
                } else {
                    let _ = (next + (j - 1)) % len;
                    assert((next + (j - 1)) % len == (at + j) % len) by {
                        vstd::arithmetic::div_mod::lemma_add_mod_noop(at + 1, j - 1, len);
                        vstd::arithmetic::div_mod::lemma_add_mod_noop(next, j - 1, len);
                        vstd::arithmetic::div_mod::lemma_mod_twice(at + 1, len);
                    }
                }
            }
        }
    }
}

/// Once every place is taken, the remaining picks add nothing.
proof fn lemma_picked_full(sorted: Seq<usize>, n: nat, k: nat, upto: nat, chosen: Seq<usize>)
    requires
        k <= upto <= n,
        sorted.len() > 0,
        forall|i: int|
            0 <= i < sorted.len() ==> picked(sorted, n, k, chosen).contains(#[trigger] sorted[i]),
    ensures
        picked(sorted, n, upto, chosen) == picked(sorted, n, k, chosen),
    decreases upto,
{
    if k < upto {
        lemma_picked_full(sorted, n, k, (upto - 1) as nat, chosen);
        let at = slot((upto - 1) as nat, n, sorted.len()) as int;
        lemma_probe_full(sorted, picked(sorted, n, k, chosen), at, sorted.len());
    }
}

/// How many cells of `sorted` are not chosen yet.
pub open spec fn free(sorted: Seq<usize>, chosen: Seq<usize>) -> nat {
    sorted.filter(|c: usize| !chosen.contains(c)).len()
}

/// Puts `n` evenly spaced picks out of `sorted` into `out`, without those that are
/// in it already. `members` holds what `out` holds. If no cell is listed twice, `n`
/// cells are added, or all that are free if those are fewer.
pub fn pick_into(
    sorted: &Vec<usize>,
    n: usize,
    out: &mut Vec<usize>,
    members: &mut HashSet<usize>,
)
    requires
        old(members)@ == old(out)@.to_set(),
    ensures
        final(out)@ == picked(sorted@, n as nat, n as nat, old(out)@),
        final(members)@ == final(out)@.to_set(),
        sorted@.no_duplicates() ==> final(out)@.len() == old(out)@.len() + if n < free(
            sorted@,
            old(out)@,
        ) {
            n as nat
        } else {
            free(sorted@, old(out)@)
        },
{
    broadcast use vstd::std_specs::hash::group_hash_axioms;

    let len = sorted.len();
    proof {
        if sorted@.no_duplicates() {
            law_picks_fill_what_is_free(sorted@, n as nat, n as nat, old(out)@);
        }
    }
    if len == 0 {
        proof {
            lemma_picked_of_nothing(sorted@, n as nat, n as nat, old(out)@);
        }
        return ;
    }
    let mut k: usize = 0;
    while k < n
        invariant
            len > 0,
            len == sorted@.len(),
            k <= n,
            members@ == out@.to_set(),
            out@ == picked(sorted@, n as nat, k as nat, old(out)@),
        decreases n - k,
    {
        broadcast use vstd::std_specs::hash::group_hash_axioms;

        let start = even_slot(k, n, len);
        let mut at: usize = start;
        let mut left: usize = len;
        let ghost taken = out@;
        while left > 0 && members.contains(&sorted[at])
            invariant
                len == sorted@.len(),
                at < len,
                left <= len,
                members@ == taken.to_set(),
                probe(sorted@, taken, start as int, len as nat) == probe(
                    sorted@,
                    taken,
                    at as int,
                    left as nat,
                ),
            decreases left,
        {
            broadcast use vstd::std_specs::hash::group_hash_axioms;

            assert(taken.to_set().contains(sorted@[at as int]));
            at = (at + 1) % len;
            left -= 1;
        }
        if left == 0 {
            proof {
                lemma_probe_found(sorted@, taken, start as int, len as nat);
                assert forall|i: int| 0 <= i < sorted@.len() implies taken.contains(
                    #[trigger] sorted@[i],
                ) by {
                    let j = if i >= start {
                        i - start
                    } else {
                        i + len - start
                    };
                    assert((start + j) % (len as int) == i) by (nonlinear_arith)
                        requires
                            start + j == i || start + j == i + len,
                            0 <= i < len,
                    ;
                }
                lemma_picked_full(sorted@, n as nat, k as nat, n as nat, old(out)@);
                if sorted@.no_duplicates() {
                    law_picks_fill_what_is_free(sorted@, n as nat, n as nat, old(out)@);
                }
            }
            return ;
        }
        let c = sorted[at];
        proof {
            taken.lemma_push_to_set_commute(c);
        }
        out.push(c);
        members.insert(c);
        k += 1;
    }
}

/// Picks add cells of `sorted` only, none of them twice; where there is room for
/// all of them, they add as many as asked for.
pub proof fn lemma_picked(sorted: Seq<usize>, n: nat, k: nat, chosen: Seq<usize>)
    requires
        k <= n <= sorted.len(),
        chosen.no_duplicates(),
    ensures
        picked(sorted, n, k, chosen).no_duplicates(),
        chosen.len() <= picked(sorted, n, k, chosen).len() <= chosen.len() + k,
        forall|i: int|
            0 <= i < chosen.len() ==> picked(sorted, n, k, chosen)[i] == #[trigger] chosen[i],
        forall|i: int|
            chosen.len() <= i < picked(sorted, n, k, chosen).len() ==> sorted.contains(
                #[trigger] picked(sorted, n, k, chosen)[i],
            ),
        sorted.no_duplicates() && (forall|i: int|
            0 <= i < sorted.len() ==> !chosen.contains(#[trigger] sorted[i])) ==> picked(
            sorted,
            n,
            k,
            chosen,
        ).len() == chosen.len() + k,
    decreases k,
{
    if k > 0 {
        let prev = (k - 1) as nat;
        lemma_picked(sorted, n, prev, chosen);
        let before = picked(sorted, n, prev, chosen);
        let len = sorted.len() as int;
        let start = slot(prev, n, sorted.len()) as int;
        lemma_probe_found(sorted, before, start, sorted.len());
        if probe(sorted, before, start, sorted.len()) is None && sorted.no_duplicates() && (
        forall|i: int| 0 <= i < sorted.len() ==> !chosen.contains(#[trigger] sorted[i])) {
            let extra = before.skip(chosen.len() as int);
            assert forall|c: usize| #[trigger] sorted.to_set().contains(
                c,
            ) implies extra.to_set().contains(c) by {
                let i = choose|i: int| 0 <= i < sorted.len() && sorted[i] == c;
                let j = if i >= start {
                    i - start
                } else {
                    i + len - start
                };
                assert((start + j) % len == i) by (nonlinear_arith)
                    requires
                        start + j == i || start + j == i + len,
                        0 <= i < len,
                ;
                assert(before.contains(sorted[i]));
                let at = choose|at: int| 0 <= at < before.len() && before[at] == c;
                if at < chosen.len() {
                    assert(chosen[at] == sorted[i]);
                    assert(false);
                }
                assert(extra[at - chosen.len()] == c);
            }
            assert(extra.no_duplicates());
            sorted.unique_seq_to_set();
            extra.unique_seq_to_set();
            vstd::set_lib::lemma_len_subset(sorted.to_set(), extra.to_set());
            assert(false);
        }
    }
}

proof fn lemma_picked_of_nothing(sorted: Seq<usize>, n: nat, k: nat, chosen: Seq<usize>)
    requires
        sorted.len() == 0,
    ensures
        picked(sorted, n, k, chosen) == chosen,
    decreases k,
{
    if k > 0 {
        lemma_picked_of_nothing(sorted, n, (k - 1) as nat, chosen);
    }
}

/// Picks out of a list that holds no cell twice keep what is chosen, add cells of the
/// list that are not, none of them twice, and add as many as asked for, or all that
/// are free if those are fewer.
pub proof fn law_picks_fill_what_is_free(sorted: Seq<usize>, n: nat, k: nat, chosen: Seq<usize>)
    requires
        k <= n,
        sorted.no_duplicates(),
    ensures
        ({
            let now = picked(sorted, n, k, chosen);
            &&& now.len() == chosen.len() + if k < free(sorted, chosen) {
                k
            } else {
                free(sorted, chosen)
            }
            &&& now.take(chosen.len() as int) == chosen
            &&& now.skip(chosen.len() as int).no_duplicates()
            &&& forall|c: usize| #[trigger]
                now.skip(chosen.len() as int).contains(c) ==> sorted.contains(c)
                    && !chosen.contains(c)
        }),
    decreases k,
{
    let keep = |c: usize| !chosen.contains(c);
    let spare = sorted.filter(keep);
    lemma_filter(sorted, keep);
    spare.unique_seq_to_set();
    if k == 0 {
        assert(chosen.take(chosen.len() as int) =~= chosen);
        assert(chosen.skip(chosen.len() as int) =~= Seq::empty());
    } else if sorted.len() == 0 {
        lemma_picked_of_nothing(sorted, n, k, chosen);
        assert(chosen.take(chosen.len() as int) =~= chosen);
        assert(chosen.skip(chosen.len() as int) =~= Seq::empty());
        assert(spare =~= Seq::empty()) by {
            if spare.len() > 0 {
                assert(spare.contains(spare[0]));
                assert(sorted.contains(spare[0]));
            }
        }
    } else {
        let prev = (k - 1) as nat;
        law_picks_fill_what_is_free(sorted, n, prev, chosen);
        let before = picked(sorted, n, prev, chosen);
        let extra = before.skip(chosen.len() as int);
        let len = sorted.len() as int;
        let start = slot(prev, n, sorted.len()) as int;
        lemma_probe_found(sorted, before, start, sorted.len());
        assert(before =~= chosen + extra) by {
            assert(before.take(chosen.len() as int) + extra =~= before);
        }
        assert forall|c: usize| #[trigger] before.contains(c) <==> chosen.contains(c)
            || extra.contains(c) by {
            if chosen.contains(c) {
                let i = choose|i: int| 0 <= i < chosen.len() && chosen[i] == c;
                assert(before[i] == c);
            }
            if extra.contains(c) {
                let i = choose|i: int| 0 <= i < extra.len() && extra[i] == c;
                assert(before[chosen.len() + i] == c);
            }
            if before.contains(c) {
                let i = choose|i: int| 0 <= i < before.len() && before[i] == c;
                if i < chosen.len() {
                    assert(chosen[i] == c);
                } else {
                    assert(extra[i - chosen.len()] == c);
                }
            }
        }
        extra.unique_seq_to_set();
        assert forall|c: usize| #[trigger] extra.to_set().contains(c) implies spare.to_set().contains(
            c,
        ) by {
            assert(extra.contains(c));
            assert(spare.contains(c));
        }
        match probe(sorted, before, start, sorted.len()) {
            Some(at) => {
                let c = sorted[at];
                let now = before.push(c);
                assert(now.take(chosen.len() as int) =~= before.take(chosen.len() as int));
                assert(now.skip(chosen.len() as int) =~= extra.push(c));
                assert(sorted.contains(c));
                assert(!before.contains(c));
                assert(!chosen.contains(c) && !extra.contains(c));
                assert(spare.contains(c));
                assert(extra.to_set().insert(c).subset_of(spare.to_set()));
                vstd::set_lib::lemma_len_subset(extra.to_set().insert(c), spare.to_set());
                assert forall|x: usize| #[trigger] extra.push(c).contains(x) implies sorted.contains(
                    x,
                ) && !chosen.contains(x) by {
                    lemma_push_contains(extra, c, x);
                }
            },
            None => {
                assert forall|c: usize| #[trigger] spare.to_set().contains(
                    c,
                ) implies extra.to_set().contains(c) by {
                    assert(spare.contains(c));
                    assert(sorted.contains(c) && keep(c));
                    let i = choose|i: int| 0 <= i < sorted.len() && sorted[i] == c;
                    let j = if i >= start {
                        i - start
                    } else {
                        i + len - start
                    };
                    assert((start + j) % len == i) by (nonlinear_arith)
                        requires
                            start + j == i || start + j == i + len,
                            0 <= i < len,
                    ;
                    assert(before.contains(sorted[i]));
                }
                assert(spare.to_set() =~= extra.to_set());
            },
        }
    }
}

/// The cells whose column is `b`; for the last of the columns, also those whose column
/// lies beyond it.
pub open spec fn column(bins: Seq<Option<usize>>, stages: nat, b: int) -> Set<usize> {
    Set::new(
        |c: usize|
            c < bins.len() && bins[c as int] is Some && (bins[c as int]->Some_0 == b || (b == stages
                - 1 && bins[c as int]->Some_0 >= stages)),
    )
}

/// A band lists the cells of its column, all of them, each once and in the order of
/// their indices.
pub proof fn law_a_band_lists_its_column(bins: Seq<Option<usize>>, stages: nat, b: int)
    requires
        bins.len() <= usize::MAX,
        0 <= b < stages,
    ensures
        forall|c: usize| #[trigger]
            band(bins, stages, b).contains(c) <==> column(bins, stages, b).contains(c),
        band(bins, stages, b).to_set() == column(bins, stages, b),
        column(bins, stages, b).finite(),
        band(bins, stages, b).len() == column(bins, stages, b).len(),
        forall|i: int, j: int|
            0 <= i < j < band(bins, stages, b).len() ==> (#[trigger] band(bins, stages, b)[i])
                < #[trigger] band(bins, stages, b)[j],
{
    lemma_band(bins, stages, b);
    lemma_band_rises(bins, stages, b);
    let all = band(bins, stages, b);
    assert forall|c: usize| #[trigger] all.contains(c) <==> column(bins, stages, b).contains(c) by {
        if all.contains(c) {
            let i = choose|i: int| 0 <= i < all.len() && all[i] == c;
            assert(in_band(bins[all[i] as int], stages, b));
        }
        if column(bins, stages, b).contains(c) {
            assert(in_band(bins[c as int], stages, b));
        }
    }
    assert(all.to_set() =~= column(bins, stages, b));
    all.unique_seq_to_set();
}

proof fn lemma_band_rises(bins: Seq<Option<usize>>, stages: nat, b: int)
    requires
        bins.len() <= usize::MAX,
    ensures
        forall|i: int, j: int|
            0 <= i < j < band(bins, stages, b).len() ==> (#[trigger] band(bins, stages, b)[i])
                < #[trigger] band(bins, stages, b)[j],
    decreases bins.len(),
{
    if bins.len() > 0 {
        let less = bins.drop_last();
        lemma_band_rises(less, stages, b);
        lemma_band(less, stages, b);
    }
}

/// A pick goes to its place in the list or, where the cell there is taken, to the next
/// place whose cell is not, past the end on to the start. If all are taken, it is not
/// made.
pub proof fn law_a_pick_goes_to_the_next_free_place(
    sorted: Seq<usize>,
    n: nat,
    k: nat,
    chosen: Seq<usize>,
)
    requires
        k < n,
        sorted.len() > 0,
    ensures
        ({
            let before = picked(sorted, n, k, chosen);
            let now = picked(sorted, n, k + 1, chosen);
            let len = sorted.len() as int;
            let start = slot(k, n, sorted.len()) as int;
            ||| now == before && forall|j: int|
                0 <= j < len ==> before.contains(sorted[#[trigger] ((start + j) % len)])
            ||| exists|j: int|
                0 <= j < len && now == before.push(sorted[#[trigger] ((start + j) % len)])
                    && !before.contains(sorted[(start + j) % len]) && forall|i: int|
                    0 <= i < j ==> before.contains(sorted[#[trigger] ((start + i) % len)])
        }),
{
    let before = picked(sorted, n, k, chosen);
    let start = slot(k, n, sorted.len()) as int;
    lemma_probe_found(sorted, before, start, sorted.len());
    if probe(sorted, before, start, sorted.len()) is Some {
        let j = lemma_probe_place(sorted, before, start, sorted.len());
        let len = sorted.len() as int;
        assert(0 <= (start + j) % len);
    }
}

/// Where a probe ends: at the first free place.
proof fn lemma_probe_place(sorted: Seq<usize>, taken: Seq<usize>, at: int, left: nat) -> (j: int)
    requires
        0 <= at < sorted.len(),
        left <= sorted.len(),
        probe(sorted, taken, at, left) is Some,
    ensures
        0 <= j < left,
        probe(sorted, taken, at, left) == Some((at + j) % (sorted.len() as int)),
        !taken.contains(sorted[(at + j) % (sorted.len() as int)]),
        forall|i: int|
            0 <= i < j ==> taken.contains(sorted[#[trigger] ((at + i) % (sorted.len() as int))]),
    decreases left,
{
    let len = sorted.len() as int;
    assert(at % len == at) by (nonlinear_arith)
        requires
            0 <= at < len,
    ;
    if !taken.contains(sorted[at]) {
        assert((at + 0) % len == at);
        0
    } else {
        let next = (at + 1) % len;
        let j = lemma_probe_place(sorted, taken, next, (left - 1) as nat);
        assert forall|i: int| 0 <= i <= j implies #[trigger] ((at + (i + 1)) % len) == (next + i)
            % len by {
            vstd::arithmetic::div_mod::lemma_add_mod_noop(at + 1, i, len);
            vstd::arithmetic::div_mod::lemma_add_mod_noop(next, i, len);
            vstd::arithmetic::div_mod::lemma_mod_twice(at + 1, len);
        }
        assert((at + (j + 1)) % len == (next + j) % len);
        assert forall|i: int| 0 <= i < j + 1 implies taken.contains(
            sorted[#[trigger] ((at + i) % len)],
        ) by {
            if i == 0 {
                assert((at + i) % len == at);
            } else {
                let h = i - 1;
                assert((at + (h + 1)) % len == (next + h) % len);
                assert(taken.contains(sorted[(next + h) % len]));
            }
        }
        j + 1
    }
}

} // verus!
