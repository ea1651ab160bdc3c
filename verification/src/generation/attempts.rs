//! Retries a map with one seed after the other.

use crate::generation::selection::SelectionError;
use crate::generation::{Generated, GenerationError};
use vstd::prelude::*;

verus! {

/// What a failed selection means for the map.
pub fn unsatisfied(_error: SelectionError) -> (e: GenerationError)
    ensures
        e == GenerationError::Unsatisfiable(0),
{
    GenerationError::Unsatisfiable(0)
}

/// The sum of a layout.
pub open spec fn total_stops(layout: Seq<u32>) -> nat
    decreases layout.len(),
{
    if layout.len() == 0 {
        0
    } else {
        total_stops(layout.drop_last()) + layout.last() as nat
    }
}

/// Whether there are at least two points for each stop of the layout.
pub fn enough_points(points: usize, layout: &Vec<u32>) -> (r: bool)
    ensures
        r == (points >= 2 * total_stops(layout@)),
{
    let mut sum: u128 = 0;
    let mut i: usize = 0;
    assert(layout@.len() == layout.len());
    while i < layout.len()
        invariant
            i <= layout@.len(),
            layout@.len() <= usize::MAX,
            sum == total_stops(layout@.take(i as int)),
            sum <= i * 0xffff_ffff,
        decreases layout@.len() - i,
    {
        proof {
            assert(layout@.take(i + 1).drop_last() =~= layout@.take(i as int));
            assert(i * 0xffff_ffff <= 0xffff_ffff_ffff_ffff * 0xffff_ffff) by (nonlinear_arith)
                requires
                    0 <= i <= 0xffff_ffff_ffff_ffff,
            ;
        }
        sum = sum + layout[i] as u128;
        i += 1;
    }
    proof {
        assert(layout@.take(i as int) =~= layout@);
        assert(i * 0xffff_ffff <= 0xffff_ffff_ffff_ffff * 0xffff_ffff) by (nonlinear_arith)
            requires
                0 <= i <= 0xffff_ffff_ffff_ffff,
        ;
    }
    points as u128 >= 2 * sum
}

/// The most stops that a stage has.
pub fn widest_stage(layout: &Vec<u32>) -> (most: u32)
    requires
        layout@.len() > 0,
    ensures
        layout@.contains(most),
        forall|i: int| 0 <= i < layout@.len() ==> (#[trigger] layout@[i]) <= most,
{
    let mut most = layout[0];
    let mut i: usize = 1;
    while i < layout.len()
        invariant
            1 <= i <= layout@.len(),
            layout@.contains(most),
            forall|j: int| 0 <= j < i ==> (#[trigger] layout@[j]) <= most,
        decreases layout@.len() - i,
    {
        if layout[i] > most {
            most = layout[i];
            assert(layout@[i as int] == most);
        }
        i += 1;
    }
    most
}

/// How many stage columns the points are spread over.
pub fn stage_columns(stages: u32, stage_buffer: u32) -> (n: u32)
    requires
        stages + 2 * stage_buffer <= u32::MAX,
    ensures
        n == stages + 2 * stage_buffer,
{
    stages + 2 * stage_buffer
}

/// The seed of an attempt: that of the map, moved on by the number of the attempt.
pub open spec fn attempt_seed(seed: u64, attempt: nat) -> u64 {
    ((seed + attempt) % 0x1_0000_0000_0000_0000) as u64
}

/// No seed is tried twice.
pub proof fn law_attempts_differ(seed: u64, i: u32, j: u32)
    requires
        i != j,
    ensures
        attempt_seed(seed, i as nat) != attempt_seed(seed, j as nat),
{
}

/// What a map fails with once every attempt has failed, the last one with `last`.
pub open spec fn final_error(last: GenerationError, max_attempts: u32) -> GenerationError {
    match last {
        GenerationError::Unsatisfiable(_) => GenerationError::Unsatisfiable(max_attempts),
        _ => last,
    }
}

/// `outcomes[k]` is what attempt `k` gave.
pub open spec fn tried<G, F: Fn(u64) -> Result<G, GenerationError>>(
    attempt: F,
    seed: u64,
    outcomes: Seq<Result<G, GenerationError>>,
) -> bool {
    forall|k: int|
        0 <= k < outcomes.len() ==> call_ensures(
            attempt,
            (attempt_seed(seed, k as nat),),
            #[trigger] outcomes[k],
        )
}

/// The attempts ended as they should: with the first success, or with the last one
/// that is allowed.
pub open spec fn ended<G>(
    outcomes: Seq<Result<G, GenerationError>>,
    max_attempts: u32,
) -> bool {
    &&& outcomes.len() <= max_attempts
    &&& forall|k: int| 0 <= k < outcomes.len() - 1 ==> (#[trigger] outcomes[k]) is Err
    &&& outcomes.len() < max_attempts ==> outcomes.len() > 0 && outcomes.last() is Ok
}

/// What the attempts come to.
pub open spec fn concluded<G>(
    outcomes: Seq<Result<G, GenerationError>>,
    max_attempts: u32,
) -> Result<G, GenerationError> {
    if outcomes.len() == 0 {
        Err(GenerationError::Unsatisfiable(max_attempts))
    } else {
        match outcomes.last() {
            Ok(g) => Ok(g),
            Err(last) => Err(final_error(last, max_attempts)),
        }
    }
}

/// Makes a map: hands one seed after the other to `attempt`, until that succeeds or
/// there have been `max_attempts` attempts. A layout that is too short gets none.
pub fn generate<G, F: Fn(u64) -> Result<G, GenerationError>>(
    layout: &Vec<u32>,
    seed: u64,
    max_attempts: u32,
    attempt: F,
) -> (r: Result<G, GenerationError>)
    requires
        forall|s: u64| call_requires(attempt, (s,)),
    ensures
        layout@.len() < 2 ==> r == Err::<G, GenerationError>(GenerationError::LayoutTooShort),
        layout@.len() >= 2 ==> exists|outcomes: Seq<Result<G, GenerationError>>| #[trigger]
            tried(attempt, seed, outcomes) && ended(outcomes, max_attempts) && r == concluded(
                outcomes,
                max_attempts,
            ),
{
    if layout.len() < 2 {
        return Err(GenerationError::LayoutTooShort);
    }
    let ghost mut outcomes: Seq<Result<G, GenerationError>> = Seq::empty();
    let mut last = GenerationError::Unsatisfiable(0);
    let mut made: u32 = 0;
    while made < max_attempts
        invariant
            forall|s: u64| call_requires(attempt, (s,)),
            layout@.len() >= 2,
            made <= max_attempts,
            outcomes.len() == made,
            tried(attempt, seed, outcomes),
            forall|k: int| 0 <= k < outcomes.len() ==> (#[trigger] outcomes[k]) is Err,
            made == 0 ==> last == GenerationError::Unsatisfiable(0),
            made > 0 ==> outcomes.last() == Err::<G, GenerationError>(last),
        decreases max_attempts - made,
    {
        let outcome = attempt(seed.wrapping_add(made as u64));
        proof {
            outcomes = outcomes.push(outcome);
            assert(tried(attempt, seed, outcomes));
        }
        match outcome {
            Ok(g) => {
                return Ok(g);
            },
            Err(e) => {
                last = e;
            },
        }
        made += 1;
    }
    match last {
        GenerationError::Unsatisfiable(_) => Err(GenerationError::Unsatisfiable(max_attempts)),
        e => Err(e),
    }
}

/// Where each attempt is decided by its seed, a map comes of the least attempt that
/// succeeds, and carries the seed of that attempt. If none of those that are allowed
/// succeeds, there is no map: a layout that cannot be satisfied is reported with the
/// number of attempts, and what else the last one failed with as it is.
pub proof fn law_least_success_wins(
    attempt: spec_fn(u64) -> Result<Generated, GenerationError>,
    seed: u64,
    max_attempts: u32,
    outcomes: Seq<Result<Generated, GenerationError>>,
)
    requires
        forall|k: int|
            0 <= k < outcomes.len() ==> #[trigger] outcomes[k] == attempt(
                attempt_seed(seed, k as nat),
            ),
        forall|s: u64| (#[trigger] attempt(s)) is Ok ==> attempt(s)->Ok_0.seed == s,
        ended(outcomes, max_attempts),
    ensures
        match concluded(outcomes, max_attempts) {
            Ok(g) => exists|k: nat|
                k < max_attempts && #[trigger] attempt(attempt_seed(seed, k)) == Ok::<
                    Generated,
                    GenerationError,
                >(g) && g.seed == attempt_seed(seed, k) && forall|j: nat|
                    j < k ==> (#[trigger] attempt(attempt_seed(seed, j))) is Err,
            Err(e) => {
                &&& forall|k: nat|
                    k < max_attempts ==> (#[trigger] attempt(attempt_seed(seed, k))) is Err
                &&& e matches GenerationError::Unsatisfiable(n) ==> n == max_attempts
                &&& e !is Unsatisfiable ==> max_attempts > 0 && attempt(
                    attempt_seed(seed, (max_attempts - 1) as nat),
                ) == Err::<Generated, GenerationError>(e)
            },
        },
{
    let n = outcomes.len();
    assert forall|j: nat| j + 1 < n implies (#[trigger] attempt(attempt_seed(seed, j))) is Err by {
        assert(outcomes[j as int] is Err);
    }
    if n > 0 {
        let k = (n - 1) as nat;
        assert(outcomes[k as int] == attempt(attempt_seed(seed, k)));
    }
}

/// The stops of a layout are counted stage by stage.
pub proof fn law_stops_add_up(a: Seq<u32>, b: Seq<u32>, n: u32)
    ensures
        total_stops(a + b) == total_stops(a) + total_stops(b),
        total_stops(seq![n]) == n,
    decreases b.len(),
{
    assert(seq![n].drop_last() =~= Seq::<u32>::empty());
    assert(total_stops(Seq::<u32>::empty()) == 0);
    if b.len() == 0 {
        assert(a + b =~= a);
    } else {
        law_stops_add_up(a, b.drop_last(), n);
        assert((a + b).drop_last() =~= a + b.drop_last());
    }
}

/// The first attempt has the seed of the map, and each attempt has the seed that
/// follows on that of the one before; the greatest seed is followed by zero.
pub proof fn law_each_attempt_has_the_next_seed(seed: u64, attempt: nat)
    ensures
        attempt_seed(seed, 0) == seed,
        attempt_seed(seed, attempt) < u64::MAX ==> attempt_seed(seed, attempt + 1) == attempt_seed(
            seed,
            attempt,
        ) + 1,
        attempt_seed(seed, attempt) == u64::MAX ==> attempt_seed(seed, attempt + 1) == 0,
{
}

/// How the attempts end, told by their outcomes: with the first success if there is
/// one, and then with what it gave; otherwise with the last of the attempts that are
/// allowed, and then with its error, where a layout that cannot be satisfied is
/// reported with the number of attempts.
pub proof fn law_attempts_end_with_the_first_success<G>(
    outcomes: Seq<Result<G, GenerationError>>,
    max_attempts: u32,
)
    requires
        ended(outcomes, max_attempts),
    ensures
        match concluded(outcomes, max_attempts) {
            Ok(g) => {
                &&& 0 < outcomes.len() <= max_attempts
                &&& outcomes[outcomes.len() - 1] == Ok::<G, GenerationError>(g)
                &&& forall|k: int| 0 <= k < outcomes.len() - 1 ==> (#[trigger] outcomes[k]) is Err
            },
            Err(e) => {
                &&& outcomes.len() == max_attempts
                &&& forall|k: int| 0 <= k < outcomes.len() ==> (#[trigger] outcomes[k]) is Err
                &&& outcomes.len() == 0 ==> e == GenerationError::Unsatisfiable(0)
                &&& outcomes.len() > 0 ==> {
                    let last = outcomes[outcomes.len() - 1]->Err_0;
                    if last is Unsatisfiable {
                        e == GenerationError::Unsatisfiable(max_attempts)
                    } else {
                        e == last
                    }
                }
            },
        },
{
}

/// Each outcome is what the attempt gave for its own seed: as far past the seed of the
/// map as attempts were made before, past the greatest seed on to zero.
pub proof fn law_each_outcome_comes_of_its_own_seed<
    G,
    F: Fn(u64) -> Result<G, GenerationError>,
>(attempt: F, seed: u64, outcomes: Seq<Result<G, GenerationError>>, k: int, own: u64)
    requires
        tried(attempt, seed, outcomes),
        0 <= k < outcomes.len() <= u32::MAX,
        own == seed + k || own + 0x1_0000_0000_0000_0000 == seed + k,
    ensures
        call_ensures(attempt, (own,), outcomes[k]),
{
    assert(own == attempt_seed(seed, k as nat));
}

} // verus!
