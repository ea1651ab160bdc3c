//! The random streams that maps are drawn from.

use rand::rngs::StdRng;
use rand::{Rng, SeedableRng};
use vstd::prelude::*;

verus! {

/// The generator of `rand`. Nothing is known of its inside.
#[verifier::external_type_specification]
#[verifier::external_body]
pub struct ExStdRng(StdRng);

/// The generator that `StdRng::seed_from_u64` makes of a seed.
pub uninterp spec fn seeded(seed: u64) -> StdRng;

/// The integer that `Rng::random` draws next.
pub uninterp spec fn drawn_word(rng: StdRng) -> u64;

/// The generator after that draw.
pub uninterp spec fn past_word(rng: StdRng) -> StdRng;

/// The index below `n` that `Rng::random_range` draws next.
pub uninterp spec fn drawn_index(rng: StdRng, n: usize) -> usize;

/// The generator after that draw.
pub uninterp spec fn past_index(rng: StdRng, n: usize) -> StdRng;

/// `StdRng::seed_from_u64`: the generator is a function of the seed.
#[verifier::external_body]
pub(crate) fn seed_rng(seed: u64) -> (rng: StdRng)
    ensures
        rng == seeded(seed),
{
    StdRng::seed_from_u64(seed)
}

/// `Rng::random` on the thread's own generator, which the system seeds: any word
/// can come.
#[verifier::external_body]
fn entropy_word() -> (word: u64) {
    rand::rng().random()
}

/// `Rng::random`: the word and the generator that it leaves are functions of the
/// generator.
#[verifier::external_body]
fn draw_word(rng: &mut StdRng) -> (word: u64)
    ensures
        word == drawn_word(*old(rng)),
        *final(rng) == past_word(*old(rng)),
{
    rng.random()
}

/// `Rng::random_range` on `0..n`: an index below `n`. It and the generator that it
/// leaves are functions of the generator and `n`. An empty range panics.
#[verifier::external_body]
pub(crate) fn draw_index(rng: &mut StdRng, n: usize) -> (index: usize)
    requires
        n > 0,
    ensures
        index < n,
        index == drawn_index(*old(rng), n),
        *final(rng) == past_index(*old(rng), n),
{
    rng.random_range(0..n)
}

/// The stream that seeds maps which bring no seed of their own.
pub struct LevelMapRng(pub StdRng);

impl LevelMapRng {
    /// A stream that the seed fixes.
    pub fn from_seed(seed: u64) -> (rng: Self)
        ensures
            rng.0 == seeded(seed),
    {
        LevelMapRng(seed_rng(seed))
    }

    /// A stream with a seed from the system.
    pub fn from_entropy() -> (rng: Self)
        ensures
            exists|seed: u64| rng.0 == #[trigger] seeded(seed),
    {
        LevelMapRng(seed_rng(entropy_word()))
    }

    /// A stream with the given seed, if there is one, or else with one from the system.
    pub fn from_option(seed: Option<u64>) -> (rng: Self)
        ensures
            match seed {
                Some(s) => rng.0 == seeded(s),
                None => exists|s: u64| rng.0 == #[trigger] seeded(s),
            },
    {
        match seed {
            Some(s) => Self::from_seed(s),
            None => Self::from_entropy(),
        }
    }

    /// The seed of a map: the one that it brings, or else the next one of the stream.
    /// The stream moves on only in the latter case.
    pub fn seed_for(&mut self, seed: Option<u64>) -> (r: u64)
        ensures
            match seed {
                Some(s) => r == s && final(self).0 == old(self).0,
                None => r == drawn_word(old(self).0) && final(self).0 == past_word(old(self).0),
            },
    {
        match seed {
            Some(s) => s,
            None => self.next_seed(),
        }
    }

    /// Draws the seed of one map. The stream moves on.
    pub fn next_seed(&mut self) -> (seed: u64)
        ensures
            seed == drawn_word(old(self).0),
            final(self).0 == past_word(old(self).0),
    {
        draw_word(&mut self.0)
    }
}

/// The stream after a series of maps, each of which may bring a seed.
pub open spec fn stream_after(rng: StdRng, brought: Seq<Option<u64>>) -> StdRng
    decreases brought.len(),
{
    if brought.len() == 0 {
        rng
    } else {
        let before = stream_after(rng, brought.drop_last());
        match brought.last() {
            Some(_) => before,
            None => past_word(before),
        }
    }
}

/// The seeds of a series of maps, each of which may bring its own.
pub open spec fn seeds_of(rng: StdRng, brought: Seq<Option<u64>>) -> Seq<u64>
    decreases brought.len(),
{
    if brought.len() == 0 {
        Seq::empty()
    } else {
        let rest = brought.drop_last();
        seeds_of(rng, rest).push(
            match brought.last() {
                Some(seed) => seed,
                None => drawn_word(stream_after(rng, rest)),
            },
        )
    }
}

/// Streams with the same seed give the same seeds to the same series of maps.
pub proof fn law_a_seed_fixes_the_series(
    a: LevelMapRng,
    b: LevelMapRng,
    seed: u64,
    brought: Seq<Option<u64>>,
)
    requires
        a.0 == seeded(seed),
        b.0 == seeded(seed),
    ensures
        seeds_of(a.0, brought) == seeds_of(b.0, brought),
{
}

/// A map that brings its seed gets it, and does not change the seeds of the maps
/// around it.
pub proof fn law_a_brought_seed_changes_no_other(
    rng: StdRng,
    brought: Seq<Option<u64>>,
    at: int,
    seed: u64,
)
    requires
        0 <= at <= brought.len(),
    ensures
        seeds_of(rng, brought.insert(at, Some(seed))) == seeds_of(rng, brought).insert(at, seed),
        stream_after(rng, brought.insert(at, Some(seed))) == stream_after(rng, brought),
    decreases brought.len(),
{
    let more = brought.insert(at, Some(seed));
    lemma_seeds_len(rng, brought);
    if at == brought.len() {
        assert(more.drop_last() =~= brought);
        assert(seeds_of(rng, more) =~= seeds_of(rng, brought).insert(at, seed));
    } else {
        let rest = brought.drop_last();
        law_a_brought_seed_changes_no_other(rng, rest, at, seed);
        lemma_seeds_len(rng, rest);
        assert(more.drop_last() =~= rest.insert(at, Some(seed)));
        assert(more.last() == brought.last());
        assert(seeds_of(rng, more) =~= seeds_of(rng, brought).insert(at, seed));
    }
}

proof fn lemma_seeds_len(rng: StdRng, brought: Seq<Option<u64>>)
    ensures
        seeds_of(rng, brought).len() == brought.len(),
    decreases brought.len(),
{
    if brought.len() > 0 {
        lemma_seeds_len(rng, brought.drop_last());
    }
}

} // verus!
