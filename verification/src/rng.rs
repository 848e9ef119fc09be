//! The seeded pseudo-random generator behind puzzle generation.
//!
//! `rand`'s `StdRng` is a deterministic generator: once seeded, every
//! value it produces is a pure function of the seed and of the draws made
//! before. `SeededRng` carries the `StdRng` together with a ghost record
//! of the seed and of the bounds drawn so far, and `draw_of` names the
//! draw that rand computes from them. The fields are private: only
//! `from_seed_key` builds a `SeededRng`, so the ghost record always
//! matches the generator's true state.

use vstd::prelude::*;

verus! {

#[verifier::external_type_specification]
#[verifier::external_body]
pub struct ExStdRng(rand::rngs::StdRng);

/// The number `rand` draws below `bound` from a `StdRng` that was seeded
/// with `seed` and has already drawn with the bounds in `past`.
pub uninterp spec fn draw_of(seed: Seq<u8>, past: Seq<u64>, bound: u64) -> u64;

/// A `StdRng` together with the seed and draw history that determine it.
pub struct SeededRng {
    rng: rand::rngs::StdRng,
    seed: Ghost<Seq<u8>>,
    past: Ghost<Seq<u64>>,
}

impl SeededRng {
    /// The 32-byte key the generator was seeded with.
    pub closed spec fn seed(&self) -> Seq<u8> {
        self.seed@
    }

    /// The bounds of the draws made so far.
    pub closed spec fn past(&self) -> Seq<u64> {
        self.past@
    }

    /// A generator seeded with the 32-byte `key` that has drawn nothing yet.
    pub(crate) fn from_seed_key(key: &Vec<u8>) -> (g: SeededRng)
        requires
            key@.len() == 32,
        ensures
            g.seed() == key@,
            g.past() == Seq::<u64>::empty(),
    {
        SeededRng { rng: std_rng_from_seed(key), seed: Ghost(key@), past: Ghost(Seq::empty()) }
    }

    /// Relies on rand's `Rng::gen_range` on the half-open range
    /// `0..bound`: it returns a value below `bound` (and panics on an
    /// empty range, hence the precondition), and on a deterministic
    /// `StdRng` that value is a function of the seed and the draws made
    /// before, here named `draw_of`.
    #[verifier::external_body]
    pub(crate) fn draw_below(&mut self, bound: u64) -> (r: u64)
        requires
            bound >= 1,
        ensures
            r < bound,
            r == draw_of(old(self).seed(), old(self).past(), bound),
            final(self).seed() == old(self).seed(),
            final(self).past() == old(self).past().push(bound),
    {
        rand::Rng::gen_range(&mut self.rng, 0..bound)
    }
}

/// Relies on rand's `StdRng::from_seed`: deterministic initialization of
/// the generator from a 32-byte key.
#[verifier::external_body]
fn std_rng_from_seed(key: &Vec<u8>) -> rand::rngs::StdRng
    requires
        key@.len() == 32,
{
    let mut k = [0u8; 32];
    k.copy_from_slice(key.as_slice());
    <rand::rngs::StdRng as rand::SeedableRng>::from_seed(k)
}

/// Relies on `str`'s `PartialEq`: equality of the two strings' characters.
#[verifier::external_body]
pub(crate) fn str_eq(a: &str, b: &str) -> (r: bool)
    ensures
        r == (a@ == b@),
{
    a == b
}

} // verus!
