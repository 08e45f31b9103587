//! The random number generators of the `rand` crate that the codec draws on.
use vstd::prelude::*;
use rand::rngs::{OsRng, StdRng};
use rand::seq::IteratorRandom;
use rand::{Rng, SeedableRng};

verus! {

#[verifier::external_type_specification]
#[verifier::external_body]
pub struct ExStdRng(StdRng);

/// Calls `SeedableRng::from_rng` of `rand` for `StdRng` with the operating
/// system's generator `OsRng`: a generator seeded from the system, or `None`
/// where the system gives no random bytes (the `rand_core` source hands on
/// the error of `getrandom` there, and does not panic). Nothing is promised
/// of the generator's state, nor of which of the two comes back.
#[verifier::external_body]
pub(crate) fn os_seeded_rng() -> Option<StdRng> {
    StdRng::from_rng(OsRng).ok()
}

/// Calls `Rng::gen::<u32>` of `rand` on `rng`: a random `u32`. Nothing is
/// promised of the value beyond its type, nor of the generator's new state.
#[verifier::external_body]
pub(crate) fn gen_u32(rng: &mut StdRng) -> u32 {
    rng.gen::<u32>()
}

/// The indices that `(0..n).choose_multiple` of `rand`, driven by
/// `StdRng::seed_from_u64(seed)`, picks when asked for `amount` of them.
pub uninterp spec fn spec_sample(seed: usize, n: usize, amount: usize) -> Seq<usize>;

/// Calls `StdRng::seed_from_u64` of `rand` with `seed`, then
/// `IteratorRandom::choose_multiple` on the range `0..n` with that generator.
/// Both are deterministic, so the result is named [`spec_sample`] of the
/// arguments. The `rand` source shows that the result holds `amount` distinct
/// indices below `n` when `amount <= n` (a reservoir filled from the range),
/// and the whole range in order when `amount >= n` (the range runs out
/// before the reservoir is full). It first allocates room for `amount`
/// indices, which fails on a capacity of more than `isize::MAX` bytes; the
/// `requires` keeps a larger `amount` to at most `n`.
#[verifier::external_body]
pub(crate) fn get_sample_from_rng_by_seed(seed: usize, n: usize, amount: usize) -> (sample: Vec<usize>)
    requires
        amount <= n || amount * 8 <= isize::MAX,
    ensures
        sample@ == spec_sample(seed, n, amount),
        sample@.len() == if amount <= n {
            amount
        } else {
            n
        },
        forall|i: int| 0 <= i < sample@.len() ==> #[trigger] sample@[i] < n,
        forall|i: int, j: int|
            0 <= i < j < sample@.len() ==> #[trigger] sample@[i] != #[trigger] sample@[j],
        amount >= n ==> sample@ == Seq::new(n as nat, |i: int| i as usize),
{
    let mut rng = StdRng::seed_from_u64(seed as u64);
    (0..n).choose_multiple(&mut rng, amount)
}

} // verus!
