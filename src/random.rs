use vstd::prelude::*;
use rand::rngs::StdRng;
use rand::seq::SliceRandom;
use rand::{Rng, SeedableRng};
use crate::operators::input_order;

verus! {

#[verifier::external_type_specification]
#[verifier::external_body]
pub struct ExStdRng(StdRng);

/// Relies on rand's `SeedableRng::seed_from_u64`: a generator fixed by the seed.
#[verifier::external_body]
fn seed_generator(seed: u64) -> (r: StdRng) {
    StdRng::seed_from_u64(seed)
}

/// Relies on rand's `Rng::gen_range` on `lo..hi`: a value in the range, which
/// it requires to be non-empty.
#[verifier::external_body]
fn gen_range_in(rng: &mut StdRng, lo: usize, hi: usize) -> (r: usize)
    requires
        lo < hi,
    ensures
        lo <= r < hi,
{
    rng.gen_range(lo..hi)
}

/// Relies on rand's `Rng::gen_ratio`, which panics unless `0 < den` and
/// `num <= den`; its Bernoulli draw is never true at ratio 0 and always at 1.
#[verifier::external_body]
fn gen_ratio_of(rng: &mut StdRng, num: u32, den: u32) -> (r: bool)
    requires
        0 < den,
        num <= den,
    ensures
        num == 0 ==> !r,
        num == den ==> r,
{
    rng.gen_ratio(num, den)
}

/// Relies on rand's `SliceRandom::shuffle`: it only swaps elements.
#[verifier::external_body]
fn shuffle_indices(rng: &mut StdRng, v: &mut Vec<usize>)
    ensures
        final(v)@.to_multiset() == old(v)@.to_multiset(),
        final(v)@.len() == old(v)@.len(),
        forall|i: int| 0 <= i < final(v)@.len() ==> old(v)@.contains(#[trigger] final(v)@[i]),
{
    v.shuffle(rng)
}

/// Relies on rand's `SliceRandom::choose`: `None` on an empty slice, else one
/// of its elements.
#[verifier::external_body]
fn choose_pair(rng: &mut StdRng, v: &Vec<(usize, usize)>) -> (r: Option<(usize, usize)>)
    ensures
        r is None <==> v@.len() == 0,
        r matches Some(x) ==> v@.contains(x),
{
    v.choose(rng).copied()
}

/// The one pseudorandom stream that a search draws all its choices from.
pub struct Random {
    rng: StdRng,
}

impl Random {
    /// A stream fixed by `seed`: equal seeds give equal searches.
    pub fn from_seed(seed: u64) -> (r: Random) {
        Random { rng: seed_generator(seed) }
    }

    /// A value in `lo..hi`.
    pub fn below_from(&mut self, lo: usize, hi: usize) -> (r: usize)
        requires
            lo < hi,
        ensures
            lo <= r < hi,
    {
        gen_range_in(&mut self.rng, lo, hi)
    }

    /// True with probability `num / den`.
    pub fn chance(&mut self, num: u32, den: u32) -> (r: bool)
        requires
            0 < den,
            num <= den,
        ensures
            num == 0 ==> !r,
            num == den ==> r,
    {
        gen_ratio_of(&mut self.rng, num, den)
    }

    /// A random permutation of `0..n`.
    pub fn permutation(&mut self, n: usize) -> (r: Vec<usize>)
        ensures
            r@.len() == n,
            r@.to_multiset() == Seq::new(n as nat, |i: int| i as usize).to_multiset(),
            forall|i: int| 0 <= i < r@.len() ==> #[trigger] r@[i] < n,
    {
        let mut v = input_order(n);
        let ghost before = v@;
        shuffle_indices(&mut self.rng, &mut v);
        assert forall|i: int| 0 <= i < v@.len() implies #[trigger] v@[i] < n by {
            assert(before.contains(v@[i]));
        }
        v
    }

    /// One of the pairs, `None` only where there is none.
    pub fn pick(&mut self, pairs: &Vec<(usize, usize)>) -> (r: Option<(usize, usize)>)
        ensures
            r is None <==> pairs@.len() == 0,
            r matches Some(x) ==> pairs@.contains(x),
    {
        choose_pair(&mut self.rng, pairs)
    }
}

} // verus!
