//! A seedable source of random configurations with a finite supply.

use rand::rngs::StdRng;
use rand::Rng;
use rand::SeedableRng;
use vstd::prelude::*;

verus! {

#[verifier::external_type_specification]
#[verifier::external_body]
pub struct ExStdRng(rand::rngs::StdRng);

/// Calls `rand::SeedableRng::seed_from_u64` for `rand::rngs::StdRng`. The
/// generator that comes back is taken as it is: nothing is claimed of it.
#[verifier::external_body]
fn seeded_rng(seed: u64) -> StdRng {
    StdRng::seed_from_u64(seed)
}

/// Calls `rand::Rng::gen_range` on the inclusive range from `lo` to `hi`.
/// The range must not be empty, or the call would panic; the value drawn
/// lies in it. Nothing else is claimed of the value.
#[verifier::external_body]
fn draw_between(rng: &mut StdRng, lo: i32, hi: i32) -> (value: i32)
    requires
        lo <= hi,
    ensures
        lo <= value <= hi,
{
    rng.gen_range(lo..=hi)
}

/// A random source that hands out a bounded number of configurations.
pub struct SampleSource {
    rng: StdRng,
    remaining: u64,
    drawn: Ghost<Seq<[i32; 2]>>,
}

impl SampleSource {
    /// How many configurations the source can still hand out.
    pub closed spec fn remaining(&self) -> nat {
        self.remaining as nat
    }

    /// The configurations that the source has handed out so far, in their
    /// order.
    pub closed spec fn drawn(&self) -> Seq<[i32; 2]> {
        self.drawn@
    }

    /// A source seeded with `seed` that hands out `supply` configurations.
    pub fn seeded(seed: u64, supply: u64) -> (source: Self)
        ensures
            source.remaining() == supply,
            source.drawn() == Seq::<[i32; 2]>::empty(),
    {
        SampleSource { rng: seeded_rng(seed), remaining: supply, drawn: Ghost(Seq::empty()) }
    }

    /// How many configurations the source can still hand out.
    pub fn supply(&self) -> (left: u64)
        ensures
            left == self.remaining(),
    {
        self.remaining
    }

    /// Draws a configuration within `min_bound` and `max_bound`, both
    /// included, or `None` once the supply is used up.
    pub fn sample(&mut self, min_bound: &[i32; 2], max_bound: &[i32; 2]) -> (conf: Option<[i32; 2]>)
        requires
            min_bound@[0] <= max_bound@[0],
            min_bound@[1] <= max_bound@[1],
        ensures
            conf is None <==> old(self).remaining() == 0,
            conf is None ==> final(self).remaining() == 0,
            conf is None ==> final(self).drawn() == old(self).drawn(),
            conf is Some ==> final(self).remaining() == old(self).remaining() - 1,
            conf is Some ==> final(self).drawn() == old(self).drawn().push(conf.unwrap()),
            conf is Some ==> min_bound@[0] <= conf.unwrap()@[0] <= max_bound@[0],
            conf is Some ==> min_bound@[1] <= conf.unwrap()@[1] <= max_bound@[1],
    {
        if self.remaining == 0 {
            return None;
        }
        self.remaining = self.remaining - 1;
        let x = draw_between(&mut self.rng, min_bound[0], max_bound[0]);
        let y = draw_between(&mut self.rng, min_bound[1], max_bound[1]);
        let conf: [i32; 2] = [x, y];
        proof {
            self.drawn@ = self.drawn@.push(conf);
        }
        Some(conf)
    }
}

} // verus!
