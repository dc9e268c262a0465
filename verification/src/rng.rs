//! Reproducible xorshift64 generator for weight initialisation.
use vstd::prelude::*;

verus! {

/// One step of Marsaglia's xorshift64 (shifts 13, 7, 17).
pub open spec fn xorshift64(x: u64) -> u64 {
    let a = x ^ (x << 13u64);
    let b = a ^ (a >> 7u64);
    b ^ (b << 17u64)
}

/// xorshift64 state. A zero state would stay zero forever, so the state is
/// always kept odd at construction and nonzero afterwards.
pub struct Rng(pub(crate) u64);

impl Rng {
    /// The state the generator currently holds.
    pub closed spec fn state(&self) -> u64 {
        self.0
    }

    pub fn new(seed: u64) -> (r: Self)
        ensures
            r.state() == seed | 1u64,
            r.state() != 0,
    {
        assert((seed | 1u64) != 0) by (bit_vector);
        Rng(seed | 1)
    }

    /// Advances the state by one xorshift64 step and returns its top 53 bits,
    /// the ones an `f64` mantissa can hold exactly.
    pub fn next_bits(&mut self) -> (r: u64)
        ensures
            final(self).state() == xorshift64(old(self).state()),
            r == final(self).state() >> 11u64,
            r < 0x20_0000_0000_0000u64,
            old(self).state() != 0 ==> final(self).state() != 0,
    {
        proof {
            if self.0 != 0 {
                lemma_xorshift_nonzero(self.0);
            }
        }
        let x0 = self.0;
        let a = x0 ^ (x0 << 13);
        let b = a ^ (a >> 7);
        let x = b ^ (b << 17);
        self.0 = x;
        assert((x >> 11u64) < 0x20_0000_0000_0000u64) by (bit_vector);
        x >> 11
    }
}

/// A nonzero state never becomes zero: every xorshift step is invertible.
pub proof fn lemma_xorshift_nonzero(x: u64)
    requires
        x != 0,
    ensures
        xorshift64(x) != 0,
{
    let a = x ^ (x << 13u64);
    assert(a != 0) by (bit_vector)
        requires
            x != 0,
            a == x ^ (x << 13u64),
    ;
    let b = a ^ (a >> 7u64);
    assert(b != 0) by (bit_vector)
        requires
            a != 0,
            b == a ^ (a >> 7u64),
    ;
    assert(b ^ (b << 17u64) != 0) by (bit_vector)
        requires
            b != 0,
    ;
}

} // verus!
