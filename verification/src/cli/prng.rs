//! A small pseudo-random generator, for simulated loss and for test payloads.
use vstd::prelude::*;

use crate::codec::encoder;
use crate::codec::encoder::model::OutputModel;
use crate::codec::encoder::EncoderOutput;

verus! {

/// The seed that stands for zero, from which the generator could not move.
pub const DEFAULT_SEED: u64 = 0x9E37_79B9_7F4A_7C15;

/// The multiplier of the output.
pub const MULTIPLIER: u64 = 0x2545_F491_4F6C_DD1D;

/// The state after `x`.
pub open spec fn stepped(x: u64) -> u64 {
    let a = x ^ (x >> 12u64);
    let b = a ^ (a << 25u64);
    b ^ (b >> 27u64)
}

/// The byte that belongs to the state `x`: the highest one of a product.
pub open spec fn byte_of(x: u64) -> u8 {
    ((x * MULTIPLIER % 0x1_0000_0000_0000_0000) / 0x100_0000_0000_0000) as u8
}

/// The state `n` steps after `x`.
pub open spec fn stepped_n(x: u64, n: nat) -> u64
    decreases n,
{
    if n == 0 {
        x
    } else {
        stepped(stepped_n(x, (n - 1) as nat))
    }
}

/// The generator xorshift64*.
#[derive(Debug, Clone, Copy, PartialEq, Eq, Structural)]
pub struct Xorshift {
    pub state: u64,
}

impl Xorshift {
    /// A generator with the given seed.
    pub fn new(seed: u64) -> (r: Self)
        ensures
            r.state == (if seed == 0 { DEFAULT_SEED } else { seed }),
    {
        Self { state: if seed == 0 { DEFAULT_SEED } else { seed } }
    }

    /// The next byte.
    pub fn next_byte(&mut self) -> (r: u8)
        ensures
            final(self).state == stepped(old(self).state),
            r == byte_of(stepped(old(self).state)),
    {
        let mut x: u64 = self.state;
        x = x ^ (x >> 12u64);
        x = x ^ (x << 25u64);
        x = x ^ (x >> 27u64);
        self.state = x;
        let y: u64 = x.wrapping_mul(MULTIPLIER);
        (y / 0x100_0000_0000_0000) as u8
    }
}

/// The first packet after the state `x` is dropped.
pub open spec fn drops(x: u64, percent: u32) -> bool {
    byte_of(stepped(x)) % 100 < percent
}

/// The packets that are not dropped, from the state `x` on.
pub open spec fn survivors(out: Seq<OutputModel>, x: u64, percent: u32) -> Seq<OutputModel>
    decreases out.len(),
{
    if out.len() == 0 {
        Seq::empty()
    } else {
        let rest = survivors(out.drop_last(), x, percent);
        if drops(stepped_n(x, (out.len() - 1) as nat), percent) {
            rest
        } else {
            rest.push(out.last())
        }
    }
}

/// Simulated packet loss.
#[derive(Debug, Clone, Copy, PartialEq, Eq, Structural)]
pub struct LossSimulator {
    pub rng: Xorshift,
    /// How many packets out of a hundred are dropped.
    pub percent: u32,
}

impl LossSimulator {
    /// Drops `percent` packets out of a hundred.
    pub fn new(seed: u64, percent: u32) -> (r: Self)
        ensures
            r.rng.state == (if seed == 0 { DEFAULT_SEED } else { seed }),
            r.percent == percent,
    {
        Self { rng: Xorshift::new(seed), percent }
    }

    /// Whether the next packet is dropped.
    pub fn should_drop(&mut self) -> (r: bool)
        ensures
            r == drops(old(self).rng.state, old(self).percent),
            final(self).rng.state == stepped(old(self).rng.state),
            final(self).percent == old(self).percent,
    {
        let b: u8 = self.rng.next_byte();
        ((b % 100) as u32) < self.percent
    }

    /// Drops packets.  Returns those that are left.
    pub fn filter(&mut self, out: Vec<EncoderOutput>) -> (r: Vec<EncoderOutput>)
        ensures
            encoder::outputs(r@) == survivors(
                encoder::outputs(out@),
                old(self).rng.state,
                old(self).percent,
            ),
            r@.len() <= out@.len(),
            final(self).rng.state == stepped_n(old(self).rng.state, out@.len()),
            final(self).percent == old(self).percent,
    {
        let ghost all = encoder::outputs(out@);
        let mut kept: Vec<EncoderOutput> = Vec::new();
        let mut i: usize = 0;
        assert(all.take(0) =~= Seq::<OutputModel>::empty());
        assert(encoder::outputs(kept@) =~= Seq::<OutputModel>::empty());
        while i < out.len()
            invariant
                i <= out@.len(),
                kept@.len() <= i,
                all == encoder::outputs(out@),
                self.percent == old(self).percent,
                self.rng.state == stepped_n(old(self).rng.state, i as nat),
                encoder::outputs(kept@) == survivors(
                    all.take(i as int),
                    old(self).rng.state,
                    old(self).percent,
                ),
            decreases out@.len() - i,
        {
            let ghost before = kept@;
            assert(all.take(i + 1).drop_last() =~= all.take(i as int));
            assert(all.take(i + 1).last() == out@[i as int]@);
            if !self.should_drop() {
                kept.push(out[i].clone());
                assert(encoder::outputs(kept@) =~= encoder::outputs(before).push(
                    out@[i as int]@,
                ));
            }
            i += 1;
        }
        assert(all.take(all.len() as int) =~= all);
        kept
    }
}

} // verus!
