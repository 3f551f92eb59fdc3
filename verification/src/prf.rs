//! The round primitive: a reduced-round 128-bit block-cipher step.
//!
//! One round is an add-rotate-xor transform of the two 64-bit words under a
//! 128-bit round key. It uses no data-dependent branches or table lookups, so
//! it runs in constant time. The cipher only ever applies the primitive in the
//! forward direction; invertibility of the surrounding network comes from the
//! Feistel and masking structure, never from inverting a round.

use vstd::prelude::*;

use crate::block::Block;
use crate::block::xor_block;

verus! {

/// Addition of 64-bit words, wrapping on overflow.
pub open spec fn wrap_add(a: u64, b: u64) -> u64 {
    ((a + b) % 0x1_0000_0000_0000_0000) as u64
}

fn wadd(a: u64, b: u64) -> (r: u64)
    ensures
        r == wrap_add(a, b),
{
    let r = a.wrapping_add(b);
    proof {
        assert(a.wrapping_add(b) == ((a + b) % 0x1_0000_0000_0000_0000) as u64) by (bit_vector);
    }
    r
}

/// One add-rotate-xor round under a 128-bit round key.
pub open spec fn spec_round(b: Block, k: Block) -> Block {
    let x = (wrap_add((b.lo >> 8) | (b.lo << 56), b.hi)) ^ k.lo;
    let y = ((b.hi << 3) | (b.hi >> 61)) ^ x ^ k.hi;
    Block { lo: x, hi: y }
}

fn round(b: Block, k: Block) -> (r: Block)
    ensures
        r == spec_round(b, k),
{
    let x = wadd((b.lo >> 8) | (b.lo << 56), b.hi) ^ k.lo;
    let y = ((b.hi << 3) | (b.hi >> 61)) ^ x ^ k.hi;
    Block { lo: x, hi: y }
}

/// The key schedule: the three 128-bit subkeys every call derives its round
/// keys and masks from.
#[derive(Clone, Copy, PartialEq, Eq, Structural, Debug)]
pub struct KeySched {
    pub ki: Block,
    pub kj: Block,
    pub kl: Block,
}

/// The four-round variant of the primitive, round keys `ki, kj, kl, ki`.
#[verifier::opaque]
pub open spec fn spec_perm4(k: KeySched, x: Block) -> Block {
    spec_round(spec_round(spec_round(spec_round(x, k.ki), k.kj), k.kl), k.ki)
}

pub fn perm4(k: &KeySched, x: Block) -> (r: Block)
    ensures
        r == spec_perm4(*k, x),
{
    proof {
        reveal(spec_perm4);
    }
    round(round(round(round(x, k.ki), k.kj), k.kl), k.ki)
}

/// The ten-round variant, round keys cycling `ki, kj, kl`.
#[verifier::opaque]
pub open spec fn spec_perm10(k: KeySched, x: Block) -> Block {
    let r3 = spec_round(spec_round(spec_round(x, k.ki), k.kj), k.kl);
    let r6 = spec_round(spec_round(spec_round(r3, k.ki), k.kj), k.kl);
    let r9 = spec_round(spec_round(spec_round(r6, k.ki), k.kj), k.kl);
    spec_round(r9, k.ki)
}

pub fn perm10(k: &KeySched, x: Block) -> (r: Block)
    ensures
        r == spec_perm10(*k, x),
{
    proof {
        reveal(spec_perm10);
    }
    let r3 = round(round(round(x, k.ki), k.kj), k.kl);
    let r6 = round(round(round(r3, k.ki), k.kj), k.kl);
    let r9 = round(round(round(r6, k.ki), k.kj), k.kl);
    round(r9, k.ki)
}

/// The masked four-round transform: `perm4` of the input XORed with a mask
/// derived from the tweak and the position in the message.
pub open spec fn spec_e4(k: KeySched, mask: Block, x: Block) -> Block {
    spec_perm4(k, xor_block(x, mask))
}

pub fn e4(k: &KeySched, mask: Block, x: Block) -> (r: Block)
    ensures
        r == spec_e4(*k, mask, x),
{
    perm4(k, x.xor(mask))
}

/// The masked ten-round transform, used where the construction needs the
/// stronger variant.
pub open spec fn spec_e10(k: KeySched, mask: Block, x: Block) -> Block {
    spec_perm10(k, xor_block(x, mask))
}

pub fn e10(k: &KeySched, mask: Block, x: Block) -> (r: Block)
    ensures
        r == spec_e10(*k, mask, x),
{
    perm10(k, x.xor(mask))
}

} // verus!
