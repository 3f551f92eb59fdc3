//! Tweak assembly: folds nonce, associated data and tag expansion into one
//! mask block that perturbs every use of the round primitive in a call.
//!
//! Each input category enters under its own mask lane, a small multiple (by
//! GF(2^128) doubling) of the `kl` subkey: lane 1 carries tau, lane 2 the
//! nonce, lane 3 the associated data. Associated-data chunks are hashed
//! PMAC-style under a doubling mask chain, with the total length absorbed so
//! strings differing only in trailing zero bytes hash apart. Absent associated
//! data and empty associated data both contribute the zero block.

use vstd::prelude::*;

use crate::block::Block;
use crate::block::dbl_block;
use crate::block::dbl;
use crate::block::dbl_iter;
use crate::block::dbl_n;
use crate::block::lemma_xor_word;
use crate::block::load_at;
use crate::block::load_block;
use crate::block::pad_load;
use crate::block::pad_load_block;
use crate::block::xor3;
use crate::block::xor_block;
use crate::block::zero_block;
use crate::prf::KeySched;
use crate::prf::e4;
use crate::prf::spec_e4;

verus! {

/// The mark mixed into the nonce mask so that nonces of different lengths
/// never share a mask, whatever their padding.
pub open spec fn len_mark(n: nat) -> Block {
    Block { lo: 0, hi: (n as u64) << 56 }
}

/// PMAC-style hash of the associated-data chunks under a doubling mask chain.
pub open spec fn spec_ad_chunks(k: KeySched, mask: Block, ad: Seq<u8>) -> Block
    decreases ad.len(),
{
    if ad.len() == 0 {
        zero_block()
    } else if ad.len() <= 16 {
        spec_e4(k, mask, pad_load(ad))
    } else {
        xor_block(spec_e4(k, mask, load_at(ad, 0)), spec_ad_chunks(k, dbl_block(mask), ad.skip(16)))
    }
}

/// The associated-data contribution: zero for the empty string, otherwise the
/// chunk hash XORed with a length term.
pub open spec fn spec_ad_hash(k: KeySched, ad: Seq<u8>) -> Block {
    if ad.len() == 0 {
        zero_block()
    } else {
        xor_block(
            spec_e4(k, dbl_n(3, k.kl), Block { lo: ad.len() as u64, hi: 0x61 }),
            spec_ad_chunks(k, dbl_block(dbl_n(3, k.kl)), ad),
        )
    }
}

/// The tweak: one block binding tau, nonce and associated data.
pub open spec fn spec_tweak(k: KeySched, nonce: Seq<u8>, ad: Seq<u8>, tau: u64) -> Block {
    xor3(
        spec_e4(k, dbl_n(1, k.kl), Block { lo: tau, hi: 0 }),
        spec_e4(k, xor_block(dbl_n(2, k.kl), len_mark(nonce.len())), pad_load(nonce)),
        spec_ad_hash(k, ad),
    )
}

/// Assembles the tweak for one call.
pub fn assemble(k: &KeySched, nonce: &[u8], ad: &[u8], tau: u64) -> (r: Block)
    requires
        nonce@.len() <= 16,
    ensures
        r == spec_tweak(*k, nonce@, ad@, tau),
{
    let tau_part = e4(k, dbl_iter(k.kl, 1), Block { lo: tau, hi: 0 });
    let nlen: usize = nonce.len();
    let nmask = dbl_iter(k.kl, 2).xor(Block { lo: 0, hi: (nlen as u64) << 56 });
    let nonce_part = e4(k, nmask, pad_load_block(nonce, 0, nlen));
    proof {
        assert(nonce@.subrange(0, nlen as int) =~= nonce@);
    }
    let ad_part = ad_hash(k, ad);
    tau_part.xor(nonce_part).xor(ad_part)
}

fn ad_hash(k: &KeySched, ad: &[u8]) -> (r: Block)
    ensures
        r == spec_ad_hash(*k, ad@),
{
    let len: usize = ad.len();
    if len == 0 {
        return Block::zero();
    }
    let len_term = e4(k, dbl_iter(k.kl, 3), Block { lo: len as u64, hi: 0x61 });
    let mut mask = dbl(dbl_iter(k.kl, 3));
    let mut acc = Block::zero();
    let mut off: usize = 0;
    proof {
        assert(ad@.skip(0) =~= ad@);
        lemma_xor_word();
    }
    while len - off > 16
        invariant
            off < len,
            len == ad@.len(),
            xor_block(acc, spec_ad_chunks(*k, mask, ad@.skip(off as int))) == spec_ad_chunks(
                *k,
                dbl_block(dbl_n(3, k.kl)),
                ad@,
            ),
        decreases len - off,
    {
        let blk = load_block(ad, off);
        proof {
            let rest = ad@.skip(off as int);
            assert(rest.len() > 16);
            assert(load_at(rest, 0) == load_at(ad@, off as int)) by {
                assert(forall|j: int| 0 <= j < 16 ==> rest[j] == ad@[off + j]);
            }
            assert(rest.skip(16) =~= ad@.skip(off + 16));
            lemma_xor_word();
        }
        acc = acc.xor(e4(k, mask, blk));
        mask = dbl(mask);
        off += 16;
    }
    let blk = pad_load_block(ad, off, len - off);
    proof {
        let rest = ad@.skip(off as int);
        assert(rest =~= ad@.subrange(off as int, len as int));
        assert(0 < rest.len() <= 16);
        lemma_xor_word();
    }
    acc = acc.xor(e4(k, mask, blk));
    proof {
        lemma_xor_word();
    }
    len_term.xor(acc)
}

} // verus!
