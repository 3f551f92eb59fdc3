//! Key extraction: absorbs an arbitrary-length key into the fixed key schedule.
//!
//! The key is read in 16-byte chunks (the last one zero-padded) into a
//! three-block sponge driven by the round primitive under fixed boot constants,
//! and the key length is absorbed last, so keys that differ only by trailing
//! zero bytes yield different schedules. Extraction is a pure function: the
//! same key always yields the same schedule.

use vstd::prelude::*;

use crate::block::Block;
use crate::block::load_at;
use crate::block::load_block;
use crate::block::pad_load;
use crate::block::pad_load_block;
use crate::block::xor_block;
use crate::prf::KeySched;
use crate::prf::perm4;
use crate::prf::spec_perm4;

verus! {

/// Fixed boot constants (leading hex digits of pi) keying the absorbing
/// permutation before any key material is mixed in.
pub open spec fn boot_sched() -> KeySched {
    KeySched {
        ki: Block { lo: 0x243f6a8885a308d3, hi: 0x13198a2e03707344 },
        kj: Block { lo: 0xa4093822299f31d0, hi: 0x082efa98ec4e6c89 },
        kl: Block { lo: 0x452821e638d01377, hi: 0xbe5466cf34e90c6c },
    }
}

fn boot() -> (r: KeySched)
    ensures
        r == boot_sched(),
{
    KeySched {
        ki: Block { lo: 0x243f6a8885a308d3, hi: 0x13198a2e03707344 },
        kj: Block { lo: 0xa4093822299f31d0, hi: 0x082efa98ec4e6c89 },
        kl: Block { lo: 0x452821e638d01377, hi: 0xbe5466cf34e90c6c },
    }
}

/// The initial sponge state, three distinct constants.
pub open spec fn init_state() -> KeySched {
    KeySched {
        ki: Block { lo: 1, hi: 0 },
        kj: Block { lo: 2, hi: 0 },
        kl: Block { lo: 3, hi: 0 },
    }
}

/// One absorbing step: the chunk enters the first lane and the lanes are
/// chained through the boot permutation.
pub open spec fn spec_absorb_step(st: KeySched, chunk: Block) -> KeySched {
    let a = spec_perm4(boot_sched(), xor_block(st.ki, chunk));
    let b = spec_perm4(boot_sched(), xor_block(st.kj, a));
    let c = spec_perm4(boot_sched(), xor_block(st.kl, b));
    KeySched { ki: a, kj: b, kl: c }
}

fn absorb_step(st: KeySched, chunk: Block) -> (r: KeySched)
    ensures
        r == spec_absorb_step(st, chunk),
{
    let bt = boot();
    let a = perm4(&bt, st.ki.xor(chunk));
    let b = perm4(&bt, st.kj.xor(a));
    let c = perm4(&bt, st.kl.xor(b));
    KeySched { ki: a, kj: b, kl: c }
}

/// Absorbing a whole byte string, 16 bytes at a time, zero-padding the tail.
pub open spec fn spec_absorb(st: KeySched, data: Seq<u8>) -> KeySched
    decreases data.len(),
{
    if data.len() == 0 {
        st
    } else if data.len() < 16 {
        spec_absorb_step(st, pad_load(data))
    } else {
        spec_absorb(spec_absorb_step(st, load_at(data, 0)), data.skip(16))
    }
}

/// The key schedule extracted from an arbitrary-length key.
pub open spec fn spec_extract(key: Seq<u8>) -> KeySched {
    spec_absorb_step(spec_absorb(init_state(), key), Block { lo: key.len() as u64, hi: 0x6b })
}

/// Derives the key schedule from `key`. Any key length is accepted.
pub fn extract(key: &[u8]) -> (r: KeySched)
    ensures
        r == spec_extract(key@),
{
    let len: usize = key.len();
    let mut st = KeySched {
        ki: Block { lo: 1, hi: 0 },
        kj: Block { lo: 2, hi: 0 },
        kl: Block { lo: 3, hi: 0 },
    };
    let mut off: usize = 0;
    proof {
        assert(key@.skip(0) =~= key@);
    }
    while len - off >= 16
        invariant
            off <= len,
            len == key@.len(),
            spec_absorb(st, key@.skip(off as int)) == spec_absorb(init_state(), key@),
        decreases len - off,
    {
        let blk = load_block(key, off);
        proof {
            let rest = key@.skip(off as int);
            assert(rest.len() >= 16);
            assert(load_at(rest, 0) == load_at(key@, off as int)) by {
                assert(forall|j: int|
                    0 <= j < 16 ==> rest[j] == key@[off + j]);
            }
            assert(rest.skip(16) =~= key@.skip(off + 16));
        }
        st = absorb_step(st, blk);
        off += 16;
    }
    if off < len {
        let blk = pad_load_block(key, off, len - off);
        proof {
            let rest = key@.skip(off as int);
            assert(rest =~= key@.subrange(off as int, len as int));
            assert(0 < rest.len() < 16);
        }
        st = absorb_step(st, blk);
    }
    proof {
        if off >= len {
            assert(key@.skip(off as int).len() == 0);
        }
    }
    absorb_step(st, Block { lo: len as u64, hi: 0x6b })
}

} // verus!
