//! The standard mode of the permutation: inputs of 32 bytes or more.
//!
//! A two-pass masked block network in the encrypt-mix-encrypt shape. The
//! leading blocks are processed in 32-byte pairs by a two-step Feistel round
//! under per-pair masks; the intermediate values are XOR-combined, together
//! with a hash of the odd-length fragment, into one offset block `S`; `S` is
//! itself transformed and re-injected into every pair and into the fragment on
//! the second pass, and the last two blocks carry the masked mixture that lets
//! decryption recover `S`. Flipping any input bit perturbs `S` and with it
//! every output block.
//!
//! Mask lanes (doublings of `kl`): 5 pair first step, 6 pair second step,
//! 7 offset re-injection, 8 final pair, 9 and 10 fragment hash, 11 and 12
//! fragment stream, 13 and 14 offset mixing. Per-pair masks are doublings of
//! `ki`.

use vstd::prelude::*;

use crate::block::Block;
use crate::block::block_bytes;
use crate::block::dbl;
use crate::block::dbl_iter;
use crate::block::dbl_n;
use crate::block::lemma_bytes_of_load;
use crate::block::lemma_load_of_bytes;
use crate::block::lemma_load_subrange;
use crate::block::lemma_xor_block_cancel;
use crate::block::lemma_xor_trunc_cancel;
use crate::block::lemma_xor_word;
use crate::block::load_at;
use crate::block::load_block;
use crate::block::pad_load;
use crate::block::pad_load_block;
use crate::block::push_block;
use crate::block::xor_block;
use crate::block::xor_into;
use crate::block::xor_trunc;
use crate::block::zero_block;
use crate::prf::KeySched;
use crate::prf::e4;
use crate::prf::e10;
use crate::prf::spec_e4;
use crate::prf::spec_e10;

verus! {

/// The first pair step: a masked transform of the second block folded into the
/// first, under the pair's doubling mask.
pub open spec fn ep(k: KeySched, j: nat, b: Block) -> Block {
    spec_e4(k, xor_block(dbl_n(5, k.kl), dbl_n(j + 1, k.ki)), b)
}

/// The shared second pair step.
pub open spec fn es(k: KeySched, b: Block) -> Block {
    spec_e4(k, dbl_n(6, k.kl), b)
}

/// The offset re-injection transform for pair `j`.
pub open spec fn eo(k: KeySched, j: nat, s: Block) -> Block {
    spec_e4(k, xor_block(dbl_n(7, k.kl), dbl_n(j + 1, k.ki)), s)
}

/// The transform binding the last block into the offset computation.
pub open spec fn ef(k: KeySched, b: Block) -> Block {
    spec_e4(k, dbl_n(8, k.kl), b)
}

/// The two offset-mixing transforms, ten-round variants.
pub open spec fn em1(k: KeySched, b: Block) -> Block {
    spec_e10(k, dbl_n(13, k.kl), b)
}

pub open spec fn em2(k: KeySched, b: Block) -> Block {
    spec_e10(k, dbl_n(14, k.kl), b)
}

/// The hash of the fragment (the 0 to 31 bytes between the pairs and the final
/// two blocks), bound to the fragment length.
pub open spec fn frag_hash(k: KeySched, frag: Seq<u8>) -> Block {
    if frag.len() == 0 {
        zero_block()
    } else if frag.len() <= 16 {
        spec_e4(
            k,
            xor_block(dbl_n(9, k.kl), Block { lo: frag.len() as u64, hi: 0 }),
            pad_load(frag),
        )
    } else {
        xor_block(
            spec_e4(
                k,
                xor_block(dbl_n(9, k.kl), Block { lo: frag.len() as u64, hi: 0 }),
                load_at(frag, 0),
            ),
            spec_e4(
                k,
                xor_block(dbl_n(10, k.kl), Block { lo: frag.len() as u64, hi: 0 }),
                pad_load(frag.skip(16)),
            ),
        )
    }
}

/// The 32-byte mask stream the fragment is XORed with on the second pass.
pub open spec fn frag_stream(k: KeySched, s: Block) -> Seq<u8> {
    block_bytes(spec_e10(k, dbl_n(11, k.kl), s)) + block_bytes(spec_e10(k, dbl_n(12, k.kl), s))
}

/// First-pass intermediates for pair `j` of the block sequence `bs`.
pub open spec fn w1(k: KeySched, bs: Seq<Block>, j: int) -> Block {
    xor_block(bs[2 * j], ep(k, j as nat, bs[2 * j + 1]))
}

pub open spec fn z1(k: KeySched, bs: Seq<Block>, j: int) -> Block {
    xor_block(bs[2 * j + 1], es(k, w1(k, bs, j)))
}

/// The first pass over all pairs: blocks `2j` and `2j+1` become `W_j` and
/// `Z_j`.
pub open spec fn pass1(k: KeySched, bs: Seq<Block>) -> Seq<Block> {
    Seq::new(bs.len(), |t: int| if t % 2 == 0 { w1(k, bs, t / 2) } else { z1(k, bs, t / 2) })
}

/// XOR of the blocks at odd positions: the pair contribution to the offset.
pub open spec fn xsum_odd(bs: Seq<Block>) -> Block
    decreases bs.len(),
{
    if bs.len() < 2 {
        zero_block()
    } else {
        xor_block(xsum_odd(bs.take(bs.len() - 2)), bs[bs.len() - 1])
    }
}

/// Second-pass output blocks for pair `j`, given the offset `s` and the
/// first-pass sequence `wz`.
pub open spec fn ca2(k: KeySched, s: Block, wz: Seq<Block>, j: int) -> Block {
    let t = eo(k, j as nat, s);
    let wp = xor_block(wz[2 * j], t);
    let zp = xor_block(wz[2 * j + 1], t);
    xor_block(zp, ep(k, j as nat, xor_block(wp, es(k, zp))))
}

pub open spec fn cb2(k: KeySched, s: Block, wz: Seq<Block>, j: int) -> Block {
    let t = eo(k, j as nat, s);
    let wp = xor_block(wz[2 * j], t);
    let zp = xor_block(wz[2 * j + 1], t);
    xor_block(wp, es(k, zp))
}

pub open spec fn pass2(k: KeySched, s: Block, wz: Seq<Block>) -> Seq<Block> {
    Seq::new(wz.len(), |t: int| if t % 2 == 0 { ca2(k, s, wz, t / 2) } else { cb2(k, s, wz, t / 2) })
}

/// The masked intermediates recomputed from an output pair alone: what
/// decryption sees before the offset is known.
pub open spec fn dec_zp(k: KeySched, j: nat, ca: Block, cb: Block) -> Block {
    xor_block(ca, ep(k, j, cb))
}

pub open spec fn dec_wp(k: KeySched, j: nat, ca: Block, cb: Block) -> Block {
    xor_block(cb, es(k, dec_zp(k, j, ca, cb)))
}

/// XOR of the recomputed `W'` values over all output pairs: the pair
/// contribution to the offset on the decryption side.
pub open spec fn y_pairs(k: KeySched, cs: Seq<Block>) -> Block
    decreases cs.len(),
{
    if cs.len() < 2 {
        zero_block()
    } else {
        xor_block(
            y_pairs(k, cs.take(cs.len() - 2)),
            dec_wp(k, ((cs.len() - 2) / 2) as nat, cs[cs.len() - 2], cs[cs.len() - 1]),
        )
    }
}

/// The plaintext pair recovered from an output pair once the offset is known.
pub open spec fn ma2(k: KeySched, s: Block, cs: Seq<Block>, j: int) -> Block {
    let t = eo(k, j as nat, s);
    let w = xor_block(dec_wp(k, j as nat, cs[2 * j], cs[2 * j + 1]), t);
    let z = xor_block(dec_zp(k, j as nat, cs[2 * j], cs[2 * j + 1]), t);
    xor_block(w, ep(k, j as nat, xor_block(z, es(k, w))))
}

pub open spec fn mb2(k: KeySched, s: Block, cs: Seq<Block>, j: int) -> Block {
    let t = eo(k, j as nat, s);
    let w = xor_block(dec_wp(k, j as nat, cs[2 * j], cs[2 * j + 1]), t);
    let z = xor_block(dec_zp(k, j as nat, cs[2 * j], cs[2 * j + 1]), t);
    xor_block(z, es(k, w))
}

pub open spec fn unpass(k: KeySched, s: Block, cs: Seq<Block>) -> Seq<Block> {
    Seq::new(cs.len(), |t: int| if t % 2 == 0 { ma2(k, s, cs, t / 2) } else { mb2(k, s, cs, t / 2) })
}

/// The byte string of a block sequence.
pub open spec fn bytes_of_blocks(bs: Seq<Block>) -> Seq<u8>
    decreases bs.len(),
{
    if bs.len() == 0 {
        Seq::empty()
    } else {
        bytes_of_blocks(bs.take(bs.len() - 1)) + block_bytes(bs.last())
    }
}

/// The block sequence read from a byte string region.
pub open spec fn blocks_at(s: Seq<u8>, off: int, m: int) -> Seq<Block> {
    Seq::new(m as nat, |t: int| load_at(s, off + 16 * t))
}

/// The number of leading pairs of an input of `n` bytes.
pub open spec fn pair_count(n: int) -> int {
    (n - 32) / 32
}

/// The fragment length of an input of `n` bytes.
pub open spec fn frag_len(n: int) -> int {
    (n - 32) % 32
}

/// The standard-mode permutation over `msg` (at least 32 bytes) under the
/// tweak block `d`.
pub open spec fn spec_wide_encipher(k: KeySched, d: Block, msg: Seq<u8>) -> Seq<u8> {
    let n = msg.len() as int;
    let m = pair_count(n);
    let fl = frag_len(n);
    let bs = blocks_at(msg, 0, 2 * m);
    let frag = msg.subrange(32 * m, 32 * m + fl);
    let mx = load_at(msg, n - 32);
    let my = load_at(msg, n - 16);
    let wz = pass1(k, bs);
    let x = xor_block(xsum_odd(wz), frag_hash(k, frag));
    let sx = xor_block(xor_block(xor_block(mx, d), x), ef(k, my));
    let sy = xor_block(my, em1(k, sx));
    let s = xor_block(sx, sy);
    let cs = pass2(k, s, wz);
    let cfrag = xor_trunc(frag, frag_stream(k, s));
    let y = xor_block(y_pairs(k, cs), frag_hash(k, cfrag));
    let cy = xor_block(sx, em2(k, sy));
    let cx = xor_block(xor_block(xor_block(sy, d), y), ef(k, cy));
    bytes_of_blocks(cs) + cfrag + block_bytes(cx) + block_bytes(cy)
}

/// The inverse standard-mode permutation.
pub open spec fn spec_wide_decipher(k: KeySched, d: Block, ct: Seq<u8>) -> Seq<u8> {
    let n = ct.len() as int;
    let m = pair_count(n);
    let fl = frag_len(n);
    let cs = blocks_at(ct, 0, 2 * m);
    let cfrag = ct.subrange(32 * m, 32 * m + fl);
    let cx = load_at(ct, n - 32);
    let cy = load_at(ct, n - 16);
    let y = xor_block(y_pairs(k, cs), frag_hash(k, cfrag));
    let sy = xor_block(xor_block(xor_block(cx, d), y), ef(k, cy));
    let sx = xor_block(cy, em2(k, sy));
    let s = xor_block(sx, sy);
    let bs = unpass(k, s, cs);
    let frag = xor_trunc(cfrag, frag_stream(k, s));
    let x = xor_block(xsum_odd(pass1(k, bs)), frag_hash(k, frag));
    let my = xor_block(sy, em1(k, sx));
    let mx = xor_block(xor_block(xor_block(sx, d), x), ef(k, my));
    bytes_of_blocks(bs) + frag + block_bytes(mx) + block_bytes(my)
}

/// Unmasking three XORed terms in the order they were masked.
proof fn lemma_unmask3(v: Block, a: Block, b: Block, c: Block)
    ensures
        xor_block(
            xor_block(xor_block(xor_block(xor_block(xor_block(v, a), b), c), a), b),
            c,
        ) == v,
{
    lemma_xor_word();
}

/// The byte string of `bs` has 16 bytes per block.
pub proof fn lemma_bytes_of_blocks_len(bs: Seq<Block>)
    ensures
        bytes_of_blocks(bs).len() == 16 * bs.len(),
    decreases bs.len(),
{
    if bs.len() > 0 {
        lemma_bytes_of_blocks_len(bs.take(bs.len() - 1));
    }
}

/// Byte `16j + u` of the byte string of `bs` is byte `u` of block `j`.
pub proof fn lemma_bytes_of_blocks_index(bs: Seq<Block>, j: int, u: int)
    requires
        0 <= j < bs.len(),
        0 <= u < 16,
    ensures
        bytes_of_blocks(bs)[16 * j + u] == block_bytes(bs[j])[u],
    decreases bs.len(),
{
    lemma_bytes_of_blocks_len(bs.take(bs.len() - 1));
    if j == bs.len() - 1 {
    } else {
        lemma_bytes_of_blocks_index(bs.take(bs.len() - 1), j, u);
    }
}

/// Reading block `j` back out of the byte string of `bs` (with anything
/// appended) gives block `j`.
pub proof fn lemma_blocks_readback(bs: Seq<Block>, tail: Seq<u8>, j: int)
    requires
        0 <= j < bs.len(),
    ensures
        load_at(bytes_of_blocks(bs) + tail, 16 * j) == bs[j],
{
    let s = bytes_of_blocks(bs) + tail;
    lemma_bytes_of_blocks_len(bs);
    assert forall|u: int| 0 <= u < 16 implies s[16 * j + u] == block_bytes(bs[j])[u] by {
        lemma_bytes_of_blocks_index(bs, j, u);
    }
    assert(s.subrange(16 * j, 16 * j + 16) =~= block_bytes(bs[j]));
    lemma_load_subrange(s, 16 * j);
    lemma_load_of_bytes(bs[j]);
}

/// Each output pair undoes to its input pair, and the recomputed masked
/// intermediates match the encryption-side ones.
proof fn lemma_pair_roundtrip(k: KeySched, s: Block, bs: Seq<Block>, j: int)
    requires
        0 <= j,
        2 * j + 1 < bs.len(),
    ensures
        dec_zp(k, j as nat, ca2(k, s, pass1(k, bs), j), cb2(k, s, pass1(k, bs), j)) == xor_block(
            z1(k, bs, j),
            eo(k, j as nat, s),
        ),
        dec_wp(k, j as nat, ca2(k, s, pass1(k, bs), j), cb2(k, s, pass1(k, bs), j)) == xor_block(
            w1(k, bs, j),
            eo(k, j as nat, s),
        ),
        ({
            let cs = pass2(k, s, pass1(k, bs));
            ma2(k, s, cs, j) == bs[2 * j] && mb2(k, s, cs, j) == bs[2 * j + 1]
        }),
{
    let wz = pass1(k, bs);
    let t = eo(k, j as nat, s);
    let w = w1(k, bs, j);
    let z = z1(k, bs, j);
    let wp = xor_block(w, t);
    let zp = xor_block(z, t);
    let cb = xor_block(wp, es(k, zp));
    let ca = xor_block(zp, ep(k, j as nat, cb));
    assert(wz[2 * j] == w);
    assert(wz[2 * j + 1] == z);
    assert(cb2(k, s, wz, j) == cb);
    assert(ca2(k, s, wz, j) == ca);
    lemma_xor_block_cancel(zp, ep(k, j as nat, cb));
    assert(dec_zp(k, j as nat, ca, cb) == zp);
    lemma_xor_block_cancel(wp, es(k, zp));
    assert(dec_wp(k, j as nat, ca, cb) == wp);
    let cs = pass2(k, s, wz);
    assert(cs[2 * j] == ca);
    assert(cs[2 * j + 1] == cb);
    lemma_xor_block_cancel(w, t);
    lemma_xor_block_cancel(z, t);
    assert(xor_block(wp, t) == w);
    assert(xor_block(zp, t) == z);
    lemma_xor_block_cancel(bs[2 * j + 1], es(k, w));
    assert(xor_block(z, es(k, w)) == bs[2 * j + 1]);
    lemma_xor_block_cancel(bs[2 * j], ep(k, j as nat, bs[2 * j + 1]));
    assert(mb2(k, s, cs, j) == bs[2 * j + 1]);
    assert(ma2(k, s, cs, j) == bs[2 * j]);
}

/// The whole second pass undoes to the first-pass input.
proof fn lemma_unpass_pass(k: KeySched, s: Block, bs: Seq<Block>)
    requires
        bs.len() % 2 == 0,
    ensures
        unpass(k, s, pass2(k, s, pass1(k, bs))) =~= bs,
{
    let cs = pass2(k, s, pass1(k, bs));
    assert forall|t: int| 0 <= t < bs.len() implies unpass(k, s, cs)[t] == bs[t] by {
        let j = t / 2;
        assert(0 <= j && 2 * j + 1 < bs.len());
        lemma_pair_roundtrip(k, s, bs, j);
        if t % 2 == 0 {
            assert(t == 2 * j);
        } else {
            assert(t == 2 * j + 1);
        }
    }
}

/// Parsing the concatenation of pair blocks, fragment and final two blocks
/// gives the regions back.
proof fn lemma_regions(cs: Seq<Block>, cfrag: Seq<u8>, cx: Block, cy: Block, m: int)
    requires
        0 <= m,
        cs.len() == 2 * m,
        cfrag.len() < 32,
    ensures
        ({
            let ct = bytes_of_blocks(cs) + cfrag + block_bytes(cx) + block_bytes(cy);
            let n = ct.len() as int;
            n == 32 * m + cfrag.len() + 32 && blocks_at(ct, 0, 2 * m) =~= cs && ct.subrange(
                32 * m,
                32 * m + cfrag.len() as int,
            ) =~= cfrag && load_at(ct, n - 32) == cx && load_at(ct, n - 16) == cy
        }),
{
    let ct = bytes_of_blocks(cs) + cfrag + block_bytes(cx) + block_bytes(cy);
    let n = ct.len() as int;
    lemma_bytes_of_blocks_len(cs);
    assert(n == 32 * m + cfrag.len() + 32);
    assert forall|t: int| 0 <= t < 2 * m implies blocks_at(ct, 0, 2 * m)[t] == cs[t] by {
        lemma_blocks_readback(cs, cfrag + block_bytes(cx) + block_bytes(cy), t);
        assert(bytes_of_blocks(cs) + (cfrag + block_bytes(cx) + block_bytes(cy)) =~= ct);
    }
    assert(ct.subrange(32 * m, 32 * m + cfrag.len() as int) =~= cfrag);
    assert(ct.subrange(n - 32, n - 16) =~= block_bytes(cx));
    assert(ct.subrange(n - 16, n) =~= block_bytes(cy));
    lemma_load_subrange(ct, n - 32);
    lemma_load_of_bytes(cx);
    lemma_load_subrange(ct, n - 16);
    lemma_load_of_bytes(cy);
}

/// A byte string of valid standard-mode length is the concatenation of its
/// parsed regions.
proof fn lemma_rebuild(msg: Seq<u8>)
    requires
        32 <= msg.len(),
    ensures
        ({
            let n = msg.len() as int;
            let m = pair_count(n);
            let fl = frag_len(n);
            bytes_of_blocks(blocks_at(msg, 0, 2 * m)) + msg.subrange(32 * m, 32 * m + fl)
                + block_bytes(load_at(msg, n - 32)) + block_bytes(load_at(msg, n - 16)) =~= msg
        }),
{
    let n = msg.len() as int;
    let m = pair_count(n);
    let fl = frag_len(n);
    vstd::arithmetic::div_mod::lemma_fundamental_div_mod(n - 32, 32);
    let bs = blocks_at(msg, 0, 2 * m);
    let out = bytes_of_blocks(bs) + msg.subrange(32 * m, 32 * m + fl) + block_bytes(
        load_at(msg, n - 32),
    ) + block_bytes(load_at(msg, n - 16));
    lemma_bytes_of_blocks_len(bs);
    lemma_bytes_of_load(msg, n - 32);
    lemma_bytes_of_load(msg, n - 16);
    assert(out.len() == n);
    assert forall|idx: int| 0 <= idx < n implies out[idx] == msg[idx] by {
        if idx < 32 * m {
            let j = idx / 16;
            let u = idx % 16;
            vstd::arithmetic::div_mod::lemma_fundamental_div_mod(idx, 16);
            lemma_bytes_of_blocks_index(bs, j, u);
            assert(bs[j] == load_at(msg, 16 * j));
            lemma_bytes_of_load(msg, 16 * j);
            assert(block_bytes(load_at(msg, 16 * j)) =~= msg.subrange(16 * j, 16 * j + 16));
        }
    }
    assert(out =~= msg);
}

/// Each recovered pair, run forward again, gives the output pair back.
proof fn lemma_pair_dual(k: KeySched, s: Block, cs: Seq<Block>, j: int)
    requires
        0 <= j,
        2 * j + 1 < cs.len(),
    ensures
        ({
            let wz = pass1(k, unpass(k, s, cs));
            ca2(k, s, wz, j) == cs[2 * j] && cb2(k, s, wz, j) == cs[2 * j + 1]
        }),
{
    let ca = cs[2 * j];
    let cb = cs[2 * j + 1];
    let t = eo(k, j as nat, s);
    let zp = dec_zp(k, j as nat, ca, cb);
    let wp = dec_wp(k, j as nat, ca, cb);
    let w = xor_block(wp, t);
    let z = xor_block(zp, t);
    let b = xor_block(z, es(k, w));
    let a = xor_block(w, ep(k, j as nat, b));
    let bs = unpass(k, s, cs);
    assert(bs[2 * j] == ma2(k, s, cs, j));
    assert(bs[2 * j + 1] == mb2(k, s, cs, j));
    assert(ma2(k, s, cs, j) == a);
    assert(mb2(k, s, cs, j) == b);
    lemma_xor_block_cancel(w, ep(k, j as nat, b));
    assert(w1(k, bs, j) == w);
    lemma_xor_block_cancel(z, es(k, w));
    assert(z1(k, bs, j) == z);
    let wz = pass1(k, bs);
    assert(wz[2 * j] == w);
    assert(wz[2 * j + 1] == z);
    lemma_xor_block_cancel(wp, t);
    lemma_xor_block_cancel(zp, t);
    assert(xor_block(w, t) == wp);
    assert(xor_block(z, t) == zp);
    lemma_xor_block_cancel(cb, es(k, zp));
    assert(xor_block(wp, es(k, zp)) == cb);
    lemma_xor_block_cancel(ca, ep(k, j as nat, cb));
    assert(cb2(k, s, wz, j) == cb);
    assert(ca2(k, s, wz, j) == ca);
}

/// The whole forward pass undoes the recovery pass.
proof fn lemma_pass_unpass(k: KeySched, s: Block, cs: Seq<Block>)
    requires
        cs.len() % 2 == 0,
    ensures
        pass2(k, s, pass1(k, unpass(k, s, cs))) =~= cs,
{
    let wz = pass1(k, unpass(k, s, cs));
    assert forall|t: int| 0 <= t < cs.len() implies pass2(k, s, wz)[t] == cs[t] by {
        let j = t / 2;
        assert(0 <= j && 2 * j + 1 < cs.len());
        lemma_pair_dual(k, s, cs, j);
        if t % 2 == 0 {
            assert(t == 2 * j);
        } else {
            assert(t == 2 * j + 1);
        }
    }
}

/// Enciphering a deciphered standard-mode input gives the input back.
#[verifier::rlimit(100)]
#[verifier::spinoff_prover]
pub proof fn lemma_wide_roundtrip_rev(k: KeySched, d: Block, ct: Seq<u8>)
    requires
        32 <= ct.len(),
    ensures
        spec_wide_encipher(k, d, spec_wide_decipher(k, d, ct)) =~= ct,
{
    let n = ct.len() as int;
    let m = pair_count(n);
    let fl = frag_len(n);
    vstd::arithmetic::div_mod::lemma_fundamental_div_mod(n - 32, 32);
    assert(n - 32 == 32 * m + fl);
    assert(0 <= fl < 32);
    assert(0 <= m);
    let cs = blocks_at(ct, 0, 2 * m);
    let cfrag = ct.subrange(32 * m, 32 * m + fl);
    let cx = load_at(ct, n - 32);
    let cy = load_at(ct, n - 16);
    let y = xor_block(y_pairs(k, cs), frag_hash(k, cfrag));
    let sy = xor_block(xor_block(xor_block(cx, d), y), ef(k, cy));
    let sx = xor_block(cy, em2(k, sy));
    let s = xor_block(sx, sy);
    let bs = unpass(k, s, cs);
    let frag = xor_trunc(cfrag, frag_stream(k, s));
    let x = xor_block(xsum_odd(pass1(k, bs)), frag_hash(k, frag));
    let my = xor_block(sy, em1(k, sx));
    let mx = xor_block(xor_block(xor_block(sx, d), x), ef(k, my));
    let msg = bytes_of_blocks(bs) + frag + block_bytes(mx) + block_bytes(my);
    assert(spec_wide_decipher(k, d, ct) == msg);

    // The recovered message parses back into the written regions.
    lemma_regions(bs, frag, mx, my, m);
    assert(msg.len() == n);
    assert(pair_count(msg.len() as int) == m && frag_len(msg.len() as int) == fl) by {
        vstd::arithmetic::div_mod::lemma_fundamental_div_mod_converse(n - 32, 32, m, fl);
    }
    let bs_r = blocks_at(msg, 0, 2 * m);
    assert(bs_r =~= bs);

    // Enciphering recomputes the same offset.
    let x_r = xor_block(xsum_odd(pass1(k, bs_r)), frag_hash(k, frag));
    assert(x_r == x);
    let sx_r = xor_block(xor_block(xor_block(mx, d), x_r), ef(k, my));
    lemma_unmask3(sx, d, x, ef(k, my));
    assert(sx_r == sx);
    let sy_r = xor_block(my, em1(k, sx_r));
    lemma_xor_block_cancel(sy, em1(k, sx));
    assert(sy_r == sy);

    // The pairs, the fragment and the final two blocks all return.
    lemma_pass_unpass(k, s, cs);
    let cs_r = pass2(k, s, pass1(k, bs_r));
    assert(cs_r =~= cs);
    let cfrag_r = xor_trunc(frag, frag_stream(k, s));
    lemma_xor_trunc_cancel(cfrag, frag_stream(k, s));
    assert(cfrag_r =~= cfrag);
    let y_r = xor_block(y_pairs(k, cs_r), frag_hash(k, cfrag_r));
    assert(y_r == y);
    let cy_r = xor_block(sx_r, em2(k, sy_r));
    lemma_xor_block_cancel(cy, em2(k, sy));
    assert(cy_r == cy);
    let cx_r = xor_block(xor_block(xor_block(sy_r, d), y_r), ef(k, cy_r));
    lemma_unmask3(cx, d, y, ef(k, cy));
    assert(cx_r == cx);
    assert(spec_wide_encipher(k, d, msg) == bytes_of_blocks(cs_r) + cfrag_r + block_bytes(cx_r)
        + block_bytes(cy_r));
    assert(bytes_of_blocks(cs_r) == bytes_of_blocks(cs));
    lemma_rebuild(ct);
}

/// Deciphering an enciphered standard-mode input gives the input back.
#[verifier::rlimit(100)]
#[verifier::spinoff_prover]
pub proof fn lemma_wide_roundtrip(k: KeySched, d: Block, msg: Seq<u8>)
    requires
        32 <= msg.len(),
    ensures
        spec_wide_decipher(k, d, spec_wide_encipher(k, d, msg)) =~= msg,
{
    let n = msg.len() as int;
    let m = pair_count(n);
    let fl = frag_len(n);
    vstd::arithmetic::div_mod::lemma_fundamental_div_mod(n - 32, 32);
    assert(n - 32 == 32 * m + fl);
    assert(0 <= fl < 32);
    assert(0 <= m);
    let bs = blocks_at(msg, 0, 2 * m);
    let frag = msg.subrange(32 * m, 32 * m + fl);
    let mx = load_at(msg, n - 32);
    let my = load_at(msg, n - 16);
    let wz = pass1(k, bs);
    let x = xor_block(xsum_odd(wz), frag_hash(k, frag));
    let sx = xor_block(xor_block(xor_block(mx, d), x), ef(k, my));
    let sy = xor_block(my, em1(k, sx));
    let s = xor_block(sx, sy);
    let cs = pass2(k, s, wz);
    let cfrag = xor_trunc(frag, frag_stream(k, s));
    let y = xor_block(y_pairs(k, cs), frag_hash(k, cfrag));
    let cy = xor_block(sx, em2(k, sy));
    let cx = xor_block(xor_block(xor_block(sy, d), y), ef(k, cy));
    let ct = bytes_of_blocks(cs) + cfrag + block_bytes(cx) + block_bytes(cy);
    assert(spec_wide_encipher(k, d, msg) == ct);

    // The ciphertext parses back into the written regions.
    lemma_regions(cs, cfrag, cx, cy, m);
    assert(ct.len() == n);
    assert(pair_count(ct.len() as int) == m && frag_len(ct.len() as int) == fl) by {
        vstd::arithmetic::div_mod::lemma_fundamental_div_mod_converse(n - 32, 32, m, fl);
    }
    let cs_r = blocks_at(ct, 0, 2 * m);
    assert(cs_r =~= cs);

    // The decryption side recovers the offset.
    let y_r = xor_block(y_pairs(k, cs_r), frag_hash(k, cfrag));
    assert(y_r == y);
    let sy_r = xor_block(xor_block(xor_block(cx, d), y_r), ef(k, cy));
    lemma_unmask3(sy, d, y, ef(k, cy));
    assert(sy_r == sy);
    let sx_r = xor_block(cy, em2(k, sy_r));
    lemma_xor_block_cancel(sx, em2(k, sy));
    assert(sx_r == sx);

    // The pairs, the fragment and the final two blocks all undo.
    lemma_unpass_pass(k, s, bs);
    let bs_r = unpass(k, s, cs_r);
    assert(bs_r =~= bs);
    let frag_r = xor_trunc(cfrag, frag_stream(k, s));
    lemma_xor_trunc_cancel(frag, frag_stream(k, s));
    assert(frag_r =~= frag);
    let x_r = xor_block(xsum_odd(pass1(k, bs_r)), frag_hash(k, frag_r));
    assert(x_r == x);
    let my_r = xor_block(sy_r, em1(k, sx_r));
    lemma_xor_block_cancel(my, em1(k, sx));
    assert(my_r == my);
    let mx_r = xor_block(xor_block(xor_block(sx_r, d), x_r), ef(k, my_r));
    lemma_unmask3(mx, d, x, ef(k, my));
    assert(mx_r == mx);
    assert(spec_wide_decipher(k, d, ct) == bytes_of_blocks(bs_r) + frag_r + block_bytes(mx_r)
        + block_bytes(my_r));
    assert(bytes_of_blocks(bs_r) == bytes_of_blocks(bs));
    lemma_rebuild(msg);
}


fn frag_hash_exec(k: &KeySched, s: &[u8], off: usize, fl: usize) -> (r: Block)
    requires
        off + fl <= s@.len(),
        fl < 32,
    ensures
        r == frag_hash(*k, s@.subrange(off as int, off + fl)),
{
    let ghost frag = s@.subrange(off as int, off + fl);
    let slen: usize = s.len();
    if fl == 0 {
        Block::zero()
    } else if fl <= 16 {
        let b = pad_load_block(s, off, fl);
        e4(k, dbl_iter(k.kl, 9).xor(Block { lo: fl as u64, hi: 0 }), b)
    } else {
        let b1 = load_block(s, off);
        proof {
            assert(load_at(frag, 0) == load_at(s@, off as int)) by {
                assert(forall|i: int| 0 <= i < 16 ==> frag[i] == s@[off + i]);
            }
        }
        let b2 = pad_load_block(s, off + 16, fl - 16);
        proof {
            assert(frag.skip(16) =~= s@.subrange(off + 16, off + fl));
        }
        e4(k, dbl_iter(k.kl, 9).xor(Block { lo: fl as u64, hi: 0 }), b1).xor(
            e4(k, dbl_iter(k.kl, 10).xor(Block { lo: fl as u64, hi: 0 }), b2),
        )
    }
}

/// Copies the fragment out of `src` and XORs the offset-derived stream into it.
fn apply_frag_stream(k: &KeySched, s: Block, src: &[u8], off: usize, fl: usize) -> (r: Vec<u8>)
    requires
        off + fl <= src@.len(),
        fl < 32,
    ensures
        r@ =~= xor_trunc(src@.subrange(off as int, off + fl), frag_stream(*k, s)),
{
    let ghost frag = src@.subrange(off as int, off + fl);
    let slen: usize = src.len();
    let n1: usize = if fl <= 16 {
        fl
    } else {
        16
    };
    let mut v1: Vec<u8> = Vec::new();
    let mut i: usize = 0;
    while i < n1
        invariant
            i <= n1,
            n1 <= fl,
            off + fl <= slen,
            slen == src@.len(),
            v1@ =~= src@.subrange(off as int, off + i),
        decreases n1 - i,
    {
        v1.push(src[off + i]);
        i += 1;
    }
    let mut v2: Vec<u8> = Vec::new();
    while i < fl
        invariant
            n1 <= i <= fl,
            off + fl <= slen,
            slen == src@.len(),
            v1@ =~= src@.subrange(off as int, off + n1),
            v2@ =~= src@.subrange(off + n1, off + i),
        decreases fl - i,
    {
        v2.push(src[off + i]);
        i += 1;
    }
    let st1 = e10(k, dbl_iter(k.kl, 11), s);
    let st2 = e10(k, dbl_iter(k.kl, 12), s);
    xor_into(&mut v1, st1);
    xor_into(&mut v2, st2);
    let mut r = v1;
    let mut j: usize = 0;
    let v2len: usize = v2.len();
    while j < v2len
        invariant
            j <= v2len,
            v2len == v2@.len(),
            r@ =~= xor_trunc(frag.take(n1 as int), block_bytes(st1)) + v2@.take(j as int),
        decreases v2len - j,
    {
        r.push(v2[j]);
        j += 1;
    }
    proof {
        assert(v2@.take(v2len as int) =~= v2@);
        let out = xor_trunc(frag.take(n1 as int), block_bytes(st1)) + xor_trunc(
            frag.skip(n1 as int),
            block_bytes(st2),
        );
        assert(r@ =~= out);
        assert forall|t: int| 0 <= t < fl implies out[t] == (frag[t] ^ frag_stream(*k, s)[t]) by {
            if t < n1 {
                assert(out[t] == (frag[t] ^ block_bytes(st1)[t]));
                assert(frag_stream(*k, s)[t] == block_bytes(st1)[t]);
            } else {
                assert(n1 == 16);
                assert(out[t] == (frag[t] ^ block_bytes(st2)[t - 16]));
                assert(frag_stream(*k, s)[t] == block_bytes(st2)[t - 16]);
            }
        }
        assert(r@ =~= xor_trunc(frag, frag_stream(*k, s)));
    }
    r
}

/// Applies the standard-mode permutation to `msg` (at least 32 bytes).
#[verifier::rlimit(100)]
pub fn wide_encipher(k: &KeySched, d: Block, msg: &[u8]) -> (r: Vec<u8>)
    requires
        32 <= msg@.len(),
    ensures
        r@ == spec_wide_encipher(*k, d, msg@),
{
    let n: usize = msg.len();
    let m: usize = (n - 32) / 32;
    let fl: usize = (n - 32) % 32;
    proof {
        vstd::arithmetic::div_mod::lemma_fundamental_div_mod((n - 32) as int, 32);
        assert(n - 32 == 32 * m + fl);
    }
    let ghost bs = blocks_at(msg@, 0, 2 * m as int);
    let ghost wz_spec = pass1(*k, bs);
    let lane5 = dbl_iter(k.kl, 5);
    let lane6 = dbl_iter(k.kl, 6);
    let mut wz: Vec<Block> = Vec::new();
    let mut xacc = Block::zero();
    let mut chain = dbl_iter(k.ki, 1);
    let mut j: usize = 0;
    while j < m
        invariant
            j <= m,
            n == msg@.len(),
            32 * m + fl + 32 == n,
            bs == blocks_at(msg@, 0, 2 * m as int),
            wz_spec == pass1(*k, bs),
            lane5 == dbl_n(5, k.kl),
            lane6 == dbl_n(6, k.kl),
            chain == dbl_n((j + 1) as nat, k.ki),
            wz@ =~= wz_spec.take(2 * j),
            xacc == xsum_odd(wz_spec.take(2 * j)),
        decreases m - j,
    {
        let a = load_block(msg, 32 * j);
        let b = load_block(msg, 32 * j + 16);
        proof {
            assert(bs[2 * j] == load_at(msg@, 16 * (2 * j)));
            assert(bs[2 * j + 1] == load_at(msg@, 16 * (2 * j + 1)));
            assert(16 * (2 * j) == 32 * j);
            assert(16 * (2 * j + 1) == 32 * j + 16);
        }
        let w = a.xor(e4(k, lane5.xor(chain), b));
        let z = b.xor(e4(k, lane6, w));
        proof {
            assert(w == w1(*k, bs, j as int));
            assert(z == z1(*k, bs, j as int));
            assert(wz_spec[2 * j] == w1(*k, bs, j as int));
            assert(wz_spec[2 * j + 1] == z1(*k, bs, j as int));
            assert(wz_spec.take(2 * j + 2).take(2 * j) =~= wz_spec.take(2 * j));
            assert(wz@ + seq![w, z] =~= wz_spec.take(2 * j + 2));
            assert(xsum_odd(wz_spec.take(2 * j + 2)) == xor_block(
                xsum_odd(wz_spec.take(2 * j)),
                wz_spec.take(2 * j + 2)[2 * j + 1],
            ));
        }
        wz.push(w);
        wz.push(z);
        xacc = xacc.xor(z);
        chain = dbl(chain);
        j += 1;
    }
    proof {
        assert(wz_spec.take(2 * m as int) =~= wz_spec);
        assert(wz@ =~= wz_spec);
    }
    let ghost frag = msg@.subrange(32 * m as int, 32 * m + fl as int);
    let fh = frag_hash_exec(k, msg, 32 * m, fl);
    let x = xacc.xor(fh);
    let mx = load_block(msg, n - 32);
    let my = load_block(msg, n - 16);
    let lane8 = dbl_iter(k.kl, 8);
    let sx = mx.xor(d).xor(x).xor(e4(k, lane8, my));
    let sy = my.xor(e10(k, dbl_iter(k.kl, 13), sx));
    let s = sx.xor(sy);
    let ghost cs_spec = pass2(*k, s, wz_spec);
    let lane7 = dbl_iter(k.kl, 7);
    let mut out: Vec<u8> = Vec::new();
    let mut yacc = Block::zero();
    let mut chain2 = dbl_iter(k.ki, 1);
    let mut j2: usize = 0;
    while j2 < m
        invariant
            j2 <= m,
            n == msg@.len(),
            32 * m + fl + 32 == n,
            wz@ =~= wz_spec,
            wz@.len() == 2 * m,
            cs_spec == pass2(*k, s, wz_spec),
            lane5 == dbl_n(5, k.kl),
            lane6 == dbl_n(6, k.kl),
            lane7 == dbl_n(7, k.kl),
            chain2 == dbl_n((j2 + 1) as nat, k.ki),
            out@ =~= bytes_of_blocks(cs_spec.take(2 * j2)),
            yacc == y_pairs(*k, cs_spec.take(2 * j2)),
        decreases m - j2,
    {
        let t = e4(k, lane7.xor(chain2), s);
        let w = wz[2 * j2];
        let z = wz[2 * j2 + 1];
        let wp = w.xor(t);
        let zp = z.xor(t);
        let cb = wp.xor(e4(k, lane6, zp));
        let ca = zp.xor(e4(k, lane5.xor(chain2), cb));
        proof {
            assert(t == eo(*k, j2 as nat, s));
            assert(ca == ca2(*k, s, wz_spec, j2 as int));
            assert(cb == cb2(*k, s, wz_spec, j2 as int));
            assert(cs_spec[2 * j2] == ca);
            assert(cs_spec[2 * j2 + 1] == cb);
            lemma_xor_block_cancel(zp, ep(*k, j2 as nat, cb));
            assert(dec_zp(*k, j2 as nat, ca, cb) == zp);
            lemma_xor_block_cancel(wp, es(*k, zp));
            assert(dec_wp(*k, j2 as nat, ca, cb) == wp);
            let pre = cs_spec.take(2 * j2 + 2);
            assert(pre.take(2 * j2) =~= cs_spec.take(2 * j2));
            assert(pre[2 * j2] == ca && pre[2 * j2 + 1] == cb);
            assert(y_pairs(*k, pre) == xor_block(
                y_pairs(*k, cs_spec.take(2 * j2)),
                dec_wp(*k, j2 as nat, ca, cb),
            ));
            let p1 = cs_spec.take(2 * j2 + 1);
            assert(pre.take(2 * j2 + 1) =~= p1);
            assert(bytes_of_blocks(pre) == bytes_of_blocks(p1) + block_bytes(cb));
            assert(p1.take(2 * j2) =~= cs_spec.take(2 * j2));
            assert(bytes_of_blocks(p1) == bytes_of_blocks(cs_spec.take(2 * j2)) + block_bytes(ca));
        }
        push_block(&mut out, ca);
        push_block(&mut out, cb);
        yacc = yacc.xor(wp);
        chain2 = dbl(chain2);
        j2 += 1;
    }
    proof {
        assert(cs_spec.take(2 * m as int) =~= cs_spec);
        assert(out@ =~= bytes_of_blocks(cs_spec));
        assert(yacc == y_pairs(*k, cs_spec));
    }
    let cfrag = apply_frag_stream(k, s, msg, 32 * m, fl);
    let cfh = frag_hash_exec(k, cfrag.as_slice(), 0, fl);
    proof {
        assert(cfrag@.subrange(0, fl as int) =~= cfrag@);
    }
    let y = yacc.xor(cfh);
    let cy = sx.xor(e10(k, dbl_iter(k.kl, 14), sy));
    let cx = sy.xor(d).xor(y).xor(e4(k, lane8, cy));
    let mut r = out;
    let mut u: usize = 0;
    let clen: usize = cfrag.len();
    while u < clen
        invariant
            u <= clen,
            clen == cfrag@.len(),
            r@ =~= bytes_of_blocks(cs_spec) + cfrag@.take(u as int),
        decreases clen - u,
    {
        r.push(cfrag[u]);
        u += 1;
    }
    proof {
        assert(cfrag@.take(clen as int) =~= cfrag@);
    }
    push_block(&mut r, cx);
    push_block(&mut r, cy);
    proof {
        assert(r@ =~= bytes_of_blocks(cs_spec) + cfrag@ + block_bytes(cx) + block_bytes(cy));
        assert(pair_count(n as int) == m && frag_len(n as int) == fl) by {
            vstd::arithmetic::div_mod::lemma_fundamental_div_mod_converse(
                n - 32,
                32,
                m as int,
                fl as int,
            );
        }
    }
    r
}

/// Applies the inverse standard-mode permutation to `ct` (at least 32 bytes).
#[verifier::rlimit(100)]
pub fn wide_decipher(k: &KeySched, d: Block, ct: &[u8]) -> (r: Vec<u8>)
    requires
        32 <= ct@.len(),
    ensures
        r@ == spec_wide_decipher(*k, d, ct@),
{
    let n: usize = ct.len();
    let m: usize = (n - 32) / 32;
    let fl: usize = (n - 32) % 32;
    proof {
        vstd::arithmetic::div_mod::lemma_fundamental_div_mod((n - 32) as int, 32);
        assert(n - 32 == 32 * m + fl);
        assert(pair_count(n as int) == m && frag_len(n as int) == fl);
    }
    let ghost cs = blocks_at(ct@, 0, 2 * m as int);
    let lane5 = dbl_iter(k.kl, 5);
    let lane6 = dbl_iter(k.kl, 6);
    let mut wpzp: Vec<Block> = Vec::new();
    let mut yacc = Block::zero();
    let mut chain = dbl_iter(k.ki, 1);
    let mut j: usize = 0;
    while j < m
        invariant
            j <= m,
            n == ct@.len(),
            32 * m + fl + 32 == n,
            cs == blocks_at(ct@, 0, 2 * m as int),
            lane5 == dbl_n(5, k.kl),
            lane6 == dbl_n(6, k.kl),
            chain == dbl_n((j + 1) as nat, k.ki),
            wpzp@.len() == 2 * j,
            forall|t: int|
                0 <= t < j ==> #[trigger] wpzp@[2 * t] == dec_wp(*k, t as nat, cs[2 * t], cs[2 * t + 1])
                    && wpzp@[2 * t + 1] == dec_zp(*k, t as nat, cs[2 * t], cs[2 * t + 1]),
            yacc == y_pairs(*k, cs.take(2 * j)),
        decreases m - j,
    {
        let ca = load_block(ct, 32 * j);
        let cb = load_block(ct, 32 * j + 16);
        proof {
            assert(cs[2 * j] == load_at(ct@, 16 * (2 * j)));
            assert(cs[2 * j + 1] == load_at(ct@, 16 * (2 * j + 1)));
            assert(16 * (2 * j) == 32 * j);
            assert(16 * (2 * j + 1) == 32 * j + 16);
        }
        let zp = ca.xor(e4(k, lane5.xor(chain), cb));
        let wp = cb.xor(e4(k, lane6, zp));
        proof {
            assert(zp == dec_zp(*k, j as nat, cs[2 * j], cs[2 * j + 1]));
            assert(wp == dec_wp(*k, j as nat, cs[2 * j], cs[2 * j + 1]));
            let pre = cs.take(2 * j + 2);
            assert(pre.take(2 * j) =~= cs.take(2 * j));
            assert(pre[2 * j] == cs[2 * j] && pre[2 * j + 1] == cs[2 * j + 1]);
            assert(y_pairs(*k, pre) == xor_block(
                y_pairs(*k, cs.take(2 * j)),
                dec_wp(*k, j as nat, cs[2 * j], cs[2 * j + 1]),
            ));
        }
        let ghost prev = wpzp@;
        wpzp.push(wp);
        wpzp.push(zp);
        proof {
            assert(wpzp@.len() == 2 * j + 2);
            assert forall|t: int| 0 <= t < j + 1 implies #[trigger] wpzp@[2 * t] == dec_wp(
                *k,
                t as nat,
                cs[2 * t],
                cs[2 * t + 1],
            ) && wpzp@[2 * t + 1] == dec_zp(*k, t as nat, cs[2 * t], cs[2 * t + 1]) by {
                if t == j {
                    assert(wpzp@[2 * t] == wp);
                    assert(wpzp@[2 * t + 1] == zp);
                } else {
                    assert(0 <= 2 * t && 2 * t + 1 < prev.len());
                    assert(wpzp@[2 * t] == prev[2 * t]);
                    assert(wpzp@[2 * t + 1] == prev[2 * t + 1]);
                    assert(prev[2 * t] == dec_wp(*k, t as nat, cs[2 * t], cs[2 * t + 1]));
                    assert(prev[2 * t + 1] == dec_zp(*k, t as nat, cs[2 * t], cs[2 * t + 1]));
                }
            }
        }
        yacc = yacc.xor(wp);
        chain = dbl(chain);
        j += 1;
    }
    proof {
        assert(cs.take(2 * m as int) =~= cs);
    }
    let ghost cfrag = ct@.subrange(32 * m as int, 32 * m + fl as int);
    let cfh = frag_hash_exec(k, ct, 32 * m, fl);
    let y = yacc.xor(cfh);
    let cx = load_block(ct, n - 32);
    let cy = load_block(ct, n - 16);
    let lane8 = dbl_iter(k.kl, 8);
    let sy = cx.xor(d).xor(y).xor(e4(k, lane8, cy));
    let sx = cy.xor(e10(k, dbl_iter(k.kl, 14), sy));
    let s = sx.xor(sy);
    let ghost bs = unpass(*k, s, cs);
    let lane7 = dbl_iter(k.kl, 7);
    let mut out: Vec<u8> = Vec::new();
    let mut xacc = Block::zero();
    let mut chain2 = dbl_iter(k.ki, 1);
    let mut j2: usize = 0;
    while j2 < m
        invariant
            j2 <= m,
            n == ct@.len(),
            32 * m + fl + 32 == n,
            cs == blocks_at(ct@, 0, 2 * m as int),
            bs == unpass(*k, s, cs),
            lane5 == dbl_n(5, k.kl),
            lane6 == dbl_n(6, k.kl),
            lane7 == dbl_n(7, k.kl),
            chain2 == dbl_n((j2 + 1) as nat, k.ki),
            wpzp@.len() == 2 * m,
            forall|t: int|
                0 <= t < m ==> #[trigger] wpzp@[2 * t] == dec_wp(*k, t as nat, cs[2 * t], cs[2 * t + 1])
                    && wpzp@[2 * t + 1] == dec_zp(*k, t as nat, cs[2 * t], cs[2 * t + 1]),
            out@ =~= bytes_of_blocks(bs.take(2 * j2)),
            xacc == xsum_odd(pass1(*k, bs).take(2 * j2)),
        decreases m - j2,
    {
        let t = e4(k, lane7.xor(chain2), s);
        let wp = wpzp[2 * j2];
        let zp = wpzp[2 * j2 + 1];
        let w = wp.xor(t);
        let z = zp.xor(t);
        let b = z.xor(e4(k, lane6, w));
        let a = w.xor(e4(k, lane5.xor(chain2), b));
        proof {
            assert(t == eo(*k, j2 as nat, s));
            assert(a == ma2(*k, s, cs, j2 as int));
            assert(b == mb2(*k, s, cs, j2 as int));
            assert(bs[2 * j2] == a);
            assert(bs[2 * j2 + 1] == b);
            assert(w1(*k, bs, j2 as int) == xor_block(a, ep(*k, j2 as nat, b)));
            lemma_xor_block_cancel(w, ep(*k, j2 as nat, b));
            assert(w1(*k, bs, j2 as int) == w);
            lemma_xor_block_cancel(z, es(*k, w));
            assert(z1(*k, bs, j2 as int) == z);
            let pre = pass1(*k, bs).take(2 * j2 + 2);
            assert(pre.take(2 * j2) =~= pass1(*k, bs).take(2 * j2));
            assert(pre[2 * j2 + 1] == z1(*k, bs, j2 as int));
            assert(xsum_odd(pre) == xor_block(
                xsum_odd(pass1(*k, bs).take(2 * j2)),
                z,
            ));
            let bp = bs.take(2 * j2 + 2);
            assert(bp.take(2 * j2 + 1) =~= bs.take(2 * j2 + 1));
            assert(bytes_of_blocks(bp) == bytes_of_blocks(bs.take(2 * j2 + 1)) + block_bytes(b));
            assert(bs.take(2 * j2 + 1).take(2 * j2) =~= bs.take(2 * j2));
            assert(bytes_of_blocks(bs.take(2 * j2 + 1)) == bytes_of_blocks(bs.take(2 * j2))
                + block_bytes(a));
        }
        push_block(&mut out, a);
        push_block(&mut out, b);
        xacc = xacc.xor(z);
        chain2 = dbl(chain2);
        j2 += 1;
    }
    proof {
        assert(bs.take(2 * m as int) =~= bs);
        assert(pass1(*k, bs).take(2 * m as int) =~= pass1(*k, bs));
        assert(out@ =~= bytes_of_blocks(bs));
    }
    let frag = apply_frag_stream(k, s, ct, 32 * m, fl);
    let fh = frag_hash_exec(k, frag.as_slice(), 0, fl);
    proof {
        assert(frag@.subrange(0, fl as int) =~= frag@);
    }
    let x = xacc.xor(fh);
    let my = sy.xor(e10(k, dbl_iter(k.kl, 13), sx));
    let mx = sx.xor(d).xor(x).xor(e4(k, lane8, my));
    let mut r = out;
    let mut u: usize = 0;
    let flen: usize = frag.len();
    while u < flen
        invariant
            u <= flen,
            flen == frag@.len(),
            r@ =~= bytes_of_blocks(bs) + frag@.take(u as int),
        decreases flen - u,
    {
        r.push(frag[u]);
        u += 1;
    }
    proof {
        assert(frag@.take(flen as int) =~= frag@);
    }
    push_block(&mut r, mx);
    push_block(&mut r, my);
    proof {
        assert(r@ =~= bytes_of_blocks(bs) + frag@ + block_bytes(mx) + block_bytes(my));
    }
    r
}

} // verus!
