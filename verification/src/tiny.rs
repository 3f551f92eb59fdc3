//! The tiny mode of the permutation: inputs of fewer than 32 bytes.
//!
//! The input is split into two roughly equal halves and run through an
//! alternating Feistel network: even rounds fold a masked transform of the
//! right half into the left half, odd rounds the reverse. The transform is
//! truncated to the half it is folded into, so the halves need not have equal
//! length. Shorter inputs run more rounds to recover the security margin lost
//! with the smaller block. Every round is an involution, so the inverse is the
//! same network with the round order reversed.

use vstd::prelude::*;

use crate::block::Block;
use crate::block::block_bytes;
use crate::block::dbl_iter;
use crate::block::dbl_n;
use crate::block::lemma_xor_trunc_cancel;
use crate::block::pad_load;
use crate::block::pad_load_block;
use crate::block::xor3;
use crate::block::xor_into;
use crate::block::xor_trunc;
use crate::prf::KeySched;
use crate::prf::e4;
use crate::prf::spec_e4;

verus! {

/// The number of Feistel rounds for an input of `n` bytes.
pub open spec fn tiny_round_count(n: nat) -> nat {
    if n == 1 {
        24
    } else if n == 2 {
        16
    } else if n < 16 {
        10
    } else {
        8
    }
}

/// The round function: a masked transform of the source half, bound to the
/// tweak, the round index and the input length. Mask lane 4 is reserved for
/// the tiny mode.
pub open spec fn spec_tiny_f(k: KeySched, d: Block, msg_len: nat, i: nat, src: Seq<u8>) -> Seq<
    u8,
> {
    block_bytes(
        spec_e4(
            k,
            xor3(dbl_n(4, k.kl), d, Block { lo: i as u64, hi: msg_len as u64 }),
            pad_load(src),
        ),
    )
}

/// One Feistel round: even rounds mask the left half from the right, odd
/// rounds the right half from the left.
pub open spec fn spec_tiny_round(
    k: KeySched,
    d: Block,
    msg_len: nat,
    i: nat,
    l: Seq<u8>,
    r: Seq<u8>,
) -> (Seq<u8>, Seq<u8>) {
    if i % 2 == 0 {
        (xor_trunc(l, spec_tiny_f(k, d, msg_len, i, r)), r)
    } else {
        (l, xor_trunc(r, spec_tiny_f(k, d, msg_len, i, l)))
    }
}

/// Rounds `i..n` applied in ascending order.
pub open spec fn spec_tiny_fwd(
    k: KeySched,
    d: Block,
    msg_len: nat,
    i: nat,
    n: nat,
    l: Seq<u8>,
    r: Seq<u8>,
) -> (Seq<u8>, Seq<u8>)
    decreases n - i,
{
    if i >= n {
        (l, r)
    } else {
        let s = spec_tiny_round(k, d, msg_len, i, l, r);
        spec_tiny_fwd(k, d, msg_len, i + 1, n, s.0, s.1)
    }
}

/// Rounds `0..i` applied in descending order.
pub open spec fn spec_tiny_rev(
    k: KeySched,
    d: Block,
    msg_len: nat,
    i: nat,
    l: Seq<u8>,
    r: Seq<u8>,
) -> (Seq<u8>, Seq<u8>)
    decreases i,
{
    if i == 0 {
        (l, r)
    } else {
        let s = spec_tiny_round(k, d, msg_len, (i - 1) as nat, l, r);
        spec_tiny_rev(k, d, msg_len, (i - 1) as nat, s.0, s.1)
    }
}

/// The tiny-mode permutation: Feistel halves `msg.len() / 2` and the rest.
pub open spec fn spec_tiny_encipher(k: KeySched, d: Block, msg: Seq<u8>) -> Seq<u8> {
    let h = msg.len() as int / 2;
    let s = spec_tiny_fwd(
        k,
        d,
        msg.len(),
        0,
        tiny_round_count(msg.len()),
        msg.take(h),
        msg.skip(h),
    );
    s.0 + s.1
}

/// The inverse tiny-mode permutation.
pub open spec fn spec_tiny_decipher(k: KeySched, d: Block, ct: Seq<u8>) -> Seq<u8> {
    let h = ct.len() as int / 2;
    let s = spec_tiny_rev(
        k,
        d,
        ct.len(),
        tiny_round_count(ct.len()),
        ct.take(h),
        ct.skip(h),
    );
    s.0 + s.1
}

/// The whole forward network leaves the half lengths unchanged.
pub proof fn lemma_tiny_fwd_len(
    k: KeySched,
    d: Block,
    msg_len: nat,
    i: nat,
    n: nat,
    l: Seq<u8>,
    r: Seq<u8>,
)
    ensures
        spec_tiny_fwd(k, d, msg_len, i, n, l, r).0.len() == l.len(),
        spec_tiny_fwd(k, d, msg_len, i, n, l, r).1.len() == r.len(),
    decreases n - i,
{
    if i < n {
        let s = spec_tiny_round(k, d, msg_len, i, l, r);
        lemma_tiny_fwd_len(k, d, msg_len, i + 1, n, s.0, s.1);
    }
}

/// The whole reverse network leaves the half lengths unchanged.
pub proof fn lemma_tiny_rev_len(
    k: KeySched,
    d: Block,
    msg_len: nat,
    i: nat,
    l: Seq<u8>,
    r: Seq<u8>,
)
    ensures
        spec_tiny_rev(k, d, msg_len, i, l, r).0.len() == l.len(),
        spec_tiny_rev(k, d, msg_len, i, l, r).1.len() == r.len(),
    decreases i,
{
    if i > 0 {
        let s = spec_tiny_round(k, d, msg_len, (i - 1) as nat, l, r);
        lemma_tiny_rev_len(k, d, msg_len, (i - 1) as nat, s.0, s.1);
    }
}

/// Each round is an involution: the masked half is unmasked by the same round.
proof fn lemma_tiny_round_involution(
    k: KeySched,
    d: Block,
    msg_len: nat,
    i: nat,
    l: Seq<u8>,
    r: Seq<u8>,
)
    ensures
        spec_tiny_round(
            k,
            d,
            msg_len,
            i,
            spec_tiny_round(k, d, msg_len, i, l, r).0,
            spec_tiny_round(k, d, msg_len, i, l, r).1,
        ) == (l, r),
{
    if i % 2 == 0 {
        lemma_xor_trunc_cancel(l, spec_tiny_f(k, d, msg_len, i, r));
    } else {
        lemma_xor_trunc_cancel(r, spec_tiny_f(k, d, msg_len, i, l));
    }
}

/// The forward network unrolls at its last round.
pub proof fn lemma_tiny_fwd_snoc(
    k: KeySched,
    d: Block,
    msg_len: nat,
    i: nat,
    n: nat,
    l: Seq<u8>,
    r: Seq<u8>,
)
    requires
        i < n,
    ensures
        spec_tiny_fwd(k, d, msg_len, i, n, l, r) == spec_tiny_round(
            k,
            d,
            msg_len,
            (n - 1) as nat,
            spec_tiny_fwd(k, d, msg_len, i, (n - 1) as nat, l, r).0,
            spec_tiny_fwd(k, d, msg_len, i, (n - 1) as nat, l, r).1,
        ),
    decreases n - i,
{
    let s = spec_tiny_round(k, d, msg_len, i, l, r);
    if i + 1 == n {
        assert(spec_tiny_fwd(k, d, msg_len, i, n, l, r) == spec_tiny_fwd(
            k,
            d,
            msg_len,
            i + 1,
            n,
            s.0,
            s.1,
        ));
    } else {
        lemma_tiny_fwd_snoc(k, d, msg_len, i + 1, n, s.0, s.1);
    }
}

/// Running the rounds backwards undoes running them forwards.
pub proof fn lemma_tiny_rev_fwd(
    k: KeySched,
    d: Block,
    msg_len: nat,
    n: nat,
    l: Seq<u8>,
    r: Seq<u8>,
)
    ensures
        spec_tiny_rev(
            k,
            d,
            msg_len,
            n,
            spec_tiny_fwd(k, d, msg_len, 0, n, l, r).0,
            spec_tiny_fwd(k, d, msg_len, 0, n, l, r).1,
        ) == (l, r),
    decreases n,
{
    if n > 0 {
        let prev = spec_tiny_fwd(k, d, msg_len, 0, (n - 1) as nat, l, r);
        lemma_tiny_fwd_snoc(k, d, msg_len, 0, n, l, r);
        let full = spec_tiny_round(k, d, msg_len, (n - 1) as nat, prev.0, prev.1);
        assert(spec_tiny_fwd(k, d, msg_len, 0, n, l, r) == full);
        lemma_tiny_round_involution(k, d, msg_len, (n - 1) as nat, prev.0, prev.1);
        assert(spec_tiny_round(k, d, msg_len, (n - 1) as nat, full.0, full.1) == (prev.0, prev.1));
        lemma_tiny_rev_fwd(k, d, msg_len, (n - 1) as nat, l, r);
    }
}

/// Running the rounds forwards undoes running them backwards.
pub proof fn lemma_tiny_fwd_rev(
    k: KeySched,
    d: Block,
    msg_len: nat,
    n: nat,
    l: Seq<u8>,
    r: Seq<u8>,
)
    ensures
        spec_tiny_fwd(
            k,
            d,
            msg_len,
            0,
            n,
            spec_tiny_rev(k, d, msg_len, n, l, r).0,
            spec_tiny_rev(k, d, msg_len, n, l, r).1,
        ) == (l, r),
    decreases n,
{
    if n > 0 {
        let s1 = spec_tiny_round(k, d, msg_len, (n - 1) as nat, l, r);
        assert(spec_tiny_rev(k, d, msg_len, n, l, r) == spec_tiny_rev(
            k,
            d,
            msg_len,
            (n - 1) as nat,
            s1.0,
            s1.1,
        ));
        lemma_tiny_fwd_rev(k, d, msg_len, (n - 1) as nat, s1.0, s1.1);
        let back = spec_tiny_rev(k, d, msg_len, (n - 1) as nat, s1.0, s1.1);
        lemma_tiny_fwd_snoc(k, d, msg_len, 0, n, back.0, back.1);
        lemma_tiny_round_involution(k, d, msg_len, (n - 1) as nat, l, r);
    }
}

/// Enciphering a deciphered tiny input gives the input back.
pub proof fn lemma_tiny_roundtrip_rev(k: KeySched, d: Block, ct: Seq<u8>)
    requires
        0 < ct.len() < 32,
    ensures
        spec_tiny_encipher(k, d, spec_tiny_decipher(k, d, ct)) =~= ct,
{
    let h = ct.len() as int / 2;
    let n = tiny_round_count(ct.len());
    let l0 = ct.take(h);
    let r0 = ct.skip(h);
    let s = spec_tiny_rev(k, d, ct.len(), n, l0, r0);
    lemma_tiny_rev_len(k, d, ct.len(), n, l0, r0);
    let msg = s.0 + s.1;
    assert(msg.len() == ct.len());
    assert(msg.take(h) =~= s.0);
    assert(msg.skip(h) =~= s.1);
    lemma_tiny_fwd_rev(k, d, ct.len(), n, l0, r0);
    assert(spec_tiny_encipher(k, d, msg) == l0 + r0);
    assert(l0 + r0 =~= ct);
}

/// Deciphering an enciphered tiny input gives the input back.
pub proof fn lemma_tiny_roundtrip(k: KeySched, d: Block, msg: Seq<u8>)
    requires
        0 < msg.len() < 32,
    ensures
        spec_tiny_decipher(k, d, spec_tiny_encipher(k, d, msg)) =~= msg,
{
    let h = msg.len() as int / 2;
    let n = tiny_round_count(msg.len());
    let l0 = msg.take(h);
    let r0 = msg.skip(h);
    let s = spec_tiny_fwd(k, d, msg.len(), 0, n, l0, r0);
    lemma_tiny_fwd_len(k, d, msg.len(), 0, n, l0, r0);
    let ct = s.0 + s.1;
    assert(ct.len() == msg.len());
    assert(ct.take(h) =~= s.0);
    assert(ct.skip(h) =~= s.1);
    lemma_tiny_rev_fwd(k, d, msg.len(), n, l0, r0);
    assert(spec_tiny_decipher(k, d, ct) == l0 + r0);
    assert(l0 + r0 =~= msg);
}

fn tiny_round_count_exec(n: usize) -> (r: usize)
    ensures
        r == tiny_round_count(n as nat),
{
    if n == 1 {
        24
    } else if n == 2 {
        16
    } else if n < 16 {
        10
    } else {
        8
    }
}

fn tiny_f(k: &KeySched, d: Block, msg_len: usize, i: usize, src: &Vec<u8>) -> (r: Block)
    requires
        src@.len() <= 16,
    ensures
        block_bytes(r) == spec_tiny_f(*k, d, msg_len as nat, i as nat, src@),
{
    let mask = dbl_iter(k.kl, 4).xor(d).xor(Block { lo: i as u64, hi: msg_len as u64 });
    proof {
        assert(src@.subrange(0, src@.len() as int) =~= src@);
    }
    e4(k, mask, pad_load_block(src.as_slice(), 0, src.len()))
}

/// Applies the tiny-mode permutation to `msg` (1 to 31 bytes).
pub fn tiny_encipher(k: &KeySched, d: Block, msg: &[u8]) -> (r: Vec<u8>)
    requires
        0 < msg@.len() < 32,
    ensures
        r@ == spec_tiny_encipher(*k, d, msg@),
{
    let len: usize = msg.len();
    let h: usize = len / 2;
    let mut l: Vec<u8> = Vec::new();
    let mut r: Vec<u8> = Vec::new();
    let mut t: usize = 0;
    while t < h
        invariant
            t <= h,
            h <= len,
            len == msg@.len(),
            l@ =~= msg@.take(h as int).take(t as int),
        decreases h - t,
    {
        l.push(msg[t]);
        t += 1;
    }
    while t < len
        invariant
            h <= t <= len,
            len == msg@.len(),
            r@ =~= msg@.skip(h as int).take(t - h),
        decreases len - t,
    {
        r.push(msg[t]);
        t += 1;
    }
    proof {
        assert(l@ =~= msg@.take(h as int));
        assert(r@ =~= msg@.skip(h as int));
    }
    let n = tiny_round_count_exec(len);
    let ghost l0 = l@;
    let ghost r0 = r@;
    let mut i: usize = 0;
    while i < n
        invariant
            i <= n,
            len == msg@.len(),
            n == tiny_round_count(msg@.len()),
            l@.len() == l0.len(),
            r@.len() == r0.len(),
            l@.len() <= 16,
            r@.len() <= 16,
            (l@, r@) == spec_tiny_fwd(*k, d, msg@.len(), 0, i as nat, l0, r0),
        decreases n - i,
    {
        let ghost prev_l = l@;
        let ghost prev_r = r@;
        if i % 2 == 0 {
            let f = tiny_f(k, d, len, i, &r);
            xor_into(&mut l, f);
        } else {
            let f = tiny_f(k, d, len, i, &l);
            xor_into(&mut r, f);
        }
        proof {
            assert((l@, r@) == spec_tiny_round(*k, d, msg@.len(), i as nat, prev_l, prev_r));
            lemma_tiny_fwd_snoc(*k, d, msg@.len(), 0, (i + 1) as nat, l0, r0);
        }
        i += 1;
    }
    let mut out = l;
    let mut j: usize = 0;
    let rlen: usize = r.len();
    while j < rlen
        invariant
            j <= rlen,
            rlen == r@.len(),
            out@ =~= spec_tiny_fwd(*k, d, msg@.len(), 0, tiny_round_count(msg@.len()), l0, r0).0
                + r@.take(j as int),
        decreases rlen - j,
    {
        out.push(r[j]);
        j += 1;
    }
    proof {
        assert(r@.take(rlen as int) =~= r@);
    }
    out
}

/// Applies the inverse tiny-mode permutation to `ct` (1 to 31 bytes).
pub fn tiny_decipher(k: &KeySched, d: Block, ct: &[u8]) -> (r: Vec<u8>)
    requires
        0 < ct@.len() < 32,
    ensures
        r@ == spec_tiny_decipher(*k, d, ct@),
{
    let len: usize = ct.len();
    let h: usize = len / 2;
    let mut l: Vec<u8> = Vec::new();
    let mut r: Vec<u8> = Vec::new();
    let mut t: usize = 0;
    while t < h
        invariant
            t <= h,
            h <= len,
            len == ct@.len(),
            l@ =~= ct@.take(h as int).take(t as int),
        decreases h - t,
    {
        l.push(ct[t]);
        t += 1;
    }
    while t < len
        invariant
            h <= t <= len,
            len == ct@.len(),
            r@ =~= ct@.skip(h as int).take(t - h),
        decreases len - t,
    {
        r.push(ct[t]);
        t += 1;
    }
    proof {
        assert(l@ =~= ct@.take(h as int));
        assert(r@ =~= ct@.skip(h as int));
    }
    let n = tiny_round_count_exec(len);
    let ghost l0 = l@;
    let ghost r0 = r@;
    let mut i: usize = n;
    while i > 0
        invariant
            i <= n,
            len == ct@.len(),
            n == tiny_round_count(ct@.len()),
            l@.len() == l0.len(),
            r@.len() == r0.len(),
            l@.len() <= 16,
            r@.len() <= 16,
            spec_tiny_rev(*k, d, ct@.len(), i as nat, l@, r@) == spec_tiny_rev(
                *k,
                d,
                ct@.len(),
                n as nat,
                l0,
                r0,
            ),
        decreases i,
    {
        let ghost prev_l = l@;
        let ghost prev_r = r@;
        if (i - 1) % 2 == 0 {
            let f = tiny_f(k, d, len, i - 1, &r);
            xor_into(&mut l, f);
        } else {
            let f = tiny_f(k, d, len, i - 1, &l);
            xor_into(&mut r, f);
        }
        proof {
            assert((l@, r@) == spec_tiny_round(*k, d, ct@.len(), (i - 1) as nat, prev_l, prev_r));
            assert(spec_tiny_rev(*k, d, ct@.len(), i as nat, prev_l, prev_r) == spec_tiny_rev(
                *k,
                d,
                ct@.len(),
                (i - 1) as nat,
                l@,
                r@,
            ));
        }
        i -= 1;
    }
    let mut out = l;
    let mut j: usize = 0;
    let rlen: usize = r.len();
    while j < rlen
        invariant
            j <= rlen,
            rlen == r@.len(),
            out@ =~= spec_tiny_rev(*k, d, ct@.len(), tiny_round_count(ct@.len()), l0, r0).0
                + r@.take(j as int),
        decreases rlen - j,
    {
        out.push(r[j]);
        j += 1;
    }
    proof {
        assert(r@.take(rlen as int) =~= r@);
    }
    out
}

} // verus!
