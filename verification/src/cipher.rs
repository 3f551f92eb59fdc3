//! The encrypt/decrypt facade.
//!
//! Encryption appends `tau` zero bytes to the plaintext and enciphers the
//! result under the tweak assembled from nonce, associated data and `tau`;
//! the first bytes of the output are the ciphertext body and the last `tau`
//! bytes the authentication tag. Decryption inverts the permutation and
//! accepts only when the trailing `tau` bytes are all zero; on a mismatch it
//! fails closed and releases none of the candidate plaintext. With `tau = 0`
//! no authentication is provided and decryption never fails: a degenerate,
//! non-authenticating mode.

use vstd::prelude::*;

use crate::block::Block;
use crate::extract::extract;
use crate::extract::spec_extract;
use crate::prf::KeySched;
use crate::tiny::lemma_tiny_fwd_len;
use crate::tiny::lemma_tiny_roundtrip;
use crate::tiny::lemma_tiny_roundtrip_rev;
use crate::tiny::spec_tiny_decipher;
use crate::tiny::spec_tiny_encipher;
use crate::tiny::tiny_decipher;
use crate::tiny::tiny_encipher;
use crate::tweak::assemble;
use crate::tweak::spec_tweak;
use crate::wide::lemma_wide_roundtrip;
use crate::wide::lemma_wide_roundtrip_rev;
use crate::wide::spec_wide_decipher;
use crate::wide::spec_wide_encipher;
use crate::wide::wide_decipher;
use crate::wide::wide_encipher;

verus! {

/// Why a call failed.
#[derive(Clone, Copy, Debug, PartialEq, Eq, Structural)]
pub enum AezError {
    /// A caller-contract violation: nonce length outside 1..=16, tau outside
    /// 0..=16, a tau larger than the ciphertext, or a total length of 2^32
    /// bytes or more. Detected before any cryptographic work.
    ContractViolation,
    /// The authentication check failed on decryption: the ciphertext was
    /// tampered with or misdelivered. No plaintext is released.
    AuthenticationFailure,
}

/// The length-preserving tweakable permutation: tiny mode below 32 bytes,
/// standard mode from 32 bytes on, the empty string for the empty string.
pub open spec fn spec_encipher(k: KeySched, d: Block, msg: Seq<u8>) -> Seq<u8> {
    if msg.len() == 0 {
        msg
    } else if msg.len() < 32 {
        spec_tiny_encipher(k, d, msg)
    } else {
        spec_wide_encipher(k, d, msg)
    }
}

/// The inverse permutation.
pub open spec fn spec_decipher(k: KeySched, d: Block, ct: Seq<u8>) -> Seq<u8> {
    if ct.len() == 0 {
        ct
    } else if ct.len() < 32 {
        spec_tiny_decipher(k, d, ct)
    } else {
        spec_wide_decipher(k, d, ct)
    }
}

/// `n` zero bytes.
pub open spec fn zeros(n: nat) -> Seq<u8> {
    Seq::new(n, |i: int| 0u8)
}

/// The associated data a call sees: absent data is the empty string.
pub open spec fn ad_view(ad: Option<&[u8]>) -> Seq<u8> {
    match ad {
        Option::Some(a) => a@,
        Option::None => Seq::empty(),
    }
}

/// The inputs encryption accepts.
pub open spec fn valid_encrypt(nonce: Seq<u8>, tau: nat, pt_len: nat) -> bool {
    1 <= nonce.len() <= 16 && tau <= 16 && pt_len + tau < 0x1_0000_0000
}

/// The inputs decryption accepts.
pub open spec fn valid_decrypt(nonce: Seq<u8>, tau: nat, ct_len: nat) -> bool {
    1 <= nonce.len() <= 16 && tau <= 16 && tau <= ct_len && ct_len < 0x1_0000_0000
}

/// The ciphertext for the given key schedule and call inputs.
pub open spec fn spec_encrypt(
    k: KeySched,
    nonce: Seq<u8>,
    ad: Seq<u8>,
    tau: nat,
    pt: Seq<u8>,
) -> Seq<u8> {
    spec_encipher(k, spec_tweak(k, nonce, ad, tau as u64), pt + zeros(tau))
}

/// The decryption outcome: the recovered plaintext, or `None` when the
/// trailing `tau` bytes of the inverted ciphertext are not all zero.
pub open spec fn spec_decrypt(
    k: KeySched,
    nonce: Seq<u8>,
    ad: Seq<u8>,
    tau: nat,
    ct: Seq<u8>,
) -> Option<Seq<u8>> {
    let cand = spec_decipher(k, spec_tweak(k, nonce, ad, tau as u64), ct);
    if cand.skip(ct.len() - tau) == zeros(tau) {
        Option::Some(cand.take(ct.len() - tau))
    } else {
        Option::None
    }
}

/// The permutation preserves length.
pub proof fn lemma_encipher_len(k: KeySched, d: Block, msg: Seq<u8>)
    ensures
        spec_encipher(k, d, msg).len() == msg.len(),
{
    if 0 < msg.len() < 32 {
        let h = msg.len() as int / 2;
        lemma_tiny_fwd_len(
            k,
            d,
            msg.len(),
            0,
            crate::tiny::tiny_round_count(msg.len()),
            msg.take(h),
            msg.skip(h),
        );
    } else if msg.len() >= 32 {
        lemma_wide_encipher_len(k, d, msg);
    }
}

proof fn lemma_wide_encipher_len(k: KeySched, d: Block, msg: Seq<u8>)
    requires
        msg.len() >= 32,
    ensures
        spec_wide_encipher(k, d, msg).len() == msg.len(),
{
    let n = msg.len() as int;
    let m = crate::wide::pair_count(n);
    let fl = crate::wide::frag_len(n);
    vstd::arithmetic::div_mod::lemma_fundamental_div_mod(n - 32, 32);
    let bs = crate::wide::blocks_at(msg, 0, 2 * m);
    let frag = msg.subrange(32 * m, 32 * m + fl);
    let mx = crate::block::load_at(msg, n - 32);
    let my = crate::block::load_at(msg, n - 16);
    let wz = crate::wide::pass1(k, bs);
    let x = crate::block::xor_block(crate::wide::xsum_odd(wz), crate::wide::frag_hash(k, frag));
    let sx = crate::block::xor_block(
        crate::block::xor_block(crate::block::xor_block(mx, d), x),
        crate::wide::ef(k, my),
    );
    let sy = crate::block::xor_block(my, crate::wide::em1(k, sx));
    let s = crate::block::xor_block(sx, sy);
    let cs = crate::wide::pass2(k, s, wz);
    crate::wide::lemma_bytes_of_blocks_len(cs);
}

/// The inverse permutation preserves length.
pub proof fn lemma_decipher_len(k: KeySched, d: Block, ct: Seq<u8>)
    ensures
        spec_decipher(k, d, ct).len() == ct.len(),
{
    if 0 < ct.len() < 32 {
        lemma_tiny_rev_len_all(k, d, ct);
    } else if ct.len() >= 32 {
        let n = ct.len() as int;
        let m = crate::wide::pair_count(n);
        let fl = crate::wide::frag_len(n);
        vstd::arithmetic::div_mod::lemma_fundamental_div_mod(n - 32, 32);
        let cs = crate::wide::blocks_at(ct, 0, 2 * m);
        let cfrag = ct.subrange(32 * m, 32 * m + fl);
        let cx = crate::block::load_at(ct, n - 32);
        let cy = crate::block::load_at(ct, n - 16);
        let y = crate::block::xor_block(
            crate::wide::y_pairs(k, cs),
            crate::wide::frag_hash(k, cfrag),
        );
        let sy = crate::block::xor_block(
            crate::block::xor_block(crate::block::xor_block(cx, d), y),
            crate::wide::ef(k, cy),
        );
        let sx = crate::block::xor_block(cy, crate::wide::em2(k, sy));
        let s = crate::block::xor_block(sx, sy);
        crate::wide::lemma_bytes_of_blocks_len(crate::wide::unpass(k, s, cs));
    }
}

proof fn lemma_tiny_rev_len_all(k: KeySched, d: Block, ct: Seq<u8>)
    requires
        0 < ct.len() < 32,
    ensures
        spec_tiny_decipher(k, d, ct).len() == ct.len(),
{
    let h = ct.len() as int / 2;
    crate::tiny::lemma_tiny_rev_len(
        k,
        d,
        ct.len(),
        crate::tiny::tiny_round_count(ct.len()),
        ct.take(h),
        ct.skip(h),
    );
}

/// LAW: the permutation and its inverse compose to the identity under the
/// same tweak, for every input length.
pub proof fn lemma_encipher_roundtrip(k: KeySched, d: Block, msg: Seq<u8>)
    ensures
        spec_decipher(k, d, spec_encipher(k, d, msg)) == msg,
{
    lemma_encipher_len(k, d, msg);
    if 0 < msg.len() < 32 {
        lemma_tiny_roundtrip(k, d, msg);
    } else if msg.len() >= 32 {
        lemma_wide_roundtrip(k, d, msg);
    }
}

/// LAW: decrypting an encryption with the same key, nonce, associated data
/// and tau recovers the plaintext, with no authentication error.
pub proof fn lemma_round_trip(k: KeySched, nonce: Seq<u8>, ad: Seq<u8>, tau: nat, pt: Seq<u8>)
    requires
        valid_encrypt(nonce, tau, pt.len()),
    ensures
        spec_encrypt(k, nonce, ad, tau, pt).len() == pt.len() + tau,
        spec_decrypt(k, nonce, ad, tau, spec_encrypt(k, nonce, ad, tau, pt)) == Option::Some(pt),
{
    let d = spec_tweak(k, nonce, ad, tau as u64);
    let msg = pt + zeros(tau);
    let ct = spec_encipher(k, d, msg);
    lemma_encipher_len(k, d, msg);
    lemma_encipher_roundtrip(k, d, msg);
    assert(spec_decipher(k, d, ct) == msg);
    assert(msg.skip(ct.len() - tau) =~= zeros(tau));
    assert(msg.take(ct.len() - tau) =~= pt);
}

/// LAW: the permutation composed the other way is also the identity: the
/// permutation is a bijection on every length class, and any ciphertext of a
/// valid length is the encipherment of exactly one input.
pub proof fn lemma_decipher_roundtrip(k: KeySched, d: Block, ct: Seq<u8>)
    ensures
        spec_encipher(k, d, spec_decipher(k, d, ct)) == ct,
{
    lemma_decipher_len(k, d, ct);
    if 0 < ct.len() < 32 {
        lemma_tiny_roundtrip_rev(k, d, ct);
    } else if ct.len() >= 32 {
        lemma_wide_roundtrip_rev(k, d, ct);
    }
}

/// LAW: a decryption that succeeds recovers the unique plaintext whose
/// encryption under the same key, nonce, associated data and tau is the given
/// ciphertext.
pub proof fn lemma_decrypt_inverts_encrypt(
    k: KeySched,
    nonce: Seq<u8>,
    ad: Seq<u8>,
    tau: nat,
    ct: Seq<u8>,
)
    requires
        tau <= ct.len(),
    ensures
        spec_decrypt(k, nonce, ad, tau, ct) matches Option::Some(p) ==> spec_encrypt(
            k,
            nonce,
            ad,
            tau,
            p,
        ) == ct,
{
    let d = spec_tweak(k, nonce, ad, tau as u64);
    let cand = spec_decipher(k, d, ct);
    lemma_decipher_len(k, d, ct);
    if spec_decrypt(k, nonce, ad, tau, ct) is Some {
        let p = cand.take(ct.len() - tau);
        assert(cand.skip(ct.len() - tau) == zeros(tau));
        assert(p + zeros(tau) =~= cand);
        lemma_decipher_roundtrip(k, d, ct);
        assert(spec_encrypt(k, nonce, ad, tau, p) == spec_encipher(k, d, cand));
    }
}

/// LAW: the ciphertext is exactly `tau` bytes longer than the plaintext.
pub proof fn lemma_encrypt_length(k: KeySched, nonce: Seq<u8>, ad: Seq<u8>, tau: nat, pt: Seq<u8>)
    ensures
        spec_encrypt(k, nonce, ad, tau, pt).len() == pt.len() + tau,
{
    lemma_encipher_len(k, spec_tweak(k, nonce, ad, tau as u64), pt + zeros(tau));
}

/// LAW: a successful decryption is exactly `tau` bytes shorter than the
/// ciphertext.
pub proof fn lemma_decrypt_length(k: KeySched, nonce: Seq<u8>, ad: Seq<u8>, tau: nat, ct: Seq<u8>)
    requires
        tau <= ct.len(),
    ensures
        spec_decrypt(k, nonce, ad, tau, ct) matches Option::Some(p) ==> p.len() == ct.len() - tau,
{
    lemma_decipher_len(k, spec_tweak(k, nonce, ad, tau as u64), ct);
}

/// LAW: with `tau = 0` decryption never fails: no authentication is provided.
pub proof fn lemma_tau_zero_never_fails(k: KeySched, nonce: Seq<u8>, ad: Seq<u8>, ct: Seq<u8>)
    ensures
        spec_decrypt(k, nonce, ad, 0, ct) is Some,
{
    let d = spec_tweak(k, nonce, ad, 0);
    let cand = spec_decipher(k, d, ct);
    lemma_decipher_len(k, d, ct);
    assert(cand.skip(ct.len() as int) =~= zeros(0));
}

/// A cipher instance: the key schedule extracted once from the caller's key.
/// Immutable after construction and safe to share read-only.
pub struct Aez {
    k: KeySched,
}

impl Aez {
    /// The key schedule this instance was built from.
    pub closed spec fn sched(self) -> KeySched {
        self.k
    }

    /// Creates a cipher keyed with an arbitrary-length key; 48 bytes are
    /// recommended. Never fails.
    pub fn new(key: &[u8]) -> (r: Aez)
        ensures
            r.sched() == spec_extract(key@),
    {
        Aez { k: extract(key) }
    }

    /// Encrypts `pt`, expanding it by `tau` (0 to 16) authentication bytes.
    /// The nonce must be 1 to 16 bytes and the ciphertext length must stay
    /// under 2^32 bytes; violations are reported as `ContractViolation`
    /// before any key material is touched.
    #[verifier::rlimit(100)]
    pub fn encrypt(&self, nonce: &[u8], ad: Option<&[u8]>, tau: usize, pt: &[u8]) -> (r: Result<
        Vec<u8>,
        AezError,
    >)
        ensures
            valid_encrypt(nonce@, tau as nat, pt@.len()) ==> r is Ok && r->Ok_0@ == spec_encrypt(
                self.sched(),
                nonce@,
                ad_view(ad),
                tau as nat,
                pt@,
            ) && r->Ok_0@.len() == pt@.len() + tau,
            !valid_encrypt(nonce@, tau as nat, pt@.len()) ==> r == Result::<Vec<u8>, AezError>::Err(
                AezError::ContractViolation,
            ),
    {
        let nlen: usize = nonce.len();
        let plen: usize = pt.len();
        if nlen < 1 || nlen > 16 || tau > 16 {
            return Result::Err(AezError::ContractViolation);
        }
        if (plen as u64) >= 0x1_0000_0000u64 || (plen as u64) + (tau as u64) >= 0x1_0000_0000u64 {
            return Result::Err(AezError::ContractViolation);
        }
        let adb: &[u8] = ad_bytes(ad);
        let d = assemble(&self.k, nonce, adb, tau as u64);
        let mut msg: Vec<u8> = Vec::new();
        let mut i: usize = 0;
        while i < plen
            invariant
                i <= plen,
                plen == pt@.len(),
                msg@ =~= pt@.take(i as int),
            decreases plen - i,
        {
            msg.push(pt[i]);
            i += 1;
        }
        let mut z: usize = 0;
        while z < tau
            invariant
                z <= tau,
                msg@ =~= pt@.take(plen as int) + zeros(z as nat),
            decreases tau - z,
        {
            msg.push(0u8);
            z += 1;
        }
        proof {
            assert(msg@ =~= pt@ + zeros(tau as nat));
        }
        let ct = encipher(&self.k, d, msg.as_slice());
        proof {
            lemma_encipher_len(self.k, d, msg@);
        }
        Result::Ok(ct)
    }

    /// Decrypts `ct`, of which the last `tau` bytes are authentication.
    /// Input constraints are as for encryption, with `tau` at most the
    /// ciphertext length. On an authentication mismatch the call returns
    /// `AuthenticationFailure` and releases no plaintext bytes.
    #[verifier::rlimit(100)]
    pub fn decrypt(&self, nonce: &[u8], ad: Option<&[u8]>, tau: usize, ct: &[u8]) -> (r: Result<
        Vec<u8>,
        AezError,
    >)
        ensures
            !valid_decrypt(nonce@, tau as nat, ct@.len()) ==> r == Result::<Vec<u8>, AezError>::Err(
                AezError::ContractViolation,
            ),
            valid_decrypt(nonce@, tau as nat, ct@.len()) ==> match spec_decrypt(
                self.sched(),
                nonce@,
                ad_view(ad),
                tau as nat,
                ct@,
            ) {
                Option::Some(p) => r is Ok && r->Ok_0@ == p && r->Ok_0@.len() == ct@.len() - tau,
                Option::None => r == Result::<Vec<u8>, AezError>::Err(
                    AezError::AuthenticationFailure,
                ),
            },
    {
        let nlen: usize = nonce.len();
        let clen: usize = ct.len();
        if nlen < 1 || nlen > 16 || tau > 16 || tau > clen || (clen as u64) >= 0x1_0000_0000u64 {
            return Result::Err(AezError::ContractViolation);
        }
        let adb: &[u8] = ad_bytes(ad);
        let d = assemble(&self.k, nonce, adb, tau as u64);
        let cand = decipher(&self.k, d, ct);
        proof {
            lemma_decipher_len(self.k, d, ct@);
        }
        let body: usize = clen - tau;
        let mut acc: u8 = 0;
        let mut i: usize = body;
        while i < clen
            invariant
                body <= i <= clen,
                clen == cand@.len(),
                acc == 0 <==> (forall|t: int| body <= t < i ==> cand@[t] == 0),
            decreases clen - i,
        {
            let b = cand[i];
            proof {
                let a0 = acc;
                assert((a0 | b) == 0 <==> a0 == 0 && b == 0) by (bit_vector);
            }
            acc = acc | b;
            i += 1;
        }
        proof {
            let tag = cand@.skip(body as int);
            if acc == 0 {
                assert(tag =~= zeros(tau as nat));
            } else {
                assert(tag != zeros(tau as nat)) by {
                    let t = choose|t: int| body <= t < clen && cand@[t] != 0;
                    assert(tag[t - body] == cand@[t]);
                    assert(zeros(tau as nat)[t - body] == 0);
                }
            }
        }
        if acc != 0 {
            return Result::Err(AezError::AuthenticationFailure);
        }
        let mut pt: Vec<u8> = Vec::new();
        let mut j: usize = 0;
        while j < body
            invariant
                j <= body,
                body <= cand@.len(),
                pt@ =~= cand@.take(body as int).take(j as int),
            decreases body - j,
        {
            pt.push(cand[j]);
            j += 1;
        }
        proof {
            assert(pt@ =~= cand@.take(body as int));
        }
        Result::Ok(pt)
    }
}

fn ad_bytes(ad: Option<&[u8]>) -> (r: &[u8])
    ensures
        r@ == ad_view(ad),
{
    match ad {
        Option::Some(a) => a,
        Option::None => &[],
    }
}

/// Applies the permutation: dispatch on the input length.
fn encipher(k: &KeySched, d: Block, msg: &[u8]) -> (r: Vec<u8>)
    ensures
        r@ == spec_encipher(*k, d, msg@),
{
    let len: usize = msg.len();
    if len == 0 {
        Vec::new()
    } else if len < 32 {
        tiny_encipher(k, d, msg)
    } else {
        wide_encipher(k, d, msg)
    }
}

/// Applies the inverse permutation.
fn decipher(k: &KeySched, d: Block, ct: &[u8]) -> (r: Vec<u8>)
    ensures
        r@ == spec_decipher(*k, d, ct@),
{
    let len: usize = ct.len();
    if len == 0 {
        Vec::new()
    } else if len < 32 {
        tiny_decipher(k, d, ct)
    } else {
        wide_decipher(k, d, ct)
    }
}

} // verus!
