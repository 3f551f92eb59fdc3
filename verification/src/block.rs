//! 128-bit blocks: the unit every cipher component works on.
//!
//! A block is a pair of little-endian 64-bit words. The module provides XOR,
//! doubling in GF(2^128), and the byte packing between blocks and byte strings,
//! together with the cancellation and round-trip lemmas the permutation proofs
//! rest on.

use vstd::prelude::*;

verus! {

/// A 128-bit value, stored as two 64-bit words (`lo` holds bytes 0..8).
#[derive(Clone, Copy, PartialEq, Eq, Structural, Debug)]
pub struct Block {
    pub lo: u64,
    pub hi: u64,
}

pub open spec fn zero_block() -> Block {
    Block { lo: 0, hi: 0 }
}

pub open spec fn xor_block(a: Block, b: Block) -> Block {
    Block { lo: a.lo ^ b.lo, hi: a.hi ^ b.hi }
}

/// XOR over words: associative-commutative cancellation facts used everywhere.
pub proof fn lemma_xor_word()
    by (bit_vector)
    ensures
        forall|x: u64, y: u64| #[trigger] (x ^ y) == y ^ x,
        forall|x: u64, y: u64| #[trigger] ((x ^ y) ^ y) == x,
        forall|x: u64| #[trigger] (x ^ 0) == x,
        forall|x: u64, y: u64, z: u64| #[trigger] ((x ^ y) ^ z) == x ^ (y ^ z),
{
}

/// XOR of blocks cancels: `(a ^ b) ^ b == a`.
pub proof fn lemma_xor_block_cancel(a: Block, b: Block)
    ensures
        xor_block(xor_block(a, b), b) == a,
{
    lemma_xor_word();
}

/// XOR with the zero block is the identity.
pub proof fn lemma_xor_block_zero(a: Block)
    ensures
        xor_block(a, zero_block()) == a,
{
    lemma_xor_word();
}

impl Block {
    pub fn zero() -> (r: Block)
        ensures
            r == zero_block(),
    {
        Block { lo: 0, hi: 0 }
    }

    pub fn xor(self, other: Block) -> (r: Block)
        ensures
            r == xor_block(self, other),
    {
        Block { lo: self.lo ^ other.lo, hi: self.hi ^ other.hi }
    }
}

/// Doubling in GF(2^128): shift the 128-bit value left by one bit and reduce
/// with the polynomial x^128 + x^7 + x^2 + x + 1 (constant 0x87).
pub open spec fn dbl_block(b: Block) -> Block {
    Block {
        lo: (b.lo << 1) ^ (((b.hi >> 63) * 0x87) as u64),
        hi: (b.hi << 1) | (b.lo >> 63),
    }
}

/// `n`-fold doubling of a block.
pub open spec fn dbl_n(n: nat, b: Block) -> Block
    decreases n,
{
    if n == 0 {
        b
    } else {
        dbl_block(dbl_n((n - 1) as nat, b))
    }
}

pub fn dbl(b: Block) -> (r: Block)
    ensures
        r == dbl_block(b),
{
    let h: u64 = b.hi;
    let msb: u64 = h >> 63;
    proof {
        assert(h >> 63 < 2) by (bit_vector);
    }
    Block { lo: (b.lo << 1) ^ (msb * 0x87), hi: (b.hi << 1) | (b.lo >> 63) }
}

/// XOR over bytes: the cancellation facts behind every byte-level masking step.
pub proof fn lemma_xor_byte()
    by (bit_vector)
    ensures
        forall|x: u8, y: u8| #[trigger] ((x ^ y) ^ y) == x,
        forall|x: u8| #[trigger] (x ^ 0) == x,
{
}

/// `a` XORed with the first `a.len()` bytes of `b`.
pub open spec fn xor_trunc(a: Seq<u8>, b: Seq<u8>) -> Seq<u8> {
    Seq::new(a.len(), |j: int| a[j] ^ b[j])
}

/// XOR with a truncated mask cancels: masking twice with the same bytes gives
/// the input back.
pub proof fn lemma_xor_trunc_cancel(a: Seq<u8>, b: Seq<u8>)
    ensures
        xor_trunc(xor_trunc(a, b), b) =~= a,
{
    lemma_xor_byte();
}

/// XORs the first `v.len()` bytes of a block's byte string into `v`.
pub fn xor_into(v: &mut Vec<u8>, b: Block)
    requires
        old(v)@.len() <= 16,
    ensures
        final(v)@ =~= xor_trunc(old(v)@, block_bytes(b)),
{
    let mut fb: Vec<u8> = Vec::new();
    push_block(&mut fb, b);
    let n: usize = v.len();
    let mut j: usize = 0;
    while j < n
        invariant
            j <= n,
            n == v@.len(),
            n <= 16,
            fb@ =~= block_bytes(b),
            forall|t: int| 0 <= t < j ==> v@[t] == (old(v)@[t] ^ block_bytes(b)[t]),
            forall|t: int| j <= t < n ==> v@[t] == old(v)@[t],
        decreases n - j,
    {
        let x = v[j] ^ fb[j];
        v.set(j, x);
        j += 1;
    }
}

/// Doubles a block `n` times.
pub fn dbl_iter(b: Block, n: usize) -> (r: Block)
    ensures
        r == dbl_n(n as nat, b),
{
    let mut r = b;
    let mut i: usize = 0;
    while i < n
        invariant
            i <= n,
            r == dbl_n(i as nat, b),
        decreases n - i,
    {
        r = dbl(r);
        i += 1;
    }
    r
}

/// XOR of three blocks.
pub open spec fn xor3(a: Block, b: Block, c: Block) -> Block {
    xor_block(xor_block(a, b), c)
}

/// The `i`-th byte (0-based, little-endian) of a 64-bit word.
pub open spec fn word_byte(w: u64, i: int) -> u8 {
    ((w >> ((8 * i) as u64)) & 0xff) as u8
}

/// The 16 bytes of a block, little-endian within each word, `lo` first.
pub open spec fn block_bytes(b: Block) -> Seq<u8> {
    Seq::new(16, |i: int| if i < 8 { word_byte(b.lo, i) } else { word_byte(b.hi, i - 8) })
}

/// The 64-bit word packed from 8 consecutive bytes of `s`, little-endian.
pub open spec fn word_at(s: Seq<u8>, off: int) -> u64 {
    (s[off] as u64) | ((s[off + 1] as u64) << 8) | ((s[off + 2] as u64) << 16) | ((s[off
        + 3] as u64) << 24) | ((s[off + 4] as u64) << 32) | ((s[off + 5] as u64) << 40) | ((s[off
        + 6] as u64) << 48) | ((s[off + 7] as u64) << 56)
}

/// The block packed from 16 consecutive bytes of `s`.
pub open spec fn load_at(s: Seq<u8>, off: int) -> Block {
    Block { lo: word_at(s, off), hi: word_at(s, off + 8) }
}

proof fn lemma_word_pack_unpack(b0: u8, b1: u8, b2: u8, b3: u8, b4: u8, b5: u8, b6: u8, b7: u8)
    by (bit_vector)
    ensures
        ((((b0 as u64) | ((b1 as u64) << 8) | ((b2 as u64) << 16) | ((b3 as u64) << 24) | ((
        b4 as u64) << 32) | ((b5 as u64) << 40) | ((b6 as u64) << 48) | ((b7 as u64) << 56)) >> 0)
            & 0xff) as u8 == b0,
        ((((b0 as u64) | ((b1 as u64) << 8) | ((b2 as u64) << 16) | ((b3 as u64) << 24) | ((
        b4 as u64) << 32) | ((b5 as u64) << 40) | ((b6 as u64) << 48) | ((b7 as u64) << 56)) >> 8)
            & 0xff) as u8 == b1,
        ((((b0 as u64) | ((b1 as u64) << 8) | ((b2 as u64) << 16) | ((b3 as u64) << 24) | ((
        b4 as u64) << 32) | ((b5 as u64) << 40) | ((b6 as u64) << 48) | ((b7 as u64) << 56)) >> 16)
            & 0xff) as u8 == b2,
        ((((b0 as u64) | ((b1 as u64) << 8) | ((b2 as u64) << 16) | ((b3 as u64) << 24) | ((
        b4 as u64) << 32) | ((b5 as u64) << 40) | ((b6 as u64) << 48) | ((b7 as u64) << 56)) >> 24)
            & 0xff) as u8 == b3,
        ((((b0 as u64) | ((b1 as u64) << 8) | ((b2 as u64) << 16) | ((b3 as u64) << 24) | ((
        b4 as u64) << 32) | ((b5 as u64) << 40) | ((b6 as u64) << 48) | ((b7 as u64) << 56)) >> 32)
            & 0xff) as u8 == b4,
        ((((b0 as u64) | ((b1 as u64) << 8) | ((b2 as u64) << 16) | ((b3 as u64) << 24) | ((
        b4 as u64) << 32) | ((b5 as u64) << 40) | ((b6 as u64) << 48) | ((b7 as u64) << 56)) >> 40)
            & 0xff) as u8 == b5,
        ((((b0 as u64) | ((b1 as u64) << 8) | ((b2 as u64) << 16) | ((b3 as u64) << 24) | ((
        b4 as u64) << 32) | ((b5 as u64) << 40) | ((b6 as u64) << 48) | ((b7 as u64) << 56)) >> 48)
            & 0xff) as u8 == b6,
        ((((b0 as u64) | ((b1 as u64) << 8) | ((b2 as u64) << 16) | ((b3 as u64) << 24) | ((
        b4 as u64) << 32) | ((b5 as u64) << 40) | ((b6 as u64) << 48) | ((b7 as u64) << 56)) >> 56)
            & 0xff) as u8 == b7,
{
}

proof fn lemma_word_unpack_pack(w: u64)
    by (bit_vector)
    ensures
        (((w >> 0) & 0xff) as u8 as u64) | ((((w >> 8) & 0xff) as u8 as u64) << 8) | ((((w >> 16)
            & 0xff) as u8 as u64) << 16) | ((((w >> 24) & 0xff) as u8 as u64) << 24) | ((((w >> 32)
            & 0xff) as u8 as u64) << 32) | ((((w >> 40) & 0xff) as u8 as u64) << 40) | ((((w >> 48)
            & 0xff) as u8 as u64) << 48) | ((((w >> 56) & 0xff) as u8 as u64) << 56) == w,
{
}

/// Unpacking the bytes of a word at `off` in `s` gives the bytes of `s` back.
proof fn lemma_word_at_bytes(s: Seq<u8>, off: int)
    requires
        0 <= off,
        off + 8 <= s.len(),
    ensures
        forall|i: int| 0 <= i < 8 ==> word_byte(word_at(s, off), i) == s[off + i],
{
    lemma_word_pack_unpack(
        s[off],
        s[off + 1],
        s[off + 2],
        s[off + 3],
        s[off + 4],
        s[off + 5],
        s[off + 6],
        s[off + 7],
    );
    assert forall|i: int| 0 <= i < 8 implies word_byte(word_at(s, off), i) == s[off + i] by {
        if i == 0 {
        } else if i == 1 {
        } else if i == 2 {
        } else if i == 3 {
        } else if i == 4 {
        } else if i == 5 {
        } else if i == 6 {
        } else {
            assert(i == 7);
        }
    }
}

/// The bytes of a block loaded from `s` are exactly the 16 source bytes.
pub proof fn lemma_bytes_of_load(s: Seq<u8>, off: int)
    requires
        0 <= off,
        off + 16 <= s.len(),
    ensures
        block_bytes(load_at(s, off)) =~= s.subrange(off, off + 16),
{
    lemma_word_at_bytes(s, off);
    lemma_word_at_bytes(s, off + 8);
}

/// Loading the bytes of a block gives the block back.
pub proof fn lemma_load_of_bytes(b: Block)
    ensures
        load_at(block_bytes(b), 0) == b,
{
    lemma_word_unpack_pack(b.lo);
    lemma_word_unpack_pack(b.hi);
    assert(word_at(block_bytes(b), 0) == b.lo);
    assert(word_at(block_bytes(b), 8) == b.hi);
}

/// A load only reads the 16 bytes at `off`.
pub proof fn lemma_load_subrange(s: Seq<u8>, off: int)
    requires
        0 <= off,
        off + 16 <= s.len(),
    ensures
        load_at(s, off) == load_at(s.subrange(off, off + 16), 0),
{
    assert(word_at(s, off) == word_at(s.subrange(off, off + 16), 0));
    assert(word_at(s, off + 8) == word_at(s.subrange(off, off + 16), 8));
}

/// A short byte string zero-padded to 16 bytes.
pub open spec fn zpad16(s: Seq<u8>) -> Seq<u8> {
    s + Seq::new((16 - s.len()) as nat, |i: int| 0u8)
}

/// The block packed from at most 16 bytes of `s`, zero-padded at the end.
pub open spec fn pad_load(s: Seq<u8>) -> Block {
    load_at(zpad16(s), 0)
}

/// Loads `n` bytes at `off` from a slice into a zero-padded block.
pub fn pad_load_block(s: &[u8], off: usize, n: usize) -> (r: Block)
    requires
        off + n <= s@.len(),
        n <= 16,
    ensures
        r == pad_load(s@.subrange(off as int, off + n)),
{
    let slen: usize = s.len();
    let mut t: Vec<u8> = Vec::new();
    let mut i: usize = 0;
    while i < n
        invariant
            i <= n,
            n <= 16,
            off + n <= slen,
            slen == s@.len(),
            t@ =~= s@.subrange(off as int, off + i),
        decreases n - i,
    {
        t.push(s[off + i]);
        i += 1;
    }
    while i < 16
        invariant
            n <= i <= 16,
            t@.len() == i,
            t@.subrange(0, n as int) =~= s@.subrange(off as int, off + n),
            forall|j: int| n <= j < i ==> t@[j] == 0u8,
        decreases 16 - i,
    {
        t.push(0u8);
        i += 1;
    }
    proof {
        assert(t@ =~= zpad16(s@.subrange(off as int, off + n)));
    }
    load_block(t.as_slice(), 0)
}

/// Loads a block from 16 bytes of a slice.
pub fn load_block(s: &[u8], off: usize) -> (r: Block)
    requires
        off + 16 <= s@.len(),
    ensures
        r == load_at(s@, off as int),
{
    let lo: u64 = (s[off] as u64) | ((s[off + 1] as u64) << 8) | ((s[off + 2] as u64) << 16)
        | ((s[off + 3] as u64) << 24) | ((s[off + 4] as u64) << 32) | ((s[off + 5] as u64) << 40)
        | ((s[off + 6] as u64) << 48) | ((s[off + 7] as u64) << 56);
    let hi: u64 = (s[off + 8] as u64) | ((s[off + 9] as u64) << 8) | ((s[off + 10] as u64) << 16)
        | ((s[off + 11] as u64) << 24) | ((s[off + 12] as u64) << 32) | ((s[off + 13] as u64) << 40)
        | ((s[off + 14] as u64) << 48) | ((s[off + 15] as u64) << 56);
    Block { lo, hi }
}

/// Appends the 16 bytes of a block to `out`.
pub fn push_block(out: &mut Vec<u8>, b: Block)
    ensures
        final(out)@ =~= old(out)@ + block_bytes(b),
{
    let ghost n = out@.len() as int;
    out.push((b.lo & 0xff) as u8);
    out.push(((b.lo >> 8) & 0xff) as u8);
    out.push(((b.lo >> 16) & 0xff) as u8);
    out.push(((b.lo >> 24) & 0xff) as u8);
    out.push(((b.lo >> 32) & 0xff) as u8);
    out.push(((b.lo >> 40) & 0xff) as u8);
    out.push(((b.lo >> 48) & 0xff) as u8);
    out.push(((b.lo >> 56) & 0xff) as u8);
    out.push((b.hi & 0xff) as u8);
    out.push(((b.hi >> 8) & 0xff) as u8);
    out.push(((b.hi >> 16) & 0xff) as u8);
    out.push(((b.hi >> 24) & 0xff) as u8);
    out.push(((b.hi >> 32) & 0xff) as u8);
    out.push(((b.hi >> 40) & 0xff) as u8);
    out.push(((b.hi >> 48) & 0xff) as u8);
    out.push(((b.hi >> 56) & 0xff) as u8);
    proof {
        assert(forall|w: u64| #[trigger] (w & 0xff) == (w >> 0) & 0xff) by (bit_vector);
    }
}

} // verus!
