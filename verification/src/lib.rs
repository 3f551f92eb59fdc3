//! Misuse-resistant authenticated encryption in the AEZ wide-block design.
//!
//! The cipher enciphers `plaintext || 0^tau` with a tweakable, length-preserving
//! wide-block permutation; the tweak binds the nonce, the associated data and the
//! tag expansion `tau`. Decryption inverts the permutation and fails closed when
//! the trailing `tau` bytes are not all zero.
//!
//! The construction follows the published AEZ scheme in its shape — key
//! extraction, mask-lane tweak assembly, a Feistel tiny mode below 32 bytes and
//! a two-pass encrypt-mix-encrypt standard mode above — but it fixes its own
//! round primitive (an add-rotate-xor step, so that the whole cipher runs in
//! constant time without hardware support or secret-indexed tables) and its own
//! key extractor. Its ciphertexts are therefore this crate's own: it does not
//! interoperate with AEZv5 implementations built on reduced-round AES, and the
//! answer vectors in its test suite are fixed by and for this cipher.

use vstd::prelude::*;

pub mod block;
pub mod extract;
pub mod tiny;
pub mod wide;
pub mod tweak;
pub mod prf;
pub mod cipher;

pub use cipher::Aez;
pub use cipher::AezError;

verus! {

} // verus!
