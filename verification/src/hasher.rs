//! The hash primitive the tree is built on.

use vstd::prelude::*;
use crate::digest::Digest;

verus! {

/// What `risc0_zkvm::sha::Impl` gives for a pair of digests, as bytes: the SHA-256
/// compression, from the standard initial state, of the block made of the two digests.
pub uninterp spec fn sha256_pair(a: Seq<u8>, b: Seq<u8>) -> Seq<u8>;

/// What `risc0_zkvm::sha::Impl` gives for a byte string: its SHA-256 digest, as bytes.
pub uninterp spec fn sha256_bytes(data: Seq<u8>) -> Seq<u8>;

/// `risc0_zkvm::sha::Impl`, the SHA-256 implementation of the risc0 zkVM. It has no
/// values that matter here: it only names the implementation.
#[verifier::external_type_specification]
#[verifier::external_body]
pub struct ExImpl(risc0_zkvm::sha::Impl);

/// A capability that hashes a pair of digests, and a sequence of words, into one digest.
pub trait Hasher {
    /// The digest of the ordered pair `(a, b)`.
    spec fn pair(a: Seq<u8>, b: Seq<u8>) -> Seq<u8>;

    /// The digest of a sequence of 32-bit words.
    spec fn words(ws: Seq<u32>) -> Seq<u8>;

    /// Hashes the ordered pair of two digests.
    fn hash_pair(a: &Digest, b: &Digest) -> (r: Digest)
        ensures
            r@ == Self::pair(a@, b@),
    ;

    /// Hashes a sequence of 32-bit words.
    fn hash_words(words: &[u32]) -> (r: Digest)
        ensures
            r@ == Self::words(words@),
    ;
}

/// The four bytes of a word, least significant first.
pub open spec fn word_le_bytes(w: u32) -> Seq<u8> {
    seq![
        (w % 256) as u8,
        ((w / 256) % 256) as u8,
        ((w / 65536) % 256) as u8,
        (w / 16777216) as u8,
    ]
}

/// The bytes of a sequence of words: each word's four bytes, least significant first, in order.
pub open spec fn words_le_bytes(ws: Seq<u32>) -> Seq<u8> {
    Seq::new(4 * ws.len(), |i: int| word_le_bytes(ws[i / 4])[i % 4])
}

/// Lays a slice of words out as bytes, each word least significant byte first.
pub fn words_to_le_bytes(words: &[u32]) -> (out: Vec<u8>)
    ensures
        out@ == words_le_bytes(words@),
{
    let mut out: Vec<u8> = Vec::new();
    let mut i: usize = 0;
    while i < words.len()
        invariant
            i <= words.len(),
            out@.len() == 4 * i,
            forall|j: int| 0 <= j < 4 * i ==> out@[j] == word_le_bytes(words@[j / 4])[j % 4],
        decreases words.len() - i,
    {
        let w: u32 = words[i];
        out.push((w % 256) as u8);
        out.push(((w / 256) % 256) as u8);
        out.push(((w / 65536) % 256) as u8);
        out.push((w / 16777216) as u8);
        i += 1;
    }
    assert(out@ =~= words_le_bytes(words@));
    out
}

/// Calls `hash_pair` of `risc0_zkvm::sha::Sha256` on `risc0_zkvm::sha::Impl`, with the two
/// arguments and the result taken as their 32 bytes. The contract claims only that the
/// result's bytes are a function of the arguments' bytes: nothing is proved of which.
#[verifier::external_body]
fn sha256_hash_pair(a: &[u8; 32], b: &[u8; 32]) -> (r: [u8; 32])
    ensures
        r@ == sha256_pair(a@, b@),
{
    let left = risc0_zkvm::sha::Digest::from(*a);
    let right = risc0_zkvm::sha::Digest::from(*b);
    let out = <risc0_zkvm::sha::Impl as risc0_zkvm::sha::Sha256>::hash_pair(&left, &right);
    *AsRef::<[u8; 32]>::as_ref(&*out)
}

/// Calls `hash_bytes` of `risc0_zkvm::sha::Sha256` on `risc0_zkvm::sha::Impl`, with the
/// result taken as its 32 bytes. The contract claims only that the result's bytes are a
/// function of the bytes of `data`: nothing is proved of which.
#[verifier::external_body]
fn sha256_hash_bytes(data: &[u8]) -> (r: [u8; 32])
    ensures
        r@ == sha256_bytes(data@),
{
    let out = <risc0_zkvm::sha::Impl as risc0_zkvm::sha::Sha256>::hash_bytes(data);
    *AsRef::<[u8; 32]>::as_ref(&*out)
}

/// SHA-256 as the tree's hash. A pair of digests is compressed as one block; a sequence of
/// words is hashed as its bytes, each word least significant byte first.
impl Hasher for risc0_zkvm::sha::Impl {
    open spec fn pair(a: Seq<u8>, b: Seq<u8>) -> Seq<u8> {
        sha256_pair(a, b)
    }

    open spec fn words(ws: Seq<u32>) -> Seq<u8> {
        sha256_bytes(words_le_bytes(ws))
    }

    fn hash_pair(a: &Digest, b: &Digest) -> (r: Digest) {
        Digest(sha256_hash_pair(&a.0, &b.0))
    }

    fn hash_words(words: &[u32]) -> (r: Digest) {
        let bytes = words_to_le_bytes(words);
        Digest(sha256_hash_bytes(bytes.as_slice()))
    }
}

} // verus!
