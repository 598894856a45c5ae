//! Fixed-size digests: the unit of commitment of the tree.

use vstd::prelude::*;
use vstd::std_specs::cmp::PartialEqSpecImpl;

verus! {

/// A 256-bit digest, held as its 32 bytes.
#[derive(Clone, Copy, Debug, Eq)]
pub struct Digest(pub [u8; 32]);

impl View for Digest {
    type V = Seq<u8>;

    open spec fn view(&self) -> Seq<u8> {
        self.0@
    }
}

/// The all-zero digest as a byte sequence: what an empty leaf contributes to its parent.
pub open spec fn zero_digest() -> Seq<u8> {
    Seq::new(32, |i: int| 0u8)
}

/// Word `i` of a digest given as bytes: four bytes, the least significant first.
pub open spec fn digest_word(bytes: Seq<u8>, i: int) -> u32 {
    (bytes[4 * i] + bytes[4 * i + 1] * 256 + bytes[4 * i + 2] * 65536 + bytes[4 * i + 3]
        * 16777216) as u32
}

impl PartialEq for Digest {
    fn eq(&self, other: &Digest) -> (r: bool) {
        let mut i: usize = 0;
        while i < 32
            invariant
                i <= 32,
                forall|j: int| 0 <= j < i ==> self.0@[j] == other.0@[j],
            decreases 32 - i,
        {
            if self.0[i] != other.0[i] {
                return false;
            }
            i += 1;
        }
        assert(self@ =~= other@);
        true
    }
}

impl PartialEqSpecImpl for Digest {
    open spec fn obeys_eq_spec() -> bool {
        true
    }

    open spec fn eq_spec(&self, other: &Digest) -> bool {
        self@ == other@
    }
}

impl Digest {
    /// The all-zero digest.
    pub fn zero() -> (r: Digest)
        ensures
            r@ == zero_digest(),
    {
        let r = Digest([0u8; 32]);
        assert(r@ =~= zero_digest());
        r
    }

    /// The digest as eight 32-bit words, each made of four bytes, least significant first.
    pub fn as_words(&self) -> (r: [u32; 8])
        ensures
            forall|i: int| 0 <= i < 8 ==> r@[i] == digest_word(self@, i),
    {
        let mut r = [0u32; 8];
        let mut i: usize = 0;
        while i < 8
            invariant
                i <= 8,
                forall|j: int| 0 <= j < i ==> r@[j] == digest_word(self@, j),
            decreases 8 - i,
        {
            let b0: u32 = self.0[4 * i] as u32;
            let b1: u32 = self.0[4 * i + 1] as u32;
            let b2: u32 = self.0[4 * i + 2] as u32;
            let b3: u32 = self.0[4 * i + 3] as u32;
            r[i] = b0 + b1 * 256 + b2 * 65536 + b3 * 16777216;
            i += 1;
        }
        r
    }
}

} // verus!
