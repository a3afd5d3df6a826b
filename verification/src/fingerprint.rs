use vstd::prelude::*;

use crate::HASH_BYTES;

verus! {

/// Number of one-bits in a byte.
pub open spec fn popcount8(b: u8) -> int {
    ((b >> 0u8) & 1) + ((b >> 1u8) & 1) + ((b >> 2u8) & 1) + ((b >> 3u8) & 1)
        + ((b >> 4u8) & 1) + ((b >> 5u8) & 1) + ((b >> 6u8) & 1) + ((b >> 7u8) & 1)
}

/// Hamming distance contributed by the first `n` byte pairs of `a` and `b`:
/// the number of bit positions where the two prefixes differ.
pub open spec fn hamming_to(a: Seq<u8>, b: Seq<u8>, n: int) -> int
    decreases n,
{
    if n <= 0 {
        0
    } else {
        hamming_to(a, b, n - 1) + popcount8(a[n - 1] ^ b[n - 1])
    }
}

/// Hamming distance between two equal-length byte strings.
pub open spec fn hamming(a: Seq<u8>, b: Seq<u8>) -> int
    recommends
        a.len() == b.len(),
{
    hamming_to(a, b, a.len() as int)
}

/// A fixed-width perceptual-hash fingerprint; visually similar images get
/// fingerprints at a low Hamming distance from one another.
#[derive(Debug, Clone)]
pub struct Fingerprint {
    pub bits: Vec<u8>,
}

impl View for Fingerprint {
    type V = Seq<u8>;

    open spec fn view(&self) -> Seq<u8> {
        self.bits@
    }
}

/// Number of one-bits in a byte, executable form.
pub fn byte_ones(b: u8) -> (n: u8)
    ensures
        n == popcount8(b),
        n <= 8,
{
    assert(((b >> 0u8) & 1) <= 1 && ((b >> 1u8) & 1) <= 1 && ((b >> 2u8) & 1) <= 1 && ((b
        >> 3u8) & 1) <= 1 && ((b >> 4u8) & 1) <= 1 && ((b >> 5u8) & 1) <= 1 && ((b >> 6u8) & 1)
        <= 1 && ((b >> 7u8) & 1) <= 1) by (bit_vector);
    ((b >> 0u8) & 1) + ((b >> 1u8) & 1) + ((b >> 2u8) & 1) + ((b >> 3u8) & 1) + ((b >> 4u8) & 1)
        + ((b >> 5u8) & 1) + ((b >> 6u8) & 1) + ((b >> 7u8) & 1)
}

/// Hamming distance does not depend on the order of its arguments.
pub proof fn lemma_hamming_to_sym(a: Seq<u8>, b: Seq<u8>, n: int)
    ensures
        hamming_to(a, b, n) == hamming_to(b, a, n),
    decreases n,
{
    if n > 0 {
        lemma_hamming_to_sym(a, b, n - 1);
        let x = a[n - 1];
        let y = b[n - 1];
        assert(x ^ y == y ^ x) by (bit_vector);
    }
}

impl Fingerprint {
    /// A fingerprint is well formed when it has the byte width fixed for the run.
    pub open spec fn wf(&self) -> bool {
        self@.len() == HASH_BYTES
    }

    /// Hamming distance to another fingerprint of the same width.
    pub fn dist(&self, other: &Fingerprint) -> (d: u32)
        requires
            self@.len() == other@.len(),
            self@.len() <= 536870911,
        ensures
            d == hamming(self@, other@),
    {
        let n = self.bits.len();
        let mut i: usize = 0;
        let mut acc: u32 = 0;
        while i < n
            invariant
                n == self@.len() == other@.len(),
                n <= 536870911,
                i <= n,
                acc == hamming_to(self@, other@, i as int),
                acc <= 8 * i,
            decreases n - i,
        {
            let x = self.bits[i] ^ other.bits[i];
            let o = byte_ones(x);
            acc = acc + o as u32;
            i = i + 1;
        }
        acc
    }

    /// An exact copy of this fingerprint.
    pub fn duplicate(&self) -> (r: Fingerprint)
        ensures
            r@ == self@,
    {
        let n = self.bits.len();
        let mut out: Vec<u8> = Vec::new();
        let mut i: usize = 0;
        while i < n
            invariant
                n == self@.len(),
                i <= n,
                out@ == self@.take(i as int),
            decreases n - i,
        {
            out.push(self.bits[i]);
            i = i + 1;
        }
        assert(out@ == self@);
        Fingerprint { bits: out }
    }
}

} // verus!
