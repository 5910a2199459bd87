//! The digest capability that a key type must offer to be stored in a table.

use vstd::prelude::*;
use vstd::arithmetic::div_mod::{lemma_add_mod_noop, lemma_small_mod};
use vstd::utf8::encode_utf8;

verus! {

/// A key that can be stored in a [`crate::table::HashTable`].
///
/// A key is identified by its view: two keys with the same view are the same
/// key, and therefore have the same digest.
pub trait Hashable: View + Sized {
    /// The digest of the key whose view is `key`.
    spec fn digest(key: Self::V) -> usize;

    /// Computes the digest of this key.
    fn hash(&self) -> (digest: usize)
        ensures
            digest == Self::digest(self@),
    ;

    /// Tells whether `self` and `other` are the same key.
    fn same_key(&self, other: &Self) -> (same: bool)
        ensures
            same == (self@ == other@),
    ;
}

impl Hashable for usize {
    /// An integer is its own digest.
    open spec fn digest(key: usize) -> usize {
        key
    }

    fn hash(&self) -> (digest: usize)
        ensures
            digest == *self,
    {
        *self
    }

    fn same_key(&self, other: &Self) -> (same: bool) {
        *self == *other
    }
}

/// The seed of the DJB2 digest.
pub const DJB2_SEED: usize = 5381;

/// The DJB2 digest of a sequence of bytes: starting from the seed, each
/// byte in turn takes the digest to `digest * 33 + byte`, reduced to the
/// width of a machine word.
pub open spec fn djb2(bytes: Seq<u8>) -> usize
    decreases bytes.len(),
{
    if bytes.len() == 0 {
        DJB2_SEED
    } else {
        ((djb2(bytes.drop_last()) * 33 + bytes.last()) % (usize::MAX + 1)) as usize
    }
}

/// Multiplying by 33 and adding a byte with wraparound is doing so modulo
/// two to the width of a machine word.
proof fn lemma_wrapping_step(digest: usize, byte: u8)
    ensures
        vstd::wrapping::usize_specs::wrapping_add(
            vstd::wrapping::usize_specs::wrapping_mul(digest, 33),
            byte as usize,
        ) == ((digest * 33 + byte) % (usize::MAX + 1)) as usize,
{
    let words = usize::MAX + 1;
    let product = (digest * 33) % words;
    lemma_add_mod_noop(digest * 33, byte as int, words);
    lemma_small_mod(byte as nat, words as nat);
    lemma_small_mod(product as nat, words as nat);
    if product + byte >= words {
        assert((product + byte) % words == product + byte - words) by (nonlinear_arith)
            requires
                words > 0,
                words <= product + byte < 2 * words,
        ;
    } else {
        lemma_small_mod((product + byte) as nat, words as nat);
    }
}

impl Hashable for String {
    /// The digest of a text is the DJB2 digest of its bytes in UTF-8.
    open spec fn digest(key: Seq<char>) -> usize {
        djb2(encode_utf8(key))
    }

    fn hash(&self) -> (digest: usize)
        ensures
            digest == djb2(encode_utf8(self@)),
    {
        let bytes = self.as_str().as_bytes();
        let mut res: usize = DJB2_SEED;
        for position in 0..bytes.len()
            invariant
                bytes@ == encode_utf8(self@),
                res == djb2(bytes@.take(position as int)),
        {
            proof {
                let seen = bytes@.take(position + 1);
                assert(seen.drop_last() =~= bytes@.take(position as int));
                assert(seen.last() == bytes@[position as int]);
                lemma_wrapping_step(res, bytes@[position as int]);
            }
            res = res.wrapping_mul(33).wrapping_add(bytes[position] as usize);
        }
        proof {
            assert(bytes@.take(bytes@.len() as int) =~= bytes@);
        }
        res
    }

    fn same_key(&self, other: &Self) -> (same: bool) {
        *self == *other
    }
}

} // verus!
