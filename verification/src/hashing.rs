//! 32-byte hash values, the SHA-256 node combiner, packed-value chunks and
//! zero-subtree hashes.
//!
//! The SHA-256 computation itself is delegated to the `ethereum_hashing`
//! crate; its result is only named here, never restated.

use vstd::prelude::*;

use vstd::bytes::spec_u64_to_le_bytes;

verus! {

/// A 32-byte hash value (one Merkle tree chunk).
#[derive(Debug)]
pub struct Hash256 {
    pub bytes: Vec<u8>,
}

impl View for Hash256 {
    type V = Seq<u8>;

    open spec fn view(&self) -> Seq<u8> {
        self.bytes@
    }
}

/// The all-zero chunk: 32 zero bytes.
pub open spec fn zero_chunk() -> Seq<u8> {
    Seq::new(32, |i: int| 0u8)
}

impl Hash256 {
    pub open spec fn wf(&self) -> bool {
        self@.len() == 32
    }

    pub fn zero() -> (r: Self)
        ensures
            r.wf(),
            r@ == zero_chunk(),
    {
        let bytes: Vec<u8> = vec![0u8; 32];
        proof {
            assert(bytes@ =~= zero_chunk());
        }
        Hash256 { bytes }
    }

    pub fn is_zero(&self) -> (r: bool)
        requires
            self.wf(),
        ensures
            r == (self@ == zero_chunk()),
    {
        let mut i: usize = 0;
        while i < 32
            invariant
                self.wf(),
                i <= 32,
                forall|j: int| 0 <= j < i ==> self@[j] == 0u8,
            decreases 32 - i,
        {
            if *self.bytes.get(i).unwrap() != 0u8 {
                return false;
            }
            i = i + 1;
        }
        proof {
            assert(self@ =~= zero_chunk());
        }
        true
    }

    pub fn eq_hash(&self, other: &Hash256) -> (r: bool)
        requires
            self.wf(),
            other.wf(),
        ensures
            r == (self@ == other@),
    {
        let mut i: usize = 0;
        while i < 32
            invariant
                self.wf(),
                other.wf(),
                i <= 32,
                forall|j: int| 0 <= j < i ==> self@[j] == other@[j],
            decreases 32 - i,
        {
            if *self.bytes.get(i).unwrap() != *other.bytes.get(i).unwrap() {
                return false;
            }
            i = i + 1;
        }
        proof {
            assert(self@ =~= other@);
        }
        true
    }
}

impl Clone for Hash256 {
    fn clone(&self) -> (r: Self)
        ensures
            r@ == self@,
    {
        let mut bytes: Vec<u8> = Vec::new();
        let mut i: usize = 0;
        while i < self.bytes.len()
            invariant
                i <= self.bytes.len(),
                bytes@ == self.bytes@.take(i as int),
            decreases self.bytes.len() - i,
        {
            bytes.push(*self.bytes.get(i).unwrap());
            proof {
                assert(bytes@ =~= self.bytes@.take(i + 1));
            }
            i = i + 1;
        }
        proof {
            assert(bytes@ =~= self.bytes@);
        }
        Hash256 { bytes }
    }
}

/// The SHA-256 digest of the concatenation of two byte strings.
pub uninterp spec fn hash_concat_of(a: Seq<u8>, b: Seq<u8>) -> Seq<u8>;

/// Relies on `ethereum_hashing::hash32_concat`: the SHA-256 digest of the
/// concatenation of the two inputs, a 32-byte value depending on the input
/// bytes alone.
#[verifier::external_body]
pub fn hash_concat(a: &Hash256, b: &Hash256) -> (r: Hash256)
    ensures
        r.wf(),
        r@ == hash_concat_of(a@, b@),
{
    Hash256 { bytes: ethereum_hashing::hash32_concat(&a.bytes, &b.bytes).to_vec() }
}

/// Root hash of a depth-`d` Merkle subtree whose leaves are all zero chunks.
pub open spec fn zero_hash_spec(depth: nat) -> Seq<u8>
    decreases depth,
{
    if depth == 0 {
        zero_chunk()
    } else {
        hash_concat_of(zero_hash_spec((depth - 1) as nat), zero_hash_spec((depth - 1) as nat))
    }
}

/// Relies on `ethereum_hashing::ZERO_HASHES`: entry 0 is the zero chunk and
/// entry `i + 1` is `hash32_concat` of two copies of entry `i`, so entry `d`
/// is the root of a depth-`d` all-zero subtree.
#[verifier::external_body]
fn zero_hash_cached(depth: usize) -> (r: Hash256)
    requires
        depth <= 48,
    ensures
        r.wf(),
        r@ == zero_hash_spec(depth as nat),
{
    Hash256 { bytes: ethereum_hashing::ZERO_HASHES[depth].to_vec() }
}

/// Root hash of a depth-`depth` all-zero subtree.
///
/// Depths up to 48 come from the precomputed table; greater depths are
/// combined on top of it.
pub fn zero_hash(depth: usize) -> (r: Hash256)
    requires
        depth <= 64,
    ensures
        r.wf(),
        r@ == zero_hash_spec(depth as nat),
    decreases depth,
{
    if depth <= 48 {
        zero_hash_cached(depth)
    } else {
        let below = zero_hash(depth - 1);
        hash_concat(&below, &below)
    }
}

/// The 32-byte chunk holding the little-endian encodings of up to four `u64`
/// values, padded on the right with zero bytes.
pub open spec fn chunk_of(vs: Seq<u64>) -> Seq<u8> {
    Seq::new(
        32,
        |i: int|
            if i / 8 < vs.len() {
                spec_u64_to_le_bytes(vs[i / 8])[i % 8]
            } else {
                0u8
            },
    )
}

/// Pack up to four values into one hashing chunk.
pub fn pack_chunk(values: &Vec<u64>) -> (r: Hash256)
    requires
        values@.len() <= 4,
    ensures
        r.wf(),
        r@ == chunk_of(values@),
{
    proof {
        vstd::bytes::lemma_auto_spec_u64_to_from_le_bytes();
    }
    let mut bytes: Vec<u8> = Vec::new();
    let mut i: usize = 0;
    while i < values.len()
        invariant
            i <= values@.len() <= 4,
            bytes@.len() == 8 * i,
            forall|j: int| 0 <= j < bytes@.len() ==> bytes@[j] == chunk_of(values@)[j],
        decreases values@.len() - i,
    {
        let word = vstd::bytes::u64_to_le_bytes(*values.get(i).unwrap());
        proof {
            vstd::bytes::lemma_auto_spec_u64_to_from_le_bytes();
        }
        let mut k: usize = 0;
        while k < 8
            invariant
                i < values@.len() <= 4,
                k <= 8,
                word@ == spec_u64_to_le_bytes(values@[i as int]),
                word@.len() == 8,
                bytes@.len() == 8 * i + k,
                forall|j: int| 0 <= j < bytes@.len() ==> bytes@[j] == chunk_of(values@)[j],
            decreases 8 - k,
        {
            proof {
                let idx = 8 * (i as int) + (k as int);
                assert(idx / 8 == i as int && idx % 8 == k as int) by (nonlinear_arith)
                    requires
                        0 <= k < 8,
                        0 <= i,
                        idx == 8 * (i as int) + (k as int),
                ;
            }
            bytes.push(*word.get(k).unwrap());
            k = k + 1;
        }
        i = i + 1;
    }
    while bytes.len() < 32
        invariant
            bytes@.len() >= 8 * values@.len(),
            bytes@.len() <= 32,
            values@.len() <= 4,
            forall|j: int| 0 <= j < bytes@.len() ==> bytes@[j] == chunk_of(values@)[j],
        decreases 32 - bytes@.len(),
    {
        proof {
            let idx = bytes@.len() as int;
            assert(idx / 8 >= values@.len()) by (nonlinear_arith)
                requires
                    idx >= 8 * values@.len(),
                    values@.len() >= 0,
            ;
        }
        bytes.push(0u8);
    }
    proof {
        assert(bytes@ =~= chunk_of(values@));
    }
    Hash256 { bytes }
}

/// `SHA256(root || little_endian_u256(length))`: the length mix-in applied to
/// a list's root hash.
pub open spec fn mix_in_length_spec(root: Seq<u8>, length: u64) -> Seq<u8> {
    hash_concat_of(root, chunk_of(seq![length]))
}

/// Mix a list's length into its root hash.
pub fn mix_in_length(root: &Hash256, length: usize) -> (r: Hash256)
    requires
        root.wf(),
    ensures
        r.wf(),
        r@ == mix_in_length_spec(root@, length as u64),
{
    let length_words: Vec<u64> = vec![length as u64];
    let length_chunk = pack_chunk(&length_words);
    proof {
        assert(length_words@ =~= seq![length as u64]);
    }
    hash_concat(root, &length_chunk)
}

} // verus!
