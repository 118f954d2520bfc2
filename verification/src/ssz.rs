//! SSZ serialization of lists and vectors of fixed-size values.
//!
//! A `u64` value encodes as its 8 little-endian bytes; a list or vector
//! encodes as the concatenation of its elements' encodings with no length
//! prefix.  Decoding divides the byte length by the element size and
//! bounds-checks the count.

use vstd::prelude::*;

use crate::error::Error;
use crate::list::{canonical_depth, depth_feasible, List};
use crate::vector::Vector;
use vstd::bytes::{spec_u64_from_le_bytes, spec_u64_to_le_bytes};

verus! {

/// The SSZ encoding of a sequence of values: concatenated little-endian
/// 8-byte words.
pub open spec fn ssz_bytes(values: Seq<u64>) -> Seq<u8> {
    Seq::new(values.len() * 8, |i: int| spec_u64_to_le_bytes(values[i / 8])[i % 8])
}

/// The values read back from an SSZ byte string (whose length must be a
/// multiple of 8).
pub open spec fn ssz_values(bytes: Seq<u8>) -> Seq<u64> {
    Seq::new(
        (bytes.len() / 8) as nat,
        |i: int| spec_u64_from_le_bytes(bytes.subrange(8 * i, 8 * i + 8)),
    )
}

/// Round trip: decoding an encoding yields the original values.
pub proof fn lemma_ssz_round_trip(values: Seq<u64>)
    ensures
        ssz_bytes(values).len() == values.len() * 8,
        ssz_bytes(values).len() % 8 == 0,
        ssz_values(ssz_bytes(values)) == values,
{
    vstd::bytes::lemma_auto_spec_u64_to_from_le_bytes();
    let bytes = ssz_bytes(values);
    assert(values.len() * 8 % 8 == 0) by (nonlinear_arith);
    assert(bytes.len() / 8 == values.len()) by (nonlinear_arith)
        requires
            bytes.len() == values.len() * 8,
    ;
    assert forall|i: int| 0 <= i < values.len() implies #[trigger] ssz_values(bytes)[i]
        == values[i] by {
        assert(bytes.subrange(8 * i, 8 * i + 8) =~= spec_u64_to_le_bytes(values[i])) by {
            assert forall|k: int| 0 <= k < 8 implies #[trigger] bytes.subrange(
                8 * i,
                8 * i + 8,
            )[k] == spec_u64_to_le_bytes(values[i])[k] by {
                assert(bytes[8 * i + k] == spec_u64_to_le_bytes(values[(8 * i + k) / 8])[(8 * i
                    + k) % 8]);
                assert((8 * i + k) / 8 == i && (8 * i + k) % 8 == k) by (nonlinear_arith)
                    requires
                        0 <= k < 8,
                        0 <= i,
                ;
            }
        }
    }
    assert(ssz_values(bytes) =~= values);
}

/// Encode a sequence of values as SSZ bytes.
pub fn encode_values(values: &Vec<u64>) -> (r: Vec<u8>)
    requires
        values@.len() * 8 <= usize::MAX,
    ensures
        r@ == ssz_bytes(values@),
{
    proof {
        vstd::bytes::lemma_auto_spec_u64_to_from_le_bytes();
    }
    let mut r: Vec<u8> = Vec::new();
    let mut i: usize = 0;
    while i < values.len()
        invariant
            i <= values@.len(),
            values@.len() * 8 <= usize::MAX,
            r@.len() == 8 * i,
            forall|j: int| 0 <= j < r@.len() ==> r@[j] == ssz_bytes(values@)[j],
        decreases values@.len() - i,
    {
        let word = vstd::bytes::u64_to_le_bytes(values[i]);
        proof {
            vstd::bytes::lemma_auto_spec_u64_to_from_le_bytes();
        }
        let mut k: usize = 0;
        while k < 8
            invariant
                i < values@.len(),
                k <= 8,
                word@ == spec_u64_to_le_bytes(values@[i as int]),
                word@.len() == 8,
                r@.len() == 8 * i + k,
                forall|j: int| 0 <= j < r@.len() ==> r@[j] == ssz_bytes(values@)[j],
            decreases 8 - k,
        {
            proof {
                let idx = 8 * (i as int) + (k as int);
                assert(idx / 8 == i as int && idx % 8 == k as int) by (nonlinear_arith)
                    requires
                        0 <= k < 8,
                        0 <= i,
                        idx == 8 * (i as int) + (k as int),
                ;
                assert(8 * (i as int) + k < values@.len() * 8) by (nonlinear_arith)
                    requires
                        0 <= k < 8,
                        i < values@.len(),
                ;
            }
            r.push(word[k]);
            k = k + 1;
        }
        i = i + 1;
    }
    proof {
        assert(r@ =~= ssz_bytes(values@));
    }
    r
}

/// Decode SSZ bytes into values; the length must be a multiple of 8.
pub fn decode_values(bytes: &Vec<u8>) -> (r: Result<Vec<u64>, Error>)
    ensures
        match r {
            Ok(values) => {
                &&& bytes@.len() % 8 == 0
                &&& values@ == ssz_values(bytes@)
            },
            Err(e) => {
                &&& bytes@.len() % 8 != 0
                &&& e == (Error::InvalidSszBytesLen {
                    len: bytes@.len() as usize,
                    expected_multiple: 8,
                })
            },
        },
{
    proof {
        vstd::bytes::lemma_auto_spec_u64_to_from_le_bytes();
    }
    if bytes.len() % 8 != 0 {
        return Err(Error::InvalidSszBytesLen { len: bytes.len(), expected_multiple: 8 });
    }
    let total = bytes.len();
    let num_items = total / 8;
    let mut values: Vec<u64> = Vec::new();
    let mut i: usize = 0;
    while i < num_items
        invariant
            i <= num_items,
            total == bytes@.len(),
            num_items == bytes@.len() / 8,
            bytes@.len() % 8 == 0,
            values@.len() == i,
            forall|j: int| 0 <= j < i ==> values@[j] == ssz_values(bytes@)[j],
        decreases num_items - i,
    {
        proof {
            assert(8 * (i as int) + 8 <= bytes@.len()) by (nonlinear_arith)
                requires
                    i < bytes@.len() / 8,
                    bytes@.len() % 8 == 0,
                    bytes@.len() >= 0,
            ;
            assert(bytes@.len() == total as int);
        }
        let start = 8 * i;
        let chunk = vstd::slice::slice_subrange(bytes.as_slice(), start, start + 8);
        let word = vstd::bytes::u64_from_le_bytes(chunk);
        proof {
            vstd::bytes::lemma_auto_spec_u64_to_from_le_bytes();
            assert(chunk@ =~= bytes@.subrange(8 * (i as int), 8 * (i as int) + 8));
        }
        values.push(word);
        i = i + 1;
    }
    proof {
        assert(values@ =~= ssz_values(bytes@));
    }
    Ok(values)
}

impl List {
    /// The SSZ encoding of this list: concatenated 8-byte little-endian
    /// words, with no length prefix.
    pub fn to_ssz_bytes(&self) -> (r: Vec<u8>)
        requires
            self.wf(),
            self@.len() * 8 <= usize::MAX,
        ensures
            r@ == ssz_bytes(self@),
    {
        let values = self.to_vec();
        encode_values(&values)
    }

    /// Decode an SSZ byte string into a list of at most `max` values.
    pub fn from_ssz_bytes(max: usize, bytes: &Vec<u8>) -> (r: Result<List, Error>)
        ensures
            match r {
                Ok(l) => {
                    &&& bytes@.len() % 8 == 0
                    &&& bytes@.len() / 8 <= max
                    &&& l.wf()
                    &&& l.spec_max() == max
                    &&& l@ == ssz_values(bytes@)
                    &&& l.interface.updates.is_empty_spec()
                    &&& canonical_depth(l.interface.depth, max)
                },
                Err(e) => {
                    ||| (e == (Error::InvalidSszBytesLen {
                        len: bytes@.len() as usize,
                        expected_multiple: 8,
                    }) && bytes@.len() % 8 != 0)
                    ||| (e == (Error::SszListTooLong {
                        num_items: (bytes@.len() / 8) as usize,
                        max_len: max,
                    }) && bytes@.len() / 8 > max)
                    ||| (e matches Error::BuilderInvalidDepth { .. } && !depth_feasible(max))
                },
            },
    {
        let values = match decode_values(bytes) {
            Ok(values) => values,
            Err(e) => {
                return Err(e);
            },
        };
        if values.len() > max {
            return Err(
                Error::SszListTooLong { num_items: values.len(), max_len: max },
            );
        }
        match List::try_from_iter(max, &values) {
            Ok(l) => Ok(l),
            Err(e) => {
                proof {
                    assert(e matches Error::BuilderInvalidDepth { .. });
                }
                Err(e)
            },
        }
    }
}

impl Vector {
    /// The SSZ encoding of this vector: concatenated 8-byte little-endian
    /// words.
    pub fn to_ssz_bytes(&self) -> (r: Vec<u8>)
        requires
            self.wf(),
            self@.len() * 8 <= usize::MAX,
        ensures
            r@ == ssz_bytes(self@),
    {
        let values = self.to_vec();
        encode_values(&values)
    }

    /// Decode an SSZ byte string into a vector of exactly `max` values.
    pub fn from_ssz_bytes(max: usize, bytes: &Vec<u8>) -> (r: Result<Vector, Error>)
        ensures
            match r {
                Ok(v) => {
                    &&& bytes@.len() % 8 == 0
                    &&& bytes@.len() / 8 == max
                    &&& v.wf()
                    &&& v.spec_max() == max
                    &&& v@ == ssz_values(bytes@)
                    &&& v.interface.updates.is_empty_spec()
                    &&& canonical_depth(v.interface.depth, max)
                },
                Err(e) => {
                    if bytes@.len() % 8 != 0 {
                        e == (Error::InvalidSszBytesLen {
                            len: bytes@.len() as usize,
                            expected_multiple: 8,
                        })
                    } else if bytes@.len() / 8 != max {
                        e == (Error::WrongVectorLength {
                            len: (bytes@.len() / 8) as usize,
                            expected: max,
                        })
                    } else {
                        e matches Error::BuilderInvalidDepth { .. } && !depth_feasible(max)
                    }
                },
            },
    {
        let values = match decode_values(bytes) {
            Ok(values) => values,
            Err(e) => {
                return Err(e);
            },
        };
        Vector::new(max, values)
    }
}

/// List round trip: decoding an encoded list restores its contents.
pub proof fn lemma_list_ssz_round_trip(l: List)
    requires
        l.wf(),
    ensures
        ssz_values(ssz_bytes(l@)) == l@,
        ssz_bytes(l@).len() / 8 == l@.len(),
        ssz_bytes(l@).len() % 8 == 0,
{
    lemma_ssz_round_trip(l@);
    assert(ssz_bytes(l@).len() / 8 == l@.len()) by (nonlinear_arith)
        requires
            ssz_bytes(l@).len() == l@.len() * 8,
    ;
}

} // verus!
