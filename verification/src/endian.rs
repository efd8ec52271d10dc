//! Big-endian interpretation of byte sequences.
//!
//! Every multi-byte integer in the wire format is big-endian; these spec
//! functions are the single place where that interpretation is defined.

use vstd::prelude::*;

verus! {

/// The value of a two-byte big-endian integer.
pub open spec fn be16(b: Seq<u8>) -> int
    recommends
        b.len() == 2,
{
    256 * (b[0] as int) + (b[1] as int)
}

/// The value of a four-byte big-endian integer.
pub open spec fn be32(b: Seq<u8>) -> int
    recommends
        b.len() == 4,
{
    16777216 * (b[0] as int) + 65536 * (b[1] as int) + 256 * (b[2] as int) + (b[3] as int)
}

/// The two-byte big-endian encoding of a 16-bit value.
pub open spec fn be16_bytes(v: int) -> Seq<u8>
    recommends
        0 <= v < 65536,
{
    seq![(v / 256) as u8, (v % 256) as u8]
}

/// The four-byte big-endian encoding of a 32-bit value.
pub open spec fn be32_bytes(v: int) -> Seq<u8>
    recommends
        0 <= v < 4294967296,
{
    seq![
        (v / 16777216) as u8,
        ((v / 65536) % 256) as u8,
        ((v / 256) % 256) as u8,
        (v % 256) as u8,
    ]
}

/// Encoding a 16-bit value big-endian and reading it back yields the value.
pub proof fn lemma_be16_round_trip(v: u16)
    ensures
        be16_bytes(v as int).len() == 2,
        be16(be16_bytes(v as int)) == v,
{
}

/// Encoding a 32-bit value big-endian and reading it back yields the value.
pub proof fn lemma_be32_round_trip(v: u32)
    ensures
        be32_bytes(v as int).len() == 4,
        be32(be32_bytes(v as int)) == v,
{
}

/// The big-endian encoding of a run of 32-bit values, one after another.
pub open spec fn encode_u32_run(vals: Seq<u32>) -> Seq<u8>
    decreases vals.len(),
{
    if vals.len() == 0 {
        Seq::empty()
    } else {
        be32_bytes(vals[0] as int) + encode_u32_run(vals.skip(1))
    }
}

/// A run of `n` 32-bit values encodes to `4 * n` bytes.
pub proof fn lemma_encode_u32_run_len(vals: Seq<u32>)
    ensures
        encode_u32_run(vals).len() == 4 * vals.len(),
    decreases vals.len(),
{
    if vals.len() > 0 {
        lemma_encode_u32_run_len(vals.skip(1));
    }
}

/// The bytes of the `k`-th value of an encoded run are its own encoding.
pub proof fn lemma_encode_u32_run_field(vals: Seq<u32>, k: int)
    requires
        0 <= k < vals.len(),
    ensures
        encode_u32_run(vals).len() == 4 * vals.len(),
        encode_u32_run(vals).subrange(4 * k, 4 * k + 4) == be32_bytes(vals[k] as int),
    decreases k,
{
    lemma_encode_u32_run_len(vals);
    lemma_encode_u32_run_len(vals.skip(1));
    if k == 0 {
        assert(encode_u32_run(vals).subrange(0, 4) =~= be32_bytes(vals[0] as int));
    } else {
        lemma_encode_u32_run_field(vals.skip(1), k - 1);
        assert(encode_u32_run(vals).subrange(4 * k, 4 * k + 4) =~= encode_u32_run(
            vals.skip(1),
        ).subrange(4 * (k - 1), 4 * (k - 1) + 4));
        assert(vals.skip(1)[k - 1] == vals[k]);
    }
}

} // verus!
