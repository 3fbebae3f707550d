//! Compact encodings of feature embeddings for narrow-band transmission.
//!
//! Embedding components are 32-bit IEEE-754 floats; this module receives each
//! one as its bit pattern (`f32::to_bits`), which determines it exactly.
use vstd::prelude::*;
use vstd::string::StringSliceAdditionalSpecFns;

verus! {

/// One step of the bitwise CRC-32 register: shift right, folding in the
/// reflected IEEE polynomial when the bit shifted out is set.
pub open spec fn crc32_shift(c: u32, n: nat) -> u32
    decreases n,
{
    if n == 0 {
        c
    } else {
        crc32_shift(if c & 1 == 1 { (c >> 1) ^ 0xEDB8_8320u32 } else { c >> 1 }, (n - 1) as nat)
    }
}

/// The CRC-32 register after feeding `data` into register value `crc`.
pub open spec fn crc32_feed(crc: u32, data: Seq<u8>) -> u32
    decreases data.len(),
{
    if data.len() == 0 {
        crc
    } else {
        crc32_feed(crc32_shift(crc ^ (data[0] as u32), 8), data.drop_first())
    }
}

/// The CRC-32 (IEEE 802.3, reflected, initial and final value all ones)
/// checksum of `data`.
pub open spec fn crc32_ieee(data: Seq<u8>) -> u32 {
    !crc32_feed(0xFFFF_FFFFu32, data)
}

/// Calls `crc32fast::hash`. Claimed: it computes the IEEE CRC-32 checksum
/// of the bytes.
#[verifier::external_body]
fn crc32(buf: &[u8]) -> (r: u32)
    ensures
        r == crc32_ieee(buf@),
{
    crc32fast::hash(buf)
}

/// How the signature of an embedding is encoded.
#[derive(Debug, Clone, Copy, PartialEq, Eq, Structural)]
pub enum CompressionType {
    /// Every component as 4 little-endian bytes.
    Uncompressed,
    /// One bit per component: set when the component is positive.
    Binary,
    /// Codebook quantization, which needs codebooks shared across the swarm.
    Codebook,
}

impl CompressionType {
    /// The wire number of the method.
    pub open spec fn spec_code(self) -> i32 {
        match self {
            CompressionType::Uncompressed => 0,
            CompressionType::Binary => 1,
            CompressionType::Codebook => 2,
        }
    }

    /// The wire number of the method.
    pub fn code(self) -> (r: i32)
        ensures
            r == self.spec_code(),
    {
        match self {
            CompressionType::Uncompressed => 0,
            CompressionType::Binary => 1,
            CompressionType::Codebook => 2,
        }
    }
}

/// An embedding ready for the swarm: which model produced it, how it is
/// encoded, and the encoded bytes.
#[derive(Debug, PartialEq, Eq)]
pub struct FeatureEmbedding {
    pub model_hash: u32,
    pub compression: i32,
    pub signature: Vec<u8>,
}

/// The float with bit pattern `bits` is greater than zero: its sign bit is
/// clear, it is not zero, and it is not a NaN (positive infinity counts).
pub open spec fn is_positive_f32(bits: u32) -> bool {
    1 <= bits <= 0x7F80_0000
}

/// Bit `i` of `byte` is set.
pub open spec fn bit_of(byte: u8, i: u8) -> bool {
    (byte >> i) & 1u8 == 1u8
}

/// `bytes` packs one sign bit per component of `v`, eight to a byte, the
/// first component in the lowest bit; unused high bits of the last byte are
/// clear.
pub open spec fn packs_signs(bytes: Seq<u8>, v: Seq<u32>) -> bool {
    &&& bytes.len() == (v.len() + 7) / 8
    &&& forall|k: int, i: u8| #![trigger bit_of(bytes[k], i)]
        0 <= k < bytes.len() && i < 8 ==> (bit_of(bytes[k], i) <==> (8 * k + i < v.len()
            && is_positive_f32(v[8 * k + i])))
}

/// The four little-endian bytes of `x`.
pub open spec fn le_bytes(x: u32) -> Seq<u8> {
    seq![(x & 0xff) as u8, ((x >> 8) & 0xff) as u8, ((x >> 16) & 0xff) as u8, ((x >> 24) & 0xff) as u8]
}

/// The little-endian bytes of every component, in order.
pub open spec fn le_concat(v: Seq<u32>) -> Seq<u8>
    decreases v.len(),
{
    if v.len() == 0 {
        Seq::empty()
    } else {
        le_concat(v.drop_last()) + le_bytes(v.last())
    }
}

proof fn lemma_set_bit(b: u8, i: u8, t: u8)
    requires
        i < 8,
        t < 8,
    ensures
        bit_of(b | (1u8 << i), t) <==> (t == i || bit_of(b, t)),
{
    assert(((b | (1u8 << i)) >> t) & 1u8 == 1u8 <==> (t == i || (b >> t) & 1u8 == 1u8)) by (bit_vector)
        requires
            i < 8,
            t < 8,
    ;
}

proof fn lemma_zero_bits(t: u8)
    requires
        t < 8,
    ensures
        !bit_of(0u8, t),
{
    assert((0u8 >> t) & 1u8 != 1u8) by (bit_vector);
}

/// Shrinks a vector to one bit per component (a 512-dim vector from 2048 to
/// 64 bytes).
pub fn compress_binary(v: &[u32]) -> (r: Vec<u8>)
    ensures
        packs_signs(r@, v@),
{
    let n = v.len();
    let mut out: Vec<u8> = Vec::new();
    let mut k: usize = 0;
    while k < n
        invariant
            n == v@.len(),
            k <= n,
            k == 8 * out@.len() || k == n,
            out@.len() == (k + 7) / 8,
            forall|c: int, i: u8| #![trigger bit_of(out@[c], i)]
                0 <= c < out@.len() && i < 8 ==> (bit_of(out@[c], i) <==> (8 * c + i < n
                    && is_positive_f32(v@[8 * c + i]))),
        decreases n - k,
    {
        let mut b: u8 = 0;
        let mut i: usize = 0;
        proof {
            assert forall|t: u8| t < 8 implies !bit_of(b, t) by {
                lemma_zero_bits(t);
            }
        }
        while i < 8 && k + i < n
            invariant
                n == v@.len(),
                k < n,
                k == 8 * out@.len(),
                i <= 8,
                k + i <= n,
                forall|t: u8| #![trigger bit_of(b, t)]
                    t < 8 ==> (bit_of(b, t) <==> (t < i && is_positive_f32(v@[k + t]))),
            decreases 8 - i,
        {
            if v[k + i] >= 1 && v[k + i] <= 0x7F80_0000 {
                let old_b = b;
                b = b | (1u8 << (i as u8));
                proof {
                    assert forall|t: u8| t < 8 implies (bit_of(b, t) <==> (t < i + 1 && is_positive_f32(v@[k + t]))) by {
                        lemma_set_bit(old_b, i as u8, t);
                    }
                }
            }
            i = i + 1;
        }
        let ghost old_out = out@;
        out.push(b);
        proof {
            let c = old_out.len() as int;
            assert forall|cc: int, t: u8| 0 <= cc < out@.len() && t < 8 implies (#[trigger] bit_of(out@[cc], t) <==> (8 * cc + t < n
                    && is_positive_f32(v@[8 * cc + t]))) by {
                if cc < c {
                    assert(out@[cc] == old_out[cc]);
                } else {
                    assert(out@[cc] == b);
                }
            }
        }
        k = k + i;
    }
    out
}

/// Every component as 4 little-endian bytes.
pub fn vec_to_bytes(v: &[u32]) -> (r: Vec<u8>)
    ensures
        r@ == le_concat(v@),
{
    let mut out: Vec<u8> = Vec::new();
    let mut i: usize = 0;
    while i < v.len()
        invariant
            i <= v@.len(),
            out@ == le_concat(v@.subrange(0, i as int)),
        decreases v@.len() - i,
    {
        let x = v[i];
        out.push((x & 0xff) as u8);
        out.push(((x >> 8) & 0xff) as u8);
        out.push(((x >> 16) & 0xff) as u8);
        out.push(((x >> 24) & 0xff) as u8);
        proof {
            let s = v@.subrange(0, i + 1);
            assert(s.drop_last() =~= v@.subrange(0, i as int));
            assert(s.last() == x);
        }
        i = i + 1;
        assert(out@ =~= le_concat(v@.subrange(0, i as int)));
    }
    assert(v@.subrange(0, v@.len() as int) =~= v@);
    out
}

/// The signature bytes of `v` under `method` (for the two methods that
/// need no shared codebook).
pub open spec fn spec_signature(v: Seq<u32>, method: CompressionType, bytes: Seq<u8>) -> bool {
    match method {
        CompressionType::Binary => packs_signs(bytes, v),
        _ => bytes == le_concat(v),
    }
}

/// Compress a high-dimensional embedding (given as the bit patterns of its
/// components) for narrow-band transmission.
pub fn compress_embedding(vec: &[u32], method: CompressionType, model_id: &str) -> (r: FeatureEmbedding)
    requires
        method != CompressionType::Codebook,
    ensures
        r.model_hash == crc32_ieee(model_id.spec_bytes()),
        r.compression == method.spec_code(),
        spec_signature(vec@, method, r.signature@),
{
    let bytes = match method {
        CompressionType::Binary => compress_binary(vec),
        _ => vec_to_bytes(vec),
    };
    FeatureEmbedding { model_hash: crc32(model_id.as_bytes()), compression: method.code(), signature: bytes }
}

} // verus!
