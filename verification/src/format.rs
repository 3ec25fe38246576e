//! The fixed-size frame that makes a compressed payload self-describing.
//!
//! A compressed stream cannot be decoded from its payload alone: the
//! decoder needs the original byte length, the number of retained
//! components and the feature count. The header carries those three as
//! big-endian 64-bit fields in a fixed 24-byte prefix; [`encode_header`]
//! and [`decode_header`] are proved mutually inverse.

use crate::CompressionError;
use vstd::prelude::*;

verus! {

/// The number of bytes a header occupies at the front of a stream.
pub const HEADER_LEN: usize = 24;

/// The out-of-band facts a decoder needs: how many bytes the original
/// input held, how many principal components were kept, and how many
/// features (matrix columns) each eigenvector spans.
#[derive(Debug, PartialEq, Eq, Structural, Clone, Copy)]
pub struct Header {
    pub original_len: u64,
    pub n_components: u64,
    pub n_features: u64,
}

/// Big-endian byte `k` of `v`: byte 0 is the most significant.
pub open spec fn be_byte(v: u64, k: int) -> u8
    recommends
        0 <= k < 8,
{
    (v >> ((56 - 8 * k) as u64)) as u8
}

/// The 24-byte wire form of a header: each field as 8 big-endian bytes,
/// original length first, then component count, then feature count.
pub open spec fn header_bytes(h: Header) -> Seq<u8> {
    Seq::new(
        24,
        |i: int|
            if i < 8 {
                be_byte(h.original_len, i)
            } else if i < 16 {
                be_byte(h.n_components, i - 8)
            } else {
                be_byte(h.n_features, i - 16)
            },
    )
}

/// Append the 8 big-endian bytes of `v` to `out`.
fn push_be_u64(out: &mut Vec<u8>, v: u64)
    ensures
        final(out)@ == old(out)@ + Seq::new(8, |k: int| be_byte(v, k)),
{
    out.push((v >> 56u64) as u8);
    out.push((v >> 48u64) as u8);
    out.push((v >> 40u64) as u8);
    out.push((v >> 32u64) as u8);
    out.push((v >> 24u64) as u8);
    out.push((v >> 16u64) as u8);
    out.push((v >> 8u64) as u8);
    out.push((v >> 0u64) as u8);
    proof {
        assert(out@ =~= old(out)@ + Seq::new(8, |k: int| be_byte(v, k)));
    }
}

/// Read 8 big-endian bytes starting at `off` as one `u64`.
fn read_be_u64(bytes: &[u8], off: usize) -> (v: u64)
    requires
        off + 8 <= bytes@.len(),
    ensures
        forall|k: int| 0 <= k < 8 ==> #[trigger] be_byte(v, k) == bytes@[off + k],
{
    let b0 = bytes[off];
    let b1 = bytes[off + 1];
    let b2 = bytes[off + 2];
    let b3 = bytes[off + 3];
    let b4 = bytes[off + 4];
    let b5 = bytes[off + 5];
    let b6 = bytes[off + 6];
    let b7 = bytes[off + 7];
    let v: u64 = ((b0 as u64) << 56u64) | ((b1 as u64) << 48u64) | ((b2 as u64) << 40u64) | ((b3 as u64)
        << 32u64) | ((b4 as u64) << 24u64) | ((b5 as u64) << 16u64) | ((b6 as u64) << 8u64) | (
    b7 as u64);
    proof {
        lemma_be_recompose(b0, b1, b2, b3, b4, b5, b6, b7);
        assert forall|k: int| 0 <= k < 8 implies #[trigger] be_byte(v, k) == bytes@[off + k] by {
            if k == 0 {
                assert(be_byte(v, 0) == b0);
            } else if k == 1 {
                assert(be_byte(v, 1) == b1);
            } else if k == 2 {
                assert(be_byte(v, 2) == b2);
            } else if k == 3 {
                assert(be_byte(v, 3) == b3);
            } else if k == 4 {
                assert(be_byte(v, 4) == b4);
            } else if k == 5 {
                assert(be_byte(v, 5) == b5);
            } else if k == 6 {
                assert(be_byte(v, 6) == b6);
            } else {
                assert(be_byte(v, 7) == b7);
            }
        }
    }
    v
}

proof fn lemma_be_recompose(b0: u8, b1: u8, b2: u8, b3: u8, b4: u8, b5: u8, b6: u8, b7: u8)
    by (bit_vector)
    ensures
        ({
            let v: u64 = ((b0 as u64) << 56u64) | ((b1 as u64) << 48u64) | ((b2 as u64)
                << 40u64) | ((b3 as u64) << 32u64) | ((b4 as u64) << 24u64) | ((b5 as u64)
                << 16u64) | ((b6 as u64) << 8u64) | (b7 as u64);
            &&& (v >> 56u64) as u8 == b0
            &&& (v >> 48u64) as u8 == b1
            &&& (v >> 40u64) as u8 == b2
            &&& (v >> 32u64) as u8 == b3
            &&& (v >> 24u64) as u8 == b4
            &&& (v >> 16u64) as u8 == b5
            &&& (v >> 8u64) as u8 == b6
            &&& (v >> 0u64) as u8 == b7
        }),
{
}

/// A `u64` is determined by its 8 big-endian bytes.
proof fn lemma_be_bytes_injective(v1: u64, v2: u64)
    requires
        forall|k: int| 0 <= k < 8 ==> #[trigger] be_byte(v1, k) == be_byte(v2, k),
    ensures
        v1 == v2,
{
    assert(be_byte(v1, 0) == be_byte(v2, 0));
    assert(be_byte(v1, 1) == be_byte(v2, 1));
    assert(be_byte(v1, 2) == be_byte(v2, 2));
    assert(be_byte(v1, 3) == be_byte(v2, 3));
    assert(be_byte(v1, 4) == be_byte(v2, 4));
    assert(be_byte(v1, 5) == be_byte(v2, 5));
    assert(be_byte(v1, 6) == be_byte(v2, 6));
    assert(be_byte(v1, 7) == be_byte(v2, 7));
    assert(v1 == v2) by (bit_vector)
        requires
            (v1 >> 56u64) as u8 == (v2 >> 56u64) as u8,
            (v1 >> 48u64) as u8 == (v2 >> 48u64) as u8,
            (v1 >> 40u64) as u8 == (v2 >> 40u64) as u8,
            (v1 >> 32u64) as u8 == (v2 >> 32u64) as u8,
            (v1 >> 24u64) as u8 == (v2 >> 24u64) as u8,
            (v1 >> 16u64) as u8 == (v2 >> 16u64) as u8,
            (v1 >> 8u64) as u8 == (v2 >> 8u64) as u8,
            (v1 >> 0u64) as u8 == (v2 >> 0u64) as u8,
    ;
}

/// Two headers with the same wire form are the same header: the frame
/// loses nothing.
pub proof fn lemma_header_bytes_injective(h1: Header, h2: Header)
    requires
        header_bytes(h1) == header_bytes(h2),
    ensures
        h1 == h2,
{
    assert forall|k: int| 0 <= k < 8 implies #[trigger] be_byte(h1.original_len, k) == be_byte(
        h2.original_len,
        k,
    ) by {
        assert(header_bytes(h1)[k] == header_bytes(h2)[k]);
        assert(header_bytes(h1)[k] == be_byte(h1.original_len, k));
        assert(header_bytes(h2)[k] == be_byte(h2.original_len, k));
    }
    assert forall|k: int| 0 <= k < 8 implies #[trigger] be_byte(h1.n_components, k) == be_byte(
        h2.n_components,
        k,
    ) by {
        assert(header_bytes(h1)[k + 8] == header_bytes(h2)[k + 8]);
        assert(header_bytes(h1)[k + 8] == be_byte(h1.n_components, k));
        assert(header_bytes(h2)[k + 8] == be_byte(h2.n_components, k));
    }
    assert forall|k: int| 0 <= k < 8 implies #[trigger] be_byte(h1.n_features, k) == be_byte(
        h2.n_features,
        k,
    ) by {
        assert(header_bytes(h1)[k + 16] == header_bytes(h2)[k + 16]);
        assert(header_bytes(h1)[k + 16] == be_byte(h1.n_features, k));
        assert(header_bytes(h2)[k + 16] == be_byte(h2.n_features, k));
    }
    lemma_be_bytes_injective(h1.original_len, h2.original_len);
    lemma_be_bytes_injective(h1.n_components, h2.n_components);
    lemma_be_bytes_injective(h1.n_features, h2.n_features);
}

/// Serialize the header into its 24-byte wire form.
pub fn encode_header(h: &Header) -> (r: Vec<u8>)
    ensures
        r@ == header_bytes(*h),
        r@.len() == HEADER_LEN,
{
    let mut r: Vec<u8> = Vec::new();
    push_be_u64(&mut r, h.original_len);
    push_be_u64(&mut r, h.n_components);
    push_be_u64(&mut r, h.n_features);
    proof {
        assert(r@ =~= header_bytes(*h));
    }
    r
}

/// Read a header back from the first 24 bytes of a stream. Fails exactly
/// on streams too short to hold one.
pub fn decode_header(bytes: &[u8]) -> (r: Result<Header, CompressionError>)
    ensures
        match r {
            Ok(h) => bytes@.len() >= HEADER_LEN && bytes@.take(HEADER_LEN as int) == header_bytes(
                h,
            ),
            Err(e) => e == CompressionError::EncodingError,
        },
        r is Err <==> bytes@.len() < HEADER_LEN,
{
    if bytes.len() < HEADER_LEN {
        return Err(CompressionError::EncodingError);
    }
    let original_len = read_be_u64(bytes, 0);
    let n_components = read_be_u64(bytes, 8);
    let n_features = read_be_u64(bytes, 16);
    let h = Header { original_len, n_components, n_features };
    proof {
        assert(bytes@.take(HEADER_LEN as int) =~= header_bytes(h));
    }
    Ok(h)
}

/// Decoding an encoded header, with or without a payload behind it,
/// restores the header exactly.
pub proof fn lemma_header_roundtrip(h: Header, payload: Seq<u8>, decoded: Header)
    requires
        (header_bytes(h) + payload).take(HEADER_LEN as int) == header_bytes(decoded),
    ensures
        decoded == h,
{
    assert((header_bytes(h) + payload).take(HEADER_LEN as int) =~= header_bytes(h));
    lemma_header_bytes_injective(h, decoded);
}

} // verus!
