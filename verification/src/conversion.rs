//! Bijective conversion between a byte buffer and a sequence of
//! fixed-width bit chunks.
//!
//! A byte buffer is read as one contiguous big-endian bit stream: bit 0 is
//! the most significant bit of byte 0. [`pack`] cuts that stream into
//! chunks of `width` bits (the final chunk right-padded with zero bits) and
//! returns each chunk as an integer below `2^width`; downstream numerics
//! treat chunk value `v` as the sample `v / 2^width` in `[0, 1)`. [`unpack`]
//! writes the chunks back into a bit stream, truncated to a caller-supplied
//! bit count — the padding of the final chunk is indistinguishable from
//! data, so the meaningful bit count cannot be recovered from the chunks
//! alone. [`lemma_pack_unpack_roundtrip`] proves that the two are mutually
//! inverse on every byte buffer and every width from 1 to 64.

use crate::math::{
    ceil_div, lemma_ceil_div_exact, lemma_ceil_div_partial, lemma_chunk_index_in_range,
    lemma_div_of_multiple_plus_remainder, lemma_div_strict_bound,
};
use crate::CompressionError;
use vstd::prelude::*;

verus! {

/// Bit `k` of `v`, counted from the least significant end.
pub open spec fn nth_bit(v: u64, k: u64) -> bool
    recommends
        k < 64,
{
    (v >> k) & 1 == 1
}

/// Bit `i` of `bytes` read as a contiguous big-endian bit stream: bit 0 is
/// the most significant bit of `bytes[0]`.
pub open spec fn stream_bit(bytes: Seq<u8>, i: int) -> bool
    recommends
        0 <= i < bytes.len() * 8,
{
    nth_bit(bytes[i / 8] as u64, (7 - i % 8) as u64)
}

/// Bit `j` of the `width`-bit chunk value `v`, counted from the most
/// significant end of the `width`-bit window.
pub open spec fn chunk_bit(v: u64, width: int, j: int) -> bool
    recommends
        0 <= j < width <= 64,
{
    nth_bit(v, (width - 1 - j) as u64)
}

/// `v` carries no set bits outside the low `width` bits.
pub open spec fn fits_width(v: u64, width: int) -> bool
    recommends
        1 <= width <= 64,
{
    width >= 64 || (v >> (width as u64)) == 0
}

/// `samples` is the chunking of `bytes` into big-endian chunks of `width`
/// bits: there are `ceil(8 * |bytes| / width)` chunks, each below
/// `2^width`, and bit `j` of chunk `c` is stream bit `c * width + j` of
/// `bytes` (zero where that position lies past the end of the stream).
pub open spec fn packs_to(bytes: Seq<u8>, width: int, samples: Seq<u64>) -> bool {
    &&& samples.len() == ceil_div((bytes.len() * 8) as int, width)
    &&& forall|c: int| 0 <= c < samples.len() ==> fits_width(#[trigger] samples[c], width)
    &&& forall|c: int, j: int|
        0 <= c < samples.len() && 0 <= j < width ==> (#[trigger] chunk_bit(samples[c], width, j)
            <==> (c * width + j < bytes.len() * 8 && stream_bit(bytes, c * width + j)))
}

/// `bytes` is the bit stream spelled by `samples`, truncated to `n_bits`
/// bits: stream bit `i` of `bytes` is bit `i % width` of chunk
/// `i / width`, and the bits that pad the final byte are zero.
pub open spec fn unpacks_to(samples: Seq<u64>, width: int, n_bits: int, bytes: Seq<u8>) -> bool {
    &&& bytes.len() == ceil_div(n_bits, 8)
    &&& forall|i: int|
        0 <= i < n_bits ==> (#[trigger] stream_bit(bytes, i) <==> chunk_bit(
            samples[i / width],
            width,
            i % width,
        ))
    &&& forall|i: int| n_bits <= i < bytes.len() * 8 ==> !#[trigger] stream_bit(bytes, i)
}

proof fn lemma_zero_bits()
    by (bit_vector)
    ensures
        forall|k: u64| k < 64 ==> !#[trigger] nth_bit(0u64, k),
        forall|k: u64| k < 64 ==> #[trigger] (0u64 >> k) == 0,
{
}

proof fn lemma_or_shift_bit(v: u64, s: u64, k: u64)
    by (bit_vector)
    requires
        s < 64,
        k < 64,
    ensures
        nth_bit(v | (1u64 << s), k) <==> (k == s || nth_bit(v, k)),
{
}

proof fn lemma_or_shift_fits(v: u64, s: u64, w: u64)
    by (bit_vector)
    requires
        s < w,
        w < 64,
        v >> w == 0,
    ensures
        (v | (1u64 << s)) >> w == 0,
{
}

proof fn lemma_u8_set_bit(b: u8, s: u8, k: u64)
    by (bit_vector)
    requires
        s < 8,
        k < 8,
    ensures
        nth_bit((b | (1u8 << s)) as u64, k) <==> (k == s as u64 || nth_bit(b as u64, k)),
{
}

proof fn lemma_u8_eq_by_bits(x: u8, y: u8)
    requires
        forall|k: u64| k < 8 ==> (#[trigger] nth_bit(x as u64, k) <==> nth_bit(y as u64, k)),
    ensures
        x == y,
{
    assert(nth_bit(x as u64, 0) == nth_bit(y as u64, 0));
    assert(nth_bit(x as u64, 1) == nth_bit(y as u64, 1));
    assert(nth_bit(x as u64, 2) == nth_bit(y as u64, 2));
    assert(nth_bit(x as u64, 3) == nth_bit(y as u64, 3));
    assert(nth_bit(x as u64, 4) == nth_bit(y as u64, 4));
    assert(nth_bit(x as u64, 5) == nth_bit(y as u64, 5));
    assert(nth_bit(x as u64, 6) == nth_bit(y as u64, 6));
    assert(nth_bit(x as u64, 7) == nth_bit(y as u64, 7));
    assert(x == y) by (bit_vector)
        requires
            nth_bit(x as u64, 0) == nth_bit(y as u64, 0),
            nth_bit(x as u64, 1) == nth_bit(y as u64, 1),
            nth_bit(x as u64, 2) == nth_bit(y as u64, 2),
            nth_bit(x as u64, 3) == nth_bit(y as u64, 3),
            nth_bit(x as u64, 4) == nth_bit(y as u64, 4),
            nth_bit(x as u64, 5) == nth_bit(y as u64, 5),
            nth_bit(x as u64, 6) == nth_bit(y as u64, 6),
            nth_bit(x as u64, 7) == nth_bit(y as u64, 7),
    ;
}

/// Cut the big-endian bit stream of `bytes` into chunks of `width` bits.
/// The final chunk, where the stream does not fill it, is right-padded
/// with zero bits.
pub fn pack(bytes: &[u8], width: usize) -> (samples: Vec<u64>)
    requires
        1 <= width <= 64,
        8 * bytes@.len() <= usize::MAX,
    ensures
        packs_to(bytes@, width as int, samples@),
{
    let n_bits: usize = bytes.len() * 8;
    let mut samples: Vec<u64> = Vec::new();
    let mut tmp: u64 = 0;
    let mut filled: usize = 0;
    let mut i: usize = 0;

    proof {
        lemma_zero_bits();
        assert(samples@.len() * (width as int) == 0) by (nonlinear_arith)
            requires
                samples@.len() == 0,
        ;
    }
    while i < n_bits
        invariant
            1 <= width <= 64,
            n_bits == 8 * bytes@.len(),
            i <= n_bits,
            filled < width,
            i as int == samples@.len() * (width as int) + filled as int,
            forall|c: int|
                0 <= c < samples@.len() ==> fits_width(#[trigger] samples@[c], width as int),
            forall|c: int, j: int|
                0 <= c < samples@.len() && 0 <= j < width ==> (#[trigger] chunk_bit(
                    samples@[c],
                    width as int,
                    j,
                ) <==> stream_bit(bytes@, c * (width as int) + j)),
            fits_width(tmp, width as int),
            forall|j: int|
                0 <= j < filled ==> (#[trigger] chunk_bit(tmp, width as int, j) <==> stream_bit(
                    bytes@,
                    samples@.len() * (width as int) + j,
                )),
            forall|j: int| filled <= j < width ==> !#[trigger] chunk_bit(tmp, width as int, j),
        decreases n_bits - i,
    {
        proof {
            lemma_div_strict_bound(i as int, 8, bytes@.len() as int);
        }
        let k: u64 = (7 - (i % 8)) as u64;
        let bit: u64 = ((bytes[i / 8] as u64) >> k) & 1;
        let ghost prev = tmp;
        let s: u64 = ((width - 1) - filled) as u64;
        if bit == 1 {
            tmp = tmp | (1u64 << s);
        }
        proof {
            assert(bit == 1 <==> stream_bit(bytes@, i as int));
            if bit == 1 {
                assert forall|j: int| 0 <= j < width implies (#[trigger] chunk_bit(
                    tmp,
                    width as int,
                    j,
                ) <==> (j == filled || chunk_bit(prev, width as int, j))) by {
                    lemma_or_shift_bit(prev, s, (width - 1 - j) as u64);
                }
                if width < 64 {
                    lemma_or_shift_fits(prev, s, width as u64);
                }
            }
        }
        filled = filled + 1;
        i = i + 1;
        if filled == width {
            let ghost len0 = samples@.len() as int;
            samples.push(tmp);
            proof {
                assert(i as int == (len0 + 1) * (width as int)) by (nonlinear_arith)
                    requires
                        i as int == len0 * (width as int) + width as int,
                ;
                lemma_zero_bits();
            }
            tmp = 0;
            filled = 0;
        }
    }
    let ghost full = samples@.len() as int;
    if filled > 0 {
        samples.push(tmp);
    }
    proof {
        let w = width as int;
        let n = bytes@.len() as int;
        if filled == 0 {
            lemma_ceil_div_exact(full, w);
        } else {
            lemma_ceil_div_partial(full, w, filled as int);
        }
        assert(samples@.len() == ceil_div(n * 8, w));
        assert forall|c: int, j: int| 0 <= c < samples@.len() && 0 <= j < w implies (
        #[trigger] chunk_bit(samples@[c], w, j) <==> (c * w + j < n * 8 && stream_bit(
            bytes@,
            c * w + j,
        ))) by {
            if c < full {
                assert(c * w + j < full * w) by (nonlinear_arith)
                    requires
                        c < full,
                        0 <= j < w,
                        0 <= c,
                ;
                assert(full * w <= n * 8);
            } else {
                assert(c == full && filled > 0);
                assert(c * w + j < n * 8 <==> j < filled as int);
            }
        }
    }
    samples
}

/// Write the chunk sequence back into a byte buffer as one big-endian bit
/// stream, keeping exactly the first `n_bits` bits and zero-padding the
/// final byte. Rejects any chunk whose value carries set bits outside the
/// `width`-bit mask.
pub fn unpack(samples: &[u64], width: usize, n_bits: usize) -> (r: Result<
    Vec<u8>,
    CompressionError,
>)
    requires
        1 <= width <= 64,
        n_bits as int <= samples@.len() * (width as int),
    ensures
        match r {
            Ok(bytes) => unpacks_to(samples@, width as int, n_bits as int, bytes@) && forall|
                c: int,
            |
                0 <= c < samples@.len() ==> fits_width(#[trigger] samples@[c], width as int),
            Err(e) => e == CompressionError::EncodingError && exists|c: int|
                0 <= c < samples@.len() && !fits_width(#[trigger] samples@[c], width as int),
        },
{
    let mut c: usize = 0;
    while c < samples.len()
        invariant
            1 <= width <= 64,
            c <= samples@.len(),
            forall|d: int| 0 <= d < c ==> fits_width(#[trigger] samples@[d], width as int),
        decreases samples@.len() - c,
    {
        if width < 64 {
            if (samples[c] >> (width as u64)) != 0 {
                return Err(CompressionError::EncodingError);
            }
        }
        c = c + 1;
    }

    let n_out: usize = n_bits / 8 + (if n_bits % 8 != 0 {
        1
    } else {
        0
    });
    proof {
        let q = n_bits as int / 8;
        let r = n_bits as int % 8;
        vstd::arithmetic::div_mod::lemma_fundamental_div_mod(n_bits as int, 8);
        if r == 0 {
            lemma_ceil_div_exact(q, 8);
        } else {
            lemma_ceil_div_partial(q, 8, r);
        }
    }
    let mut out: Vec<u8> = Vec::new();
    proof {
        lemma_zero_bits();
    }
    while out.len() < n_out
        invariant
            out@.len() <= n_out,
            forall|p: int| 0 <= p < out@.len() ==> out@[p] == 0u8,
        decreases n_out - out@.len(),
    {
        out.push(0u8);
    }

    let mut i: usize = 0;
    while i < n_bits
        invariant
            1 <= width <= 64,
            n_bits as int <= samples@.len() * (width as int),
            i <= n_bits,
            out.len() == n_out,
            n_out == ceil_div(n_bits as int, 8),
            forall|q: int|
                0 <= q < i ==> (#[trigger] stream_bit(out@, q) <==> chunk_bit(
                    samples@[q / (width as int)],
                    width as int,
                    q % (width as int),
                )),
            forall|q: int| i <= q < n_out as int * 8 ==> !#[trigger] stream_bit(out@, q),
        decreases n_bits - i,
    {
        proof {
            lemma_div_strict_bound(i as int, width as int, samples@.len() as int);
            lemma_chunk_index_in_range(i as int, 8, n_bits as int);
            lemma_ceil_div_exact(n_out as int, 8);
        }
        let pos: u64 = ((width - 1) - (i % width)) as u64;
        let bit: u64 = (samples[i / width] >> pos) & 1;
        let ghost old_out = out@;
        if bit == 1 {
            let p: usize = i / 8;
            let s8: u8 = (7 - (i % 8)) as u8;
            let nb: u8 = out[p] | (1u8 << s8);
            out[p] = nb;
            proof {
                assert forall|q: int| 0 <= q < n_out as int * 8 implies (#[trigger] stream_bit(
                    out@,
                    q,
                ) <==> (q == i as int || stream_bit(old_out, q))) by {
                    lemma_chunk_index_in_range(q, 8, n_out as int * 8);
                    if q / 8 == p as int {
                        lemma_u8_set_bit(old_out[q / 8], s8, (7 - q % 8) as u64);
                    } else {
                        assert(out@[q / 8] == old_out[q / 8]);
                    }
                }
            }
        }
        proof {
            assert(bit == 1 <==> chunk_bit(
                samples@[i as int / (width as int)],
                width as int,
                i as int % (width as int),
            ));
        }
        i = i + 1;
    }
    Ok(out)
}

/// Packing and unpacking are mutually inverse: chunking the bit stream of
/// a byte buffer into `width`-bit samples and writing the samples back
/// with the buffer's exact bit count reproduces the buffer, for every
/// buffer and every width from 1 to 64.
pub proof fn lemma_pack_unpack_roundtrip(
    bytes: Seq<u8>,
    width: int,
    samples: Seq<u64>,
    out: Seq<u8>,
)
    requires
        1 <= width <= 64,
        packs_to(bytes, width, samples),
        unpacks_to(samples, width, (bytes.len() * 8) as int, out),
    ensures
        out == bytes,
{
    let n = bytes.len() as int;
    lemma_ceil_div_exact(n, 8);
    assert(out.len() == n);
    assert forall|i: int| 0 <= i < n * 8 implies (stream_bit(out, i) <==> stream_bit(
        bytes,
        i,
    )) by {
        lemma_chunk_index_in_range(i, width, n * 8);
        let c = i / width;
        let j = i % width;
        assert(c * width + j == i);
        assert(stream_bit(out, i) <==> chunk_bit(samples[c], width, j));
        assert(chunk_bit(samples[c], width, j) <==> (c * width + j < n * 8 && stream_bit(
            bytes,
            c * width + j,
        )));
    }
    assert forall|b: int| 0 <= b < n implies out[b] == bytes[b] by {
        assert forall|k: u64| k < 8 implies (#[trigger] nth_bit(out[b] as u64, k) <==> nth_bit(
            bytes[b] as u64,
            k,
        )) by {
            let i = 8 * b + 7 - (k as int);
            lemma_div_of_multiple_plus_remainder(b, 8, 7 - (k as int));
            assert(i / 8 == b && i % 8 == 7 - (k as int));
            assert(0 <= i < n * 8);
            assert(stream_bit(out, i) <==> stream_bit(bytes, i));
            assert(stream_bit(out, i) <==> nth_bit(out[b] as u64, k));
            assert(stream_bit(bytes, i) <==> nth_bit(bytes[b] as u64, k));
        }
        lemma_u8_eq_by_bits(out[b], bytes[b]);
    }
    assert(out =~= bytes);
}


/// The canonical chunk width: 53 bits, the mantissa width of a
/// double-precision value, so each chunk value maps bijectively onto a
/// float in `[0, 1)` with no bits lost.
pub const MASK_BITS: usize = 53;

/// The mask with the low [`MASK_BITS`] bits set: the largest legal chunk
/// value.
pub const MASK: u64 = 0x001f_ffff_ffff_ffff;

/// The lower-case hex digit for `d`.
pub open spec fn hex_digit(d: int) -> char {
    if d == 0 {
        '0'
    } else if d == 1 {
        '1'
    } else if d == 2 {
        '2'
    } else if d == 3 {
        '3'
    } else if d == 4 {
        '4'
    } else if d == 5 {
        '5'
    } else if d == 6 {
        '6'
    } else if d == 7 {
        '7'
    } else if d == 8 {
        '8'
    } else if d == 9 {
        '9'
    } else if d == 10 {
        'a'
    } else if d == 11 {
        'b'
    } else if d == 12 {
        'c'
    } else if d == 13 {
        'd'
    } else if d == 14 {
        'e'
    } else {
        'f'
    }
}

/// The lower-case hex spelling of `n`, zero-padded to at least `min`
/// digits.
pub open spec fn hex_pad(n: nat, min: nat) -> Seq<char>
    recommends
        1 <= min,
    decreases n, min,
{
    if n < 16 && min <= 1 {
        seq![hex_digit(n as int)]
    } else {
        hex_pad(
            n / 16,
            if min <= 1 {
                1nat
            } else {
                (min - 1) as nat
            },
        ).push(hex_digit((n % 16) as int))
    }
}

/// What one byte contributes to a hex dump: its two hex digits after a
/// space, led by the eight-digit offset and a colon at the start of a
/// line of 16, and closed by a newline at the end of one.
pub open spec fn dump_entry(bytes: Seq<u8>, i: int) -> Seq<char>
    recommends
        0 <= i < bytes.len(),
{
    (if i % 16 == 0 {
        hex_pad(i as nat, 8).push(':')
    } else {
        Seq::<char>::empty()
    }) + seq![' '] + hex_pad(bytes[i] as nat, 2) + (if i % 16 == 15 {
        seq!['\n']
    } else {
        Seq::<char>::empty()
    })
}

/// The hex dump of the first `i` bytes.
pub open spec fn dump_prefix(bytes: Seq<u8>, i: int) -> Seq<char>
    recommends
        0 <= i <= bytes.len(),
    decreases i,
{
    if i <= 0 {
        Seq::empty()
    } else {
        dump_prefix(bytes, i - 1) + dump_entry(bytes, i - 1)
    }
}

/// The full hex dump: every byte's entry, then a final newline.
pub open spec fn hex_dump(bytes: Seq<u8>) -> Seq<char> {
    dump_prefix(bytes, bytes.len() as int) + seq!['\n']
}

fn hex_digit_str(d: usize) -> (s: &'static str)
    requires
        d < 16,
    ensures
        s@ == seq![hex_digit(d as int)],
{
    if d == 0 {
        proof {
            reveal_strlit("0");
            assert("0"@ =~= seq![hex_digit(0)]);
        }
        "0"
    } else if d == 1 {
        proof {
            reveal_strlit("1");
            assert("1"@ =~= seq![hex_digit(1)]);
        }
        "1"
    } else if d == 2 {
        proof {
            reveal_strlit("2");
            assert("2"@ =~= seq![hex_digit(2)]);
        }
        "2"
    } else if d == 3 {
        proof {
            reveal_strlit("3");
            assert("3"@ =~= seq![hex_digit(3)]);
        }
        "3"
    } else if d == 4 {
        proof {
            reveal_strlit("4");
            assert("4"@ =~= seq![hex_digit(4)]);
        }
        "4"
    } else if d == 5 {
        proof {
            reveal_strlit("5");
            assert("5"@ =~= seq![hex_digit(5)]);
        }
        "5"
    } else if d == 6 {
        proof {
            reveal_strlit("6");
            assert("6"@ =~= seq![hex_digit(6)]);
        }
        "6"
    } else if d == 7 {
        proof {
            reveal_strlit("7");
            assert("7"@ =~= seq![hex_digit(7)]);
        }
        "7"
    } else if d == 8 {
        proof {
            reveal_strlit("8");
            assert("8"@ =~= seq![hex_digit(8)]);
        }
        "8"
    } else if d == 9 {
        proof {
            reveal_strlit("9");
            assert("9"@ =~= seq![hex_digit(9)]);
        }
        "9"
    } else if d == 10 {
        proof {
            reveal_strlit("a");
            assert("a"@ =~= seq![hex_digit(10)]);
        }
        "a"
    } else if d == 11 {
        proof {
            reveal_strlit("b");
            assert("b"@ =~= seq![hex_digit(11)]);
        }
        "b"
    } else if d == 12 {
        proof {
            reveal_strlit("c");
            assert("c"@ =~= seq![hex_digit(12)]);
        }
        "c"
    } else if d == 13 {
        proof {
            reveal_strlit("d");
            assert("d"@ =~= seq![hex_digit(13)]);
        }
        "d"
    } else if d == 14 {
        proof {
            reveal_strlit("e");
            assert("e"@ =~= seq![hex_digit(14)]);
        }
        "e"
    } else {
        proof {
            reveal_strlit("f");
            assert("f"@ =~= seq![hex_digit(15)]);
        }
        "f"
    }
}

fn push_hex(out: &mut String, n: usize, min: usize)
    requires
        1 <= min,
    ensures
        final(out)@ == old(out)@ + hex_pad(n as nat, min as nat),
    decreases n, min,
{
    if n < 16 && min <= 1 {
        let d = hex_digit_str(n);
        out.append(d);
        proof {
            assert(out@ =~= old(out)@ + hex_pad(n as nat, min as nat));
        }
    } else {
        let nm: usize = if min <= 1 {
            1
        } else {
            min - 1
        };
        push_hex(out, n / 16, nm);
        let d = hex_digit_str(n % 16);
        out.append(d);
        proof {
            assert(out@ =~= old(out)@ + hex_pad(n as nat, min as nat));
        }
    }
}

/// Render `buffer` as a hex dump: 16 bytes per line, each line led by
/// the eight-hex-digit offset of its first byte and a colon, each byte as
/// two lower-case hex digits after a space, and a final newline.
pub fn print_buffer(buffer: &[u8]) -> (s: String)
    ensures
        s@ == hex_dump(buffer@),
{
    let mut s = String::new();
    let n = buffer.len();
    let mut i: usize = 0;
    while i < n
        invariant
            n == buffer@.len(),
            i <= n,
            s@ == dump_prefix(buffer@, i as int),
        decreases n - i,
    {
        let ghost s0 = s@;
        if i % 16 == 0 {
            push_hex(&mut s, i, 8);
            s.append(":");
        }
        s.append(" ");
        push_hex(&mut s, buffer[i] as usize, 2);
        if i % 16 == 15 {
            s.append("\n");
        }
        proof {
            reveal_strlit(":");
            reveal_strlit(" ");
            reveal_strlit("\n");
            assert(s@ =~= s0 + dump_entry(buffer@, i as int));
            assert(s@ =~= dump_prefix(buffer@, i as int + 1));
        }
        i = i + 1;
    }
    s.append("\n");
    proof {
        reveal_strlit("\n");
        assert(s@ =~= hex_dump(buffer@));
    }
    s
}


proof fn lemma_high_bits_zero(v: u64, w: u64, k: u64)
    by (bit_vector)
    requires
        v >> w == 0,
        w <= k < 64,
    ensures
        !nth_bit(v, k),
{
}

proof fn lemma_u64_byte_bit(x: u64, b: u64, k: u64)
    by (bit_vector)
    requires
        b < 8,
        k < 8,
    ensures
        nth_bit(((x >> (8 * b)) as u8) as u64, k) == nth_bit(x, (8 * b + k) as u64),
{
}

proof fn lemma_u64_eq_by_bytes(x: u64, y: u64)
    by (bit_vector)
    requires
        (x >> (8 * 0)) as u8 == (y >> (8 * 0)) as u8,
        (x >> (8 * 1)) as u8 == (y >> (8 * 1)) as u8,
        (x >> (8 * 2)) as u8 == (y >> (8 * 2)) as u8,
        (x >> (8 * 3)) as u8 == (y >> (8 * 3)) as u8,
        (x >> (8 * 4)) as u8 == (y >> (8 * 4)) as u8,
        (x >> (8 * 5)) as u8 == (y >> (8 * 5)) as u8,
        (x >> (8 * 6)) as u8 == (y >> (8 * 6)) as u8,
        (x >> (8 * 7)) as u8 == (y >> (8 * 7)) as u8,
    ensures
        x == y,
{
}

proof fn lemma_u64_eq_by_bits(x: u64, y: u64)
    requires
        forall|k: u64| k < 64 ==> (#[trigger] nth_bit(x, k) <==> nth_bit(y, k)),
    ensures
        x == y,
{
    assert forall|b: u64| b < 8 implies #[trigger] ((x >> (8 * b)) as u8) == (y >> (8 * b))
        as u8 by {
        assert forall|k: u64| k < 8 implies (#[trigger] nth_bit(((x >> (8 * b)) as u8) as u64, k)
            <==> nth_bit(((y >> (8 * b)) as u8) as u64, k)) by {
            lemma_u64_byte_bit(x, b, k);
            lemma_u64_byte_bit(y, b, k);
            assert(nth_bit(x, (8 * b + k) as u64) <==> nth_bit(y, (8 * b + k) as u64));
        }
        lemma_u8_eq_by_bits((x >> (8 * b)) as u8, (y >> (8 * b)) as u8);
    }
    assert((x >> (8 * 0)) as u8 == (y >> (8 * 0)) as u8);
    assert((x >> (8 * 1)) as u8 == (y >> (8 * 1)) as u8);
    assert((x >> (8 * 2)) as u8 == (y >> (8 * 2)) as u8);
    assert((x >> (8 * 3)) as u8 == (y >> (8 * 3)) as u8);
    assert((x >> (8 * 4)) as u8 == (y >> (8 * 4)) as u8);
    assert((x >> (8 * 5)) as u8 == (y >> (8 * 5)) as u8);
    assert((x >> (8 * 6)) as u8 == (y >> (8 * 6)) as u8);
    assert((x >> (8 * 7)) as u8 == (y >> (8 * 7)) as u8);
    lemma_u64_eq_by_bytes(x, y);
}

/// The packing relation pins the chunk sequence down: a byte buffer and a
/// width admit exactly one chunking.
pub proof fn lemma_packs_to_unique(bytes: Seq<u8>, width: int, s1: Seq<u64>, s2: Seq<u64>)
    requires
        1 <= width <= 64,
        packs_to(bytes, width, s1),
        packs_to(bytes, width, s2),
    ensures
        s1 == s2,
{
    assert forall|c: int| 0 <= c < s1.len() implies s1[c] == s2[c] by {
        assert forall|k: u64| k < 64 implies (#[trigger] nth_bit(s1[c], k) <==> nth_bit(
            s2[c],
            k,
        )) by {
            if k < width {
                let j = width - 1 - k;
                assert(chunk_bit(s1[c], width, j) <==> chunk_bit(s2[c], width, j));
            } else {
                lemma_high_bits_zero(s1[c], width as u64, k);
                lemma_high_bits_zero(s2[c], width as u64, k);
            }
        }
        lemma_u64_eq_by_bits(s1[c], s2[c]);
    }
    assert(s1 =~= s2);
}

/// The unpacking relation pins the byte buffer down: a chunk sequence, a
/// width and a bit count admit exactly one output buffer.
pub proof fn lemma_unpacks_to_unique(
    samples: Seq<u64>,
    width: int,
    n_bits: int,
    b1: Seq<u8>,
    b2: Seq<u8>,
)
    requires
        1 <= width <= 64,
        0 <= n_bits,
        unpacks_to(samples, width, n_bits, b1),
        unpacks_to(samples, width, n_bits, b2),
    ensures
        b1 == b2,
{
    assert forall|p: int| 0 <= p < b1.len() implies b1[p] == b2[p] by {
        assert forall|k: u64| k < 8 implies (#[trigger] nth_bit(b1[p] as u64, k) <==> nth_bit(
            b2[p] as u64,
            k,
        )) by {
            let i = 8 * p + 7 - (k as int);
            lemma_div_of_multiple_plus_remainder(p, 8, 7 - (k as int));
            assert(i / 8 == p && i % 8 == 7 - (k as int));
            assert(0 <= i < b1.len() * 8);
            assert(stream_bit(b1, i) <==> stream_bit(b2, i));
            assert(stream_bit(b1, i) <==> nth_bit(b1[p] as u64, k));
            assert(stream_bit(b2, i) <==> nth_bit(b2[p] as u64, k));
        }
        lemma_u8_eq_by_bits(b1[p], b2[p]);
    }
    assert(b1 =~= b2);
}

} // verus!
