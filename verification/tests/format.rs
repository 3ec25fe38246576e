use pcazip::format::{decode_header, encode_header, Header, HEADER_LEN};
use pcazip::CompressionError;

#[test]
fn header_has_fixed_big_endian_layout() {
    let h = Header { original_len: 1, n_components: 2, n_features: 3 };
    let bytes = encode_header(&h);
    assert_eq!(bytes.len(), HEADER_LEN);
    let mut expected = vec![0u8; 24];
    expected[7] = 1;
    expected[15] = 2;
    expected[23] = 3;
    assert_eq!(bytes, expected);
}

#[test]
fn header_round_trips() {
    let h = Header {
        original_len: 0x0123_4567_89ab_cdef,
        n_components: 42,
        n_features: u64::MAX,
    };
    let bytes = encode_header(&h);
    assert_eq!(decode_header(&bytes), Ok(h));
}

#[test]
fn header_round_trips_with_payload_behind_it() {
    let h = Header { original_len: 1000, n_components: 7, n_features: 13 };
    let mut stream = encode_header(&h);
    stream.extend_from_slice(&[0xde, 0xad, 0xbe, 0xef]);
    assert_eq!(decode_header(&stream), Ok(h));
}

#[test]
fn decode_rejects_short_streams() {
    assert_eq!(decode_header(&[]), Err(CompressionError::EncodingError));
    assert_eq!(
        decode_header(&[0u8; 23]),
        Err(CompressionError::EncodingError)
    );
}
