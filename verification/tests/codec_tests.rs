use bincodec::codec::{Decode, Encode};
use bincodec::config::Configuration;
use bincodec::error::DecodeError;
use bincodec::fixed::{fixed_from_vec, FixedArr};
use bincodec::{borrow_decode_from_slice, decode_from_slice, encode_to_vec};

fn configs() -> Vec<Configuration> {
    let std_cfg = Configuration::standard();
    vec![
        std_cfg,
        std_cfg.with_big_endian(),
        std_cfg.with_variable_int_encoding(),
        std_cfg.with_variable_int_encoding().with_big_endian(),
    ]
}

fn round_trip<T>(v: T, c: Configuration) -> T
where
    T: Encode + Decode + PartialEq + std::fmt::Debug,
{
    let bytes = encode_to_vec(&v, c).unwrap();
    let back: T = decode_from_slice(&bytes, c)
        .unwrap_or_else(|e| panic!("decode failed: {:?} on {} input bytes for {:?}", e, bytes.len(), v));
    assert_eq!(back, v);
    back
}

#[test]
fn round_trip_integers() {
    for c in configs() {
        round_trip(0u8, c);
        round_trip(255u8, c);
        round_trip(0u32, c);
        round_trip(250u32, c);
        round_trip(251u32, c);
        round_trip(u32::MAX, c);
        round_trip(0u64, c);
        round_trip(65535u64, c);
        round_trip(65536u64, c);
        round_trip(u64::MAX, c);
        round_trip(true, c);
        round_trip(false, c);
    }
}

#[test]
fn round_trip_strings_and_containers() {
    // Container element values are chosen so that each level's
    // claimed-bytes reservation (element count times in-memory
    // footprint) fits inside the budget the input's own length grants:
    // the decoder refuses streams whose reservation outruns the input.
    for c in configs() {
        round_trip(String::new(), c);
        round_trip(String::from("hello"), c);
        round_trip(String::from("héllo wörld ✓"), c);
        round_trip(Vec::<u64>::new(), c);
        round_trip(vec![u64::MAX; 4], c);
        round_trip(
            vec![
                String::from("a string of twenty-nine bytes"),
                String::from("another string of such width"),
            ],
            c,
        );
        round_trip(
            vec![vec![u32::MAX; 6], vec![u32::MAX - 1; 6]],
            c,
        );
        round_trip((7u32, String::from("seven")), c);
        round_trip((true, 99u64), c);
    }
    let fixed_cfgs = [Configuration::standard(), Configuration::standard().with_big_endian()];
    for c in fixed_cfgs {
        round_trip(vec![1u64, 2, 3, u64::MAX], c);
    }
}

#[test]
fn round_trip_fixed_array() {
    let fixed_cfgs = [Configuration::standard(), Configuration::standard().with_big_endian()];
    for c in fixed_cfgs {
        let arr: FixedArr<u64, 3> = fixed_from_vec(vec![10u64, 20, 30]).unwrap();
        let bytes = encode_to_vec(&arr, c).unwrap();
        let back: FixedArr<u64, 3> = decode_from_slice(&bytes, c).unwrap();
        assert_eq!(back, arr);
    }
    // Under the variable-length encoding the elements must be wide
    // enough on the wire to cover the array's reservation.
    for c in configs() {
        let arr: FixedArr<u64, 3> = fixed_from_vec(vec![u64::MAX; 3]).unwrap();
        let bytes = encode_to_vec(&arr, c).unwrap();
        let back: FixedArr<u64, 3> = decode_from_slice(&bytes, c).unwrap();
        assert_eq!(back, arr);
    }
}

#[test]
fn encoding_is_deterministic() {
    for c in configs() {
        let v = vec![String::from("same"), String::from("bytes")];
        let b1 = encode_to_vec(&v, c).unwrap();
        let b2 = encode_to_vec(&v, c).unwrap();
        assert_eq!(b1, b2);
    }
}

#[test]
fn truncation_never_yields_a_value() {
    for c in configs() {
        let v = (vec![1u64, 2, 3], String::from("tail"));
        let bytes = encode_to_vec(&v, c).unwrap();
        for k in 0..bytes.len() {
            let r: Result<(Vec<u64>, String), DecodeError> = decode_from_slice(&bytes[..k], c);
            assert!(r.is_err());
        }
    }
}

#[test]
fn truncated_primitive_is_unexpected_end() {
    let c = Configuration::standard();
    let bytes = encode_to_vec(&0xDEADBEEFu32, c).unwrap();
    assert_eq!(bytes.len(), 4);
    for k in 0..4 {
        let r: Result<u32, DecodeError> = decode_from_slice(&bytes[..k], c);
        assert_eq!(r.unwrap_err(), DecodeError::UnexpectedEnd);
    }
    let r: Result<u8, DecodeError> = decode_from_slice(&[], c);
    assert_eq!(r.unwrap_err(), DecodeError::UnexpectedEnd);
}

#[test]
fn truncated_string_is_unexpected_end() {
    let c = Configuration::standard();
    let bytes = encode_to_vec(&String::from("budget"), c).unwrap();
    for k in 0..bytes.len() {
        let r: Result<String, DecodeError> = decode_from_slice(&bytes[..k], c);
        assert_eq!(r.unwrap_err(), DecodeError::UnexpectedEnd);
    }
}

#[test]
fn huge_declared_length_is_limit_exceeded() {
    let c = Configuration::standard();
    // A sequence declaring one thousand u64 elements, with no element
    // bytes at all: the claim must fail before any allocation.
    let mut bytes = 1000u64.to_le_bytes().to_vec();
    bytes.push(0);
    let r: Result<Vec<u64>, DecodeError> = decode_from_slice(&bytes, c);
    assert_eq!(r.unwrap_err(), DecodeError::LimitExceeded);
}

#[test]
fn configured_limit_bounds_the_budget() {
    let c = Configuration::standard().with_limit(2);
    let v = vec![1u8, 2, 3, 4, 5, 6, 7, 8, 9, 10];
    let bytes = encode_to_vec(&v, Configuration::standard()).unwrap();
    let r: Result<Vec<u8>, DecodeError> = decode_from_slice(&bytes, c);
    assert_eq!(r.unwrap_err(), DecodeError::LimitExceeded);
    // Without the cap the same bytes decode fine.
    let ok: Vec<u8> = decode_from_slice(&bytes, Configuration::standard()).unwrap();
    assert_eq!(ok, v);
}

#[test]
fn nested_claims_are_refunded() {
    // Each inner sequence's reservation is unclaimed as its elements
    // arrive, so deeply nested containers fit in the budget that a
    // single level would need.
    let c = Configuration::standard();
    let v: Vec<Vec<u64>> = vec![vec![1, 2, 3], vec![4, 5], vec![6, 7, 8, 9]];
    let bytes = encode_to_vec(&v, c).unwrap();
    let back: Vec<Vec<u64>> = decode_from_slice(&bytes, c).unwrap();
    assert_eq!(back, v);
}

#[test]
fn fixed_array_arity_mismatch() {
    let c = Configuration::standard();
    // A borrow-path stream declaring five elements for a three-element
    // array: rejected before any element work, with both counts named.
    let mut bytes = 5u64.to_le_bytes().to_vec();
    bytes.extend_from_slice(&[1, 2, 3, 4, 5]);
    let r: Result<FixedArr<u8, 3>, DecodeError> = borrow_decode_from_slice(&bytes, c);
    assert_eq!(
        r.unwrap_err(),
        DecodeError::ArrayLengthMismatch { required: 3, found: 5 }
    );
}

#[test]
fn fixed_array_reservation_beyond_budget_is_limit_exceeded() {
    let c = Configuration::standard();
    // The declared length equals the arity, but three u64 elements
    // need a 24-byte reservation and the eleven-byte input grants only
    // an eleven-byte budget: refused by the claim, before any element.
    let mut bytes = 3u64.to_le_bytes().to_vec();
    bytes.extend_from_slice(&[1, 2, 3]);
    let r: Result<FixedArr<u64, 3>, DecodeError> = borrow_decode_from_slice(&bytes, c);
    assert_eq!(r.unwrap_err(), DecodeError::LimitExceeded);
}

#[test]
fn fixed_array_declared_right_but_short_is_unexpected_end() {
    let c = Configuration::standard();
    let mut bytes = 3u64.to_le_bytes().to_vec();
    bytes.extend_from_slice(&[1, 2]);
    let r: Result<FixedArr<u8, 3>, DecodeError> = borrow_decode_from_slice(&bytes, c);
    assert_eq!(r.unwrap_err(), DecodeError::UnexpectedEnd);
}

#[test]
fn fixed_from_vec_checks_arity() {
    let r: Result<FixedArr<u32, 4>, DecodeError> = fixed_from_vec(vec![1u32, 2]);
    assert_eq!(
        r.unwrap_err(),
        DecodeError::ArrayLengthMismatch { required: 4, found: 2 }
    );
    let ok: FixedArr<u32, 2> = fixed_from_vec(vec![1u32, 2]).unwrap();
    assert_eq!(ok.items(), &vec![1u32, 2]);
    assert_eq!(ok.arity(), 2);
}

#[test]
fn fixed_array_borrow_round_trip_via_sequence_bytes() {
    // The borrow path shares the sequence convention: the bytes of a
    // three-element sequence decode as a three-element fixed array.
    let c = Configuration::standard();
    let seq_bytes = encode_to_vec(&vec![7u64, 8, 9], c).unwrap();
    let arr: FixedArr<u64, 3> = borrow_decode_from_slice(&seq_bytes, c).unwrap();
    assert_eq!(arr.items(), &vec![7u64, 8, 9]);
}

#[test]
fn float_pair_sequence_concrete_bytes() {
    // Two points { x: f32, y: f32 } carried as their bit patterns,
    // inside a sequence of length two, fixed-width little-endian.
    let c = Configuration::standard();
    let pts = [(0.0f32, 4.0f32), (10.0f32, 20.5f32)];
    let v: Vec<(u32, u32)> = pts.iter().map(|p| (p.0.to_bits(), p.1.to_bits())).collect();
    let bytes = encode_to_vec(&v, c).unwrap();

    let mut expected = vec![0x02, 0, 0, 0, 0, 0, 0, 0];
    for p in &pts {
        expected.extend_from_slice(&p.0.to_bits().to_le_bytes());
        expected.extend_from_slice(&p.1.to_bits().to_le_bytes());
    }
    assert_eq!(bytes, expected);
    assert_eq!(bytes.len(), 24);
    assert_eq!(&bytes[..12], &[0x02, 0, 0, 0, 0, 0, 0, 0, 0, 0, 0, 0]);
    assert_eq!(&bytes[12..16], &[0x00, 0x00, 0x80, 0x40]);

    let back: Vec<(u32, u32)> = decode_from_slice(&bytes, c).unwrap();
    let back_pts: Vec<(f32, f32)> = back
        .iter()
        .map(|p| (f32::from_bits(p.0), f32::from_bits(p.1)))
        .collect();
    assert_eq!(back_pts, pts.to_vec());
}

#[test]
fn borrow_decoding_is_zero_copy() {
    let c = Configuration::standard();
    let owned = String::from("no copy made");
    let bytes = encode_to_vec(&owned, c).unwrap();
    // The decoded value is a &str borrowing from `bytes`: the borrow
    // checker ties its lifetime to the buffer, and no byte is copied.
    let s: &str = borrow_decode_from_slice(&bytes, c).unwrap();
    assert_eq!(s, "no copy made");
    let b: &[u8] = borrow_decode_from_slice(&bytes, c).unwrap();
    assert_eq!(b, "no copy made".as_bytes());
}

#[test]
fn borrow_decode_falls_back_for_owned_types() {
    let c = Configuration::standard();
    let v = vec![
        (1u64, String::from("the first of the pair values")),
        (2u64, String::from("the second of the pair values")),
    ];
    let bytes = encode_to_vec(&v, c).unwrap();
    let back: Vec<(u64, String)> = borrow_decode_from_slice(&bytes, c).unwrap();
    assert_eq!(back, v);
}

#[test]
fn varint_widths_are_canonical() {
    let c = Configuration::standard().with_variable_int_encoding();
    assert_eq!(encode_to_vec(&250u64, c).unwrap(), vec![250]);
    assert_eq!(encode_to_vec(&251u64, c).unwrap(), vec![251, 251, 0]);
    assert_eq!(encode_to_vec(&65535u64, c).unwrap(), vec![251, 255, 255]);
    assert_eq!(encode_to_vec(&65536u64, c).unwrap(), vec![252, 0, 0, 1, 0]);
    assert_eq!(
        encode_to_vec(&0x1_0000_0000u64, c).unwrap(),
        vec![253, 0, 0, 0, 0, 1, 0, 0, 0]
    );
    let cb = c.with_big_endian();
    assert_eq!(encode_to_vec(&251u64, cb).unwrap(), vec![251, 0, 251]);
}

#[test]
fn non_canonical_varint_is_rejected() {
    let c = Configuration::standard().with_variable_int_encoding();
    // 5 fits in a single byte; the two-byte form is not the encoding
    // of any value.
    let r: Result<u64, DecodeError> = decode_from_slice(&[251, 5, 0], c);
    assert_eq!(r.unwrap_err(), DecodeError::Other);
    // 254 and 255 are not markers this format uses.
    let r: Result<u64, DecodeError> = decode_from_slice(&[254, 0, 0], c);
    assert_eq!(r.unwrap_err(), DecodeError::Other);
}

#[test]
fn varint_too_wide_for_u32_is_rejected() {
    let c = Configuration::standard().with_variable_int_encoding();
    let bytes = encode_to_vec(&0x1_0000_0000u64, c).unwrap();
    let r: Result<u32, DecodeError> = decode_from_slice(&bytes, c);
    assert_eq!(r.unwrap_err(), DecodeError::Other);
}

#[test]
fn invalid_bool_byte_is_rejected() {
    let c = Configuration::standard();
    let r: Result<bool, DecodeError> = decode_from_slice(&[2], c);
    assert_eq!(r.unwrap_err(), DecodeError::Other);
}

#[test]
fn invalid_utf8_is_rejected() {
    let c = Configuration::standard();
    let mut bytes = 2u64.to_le_bytes().to_vec();
    bytes.extend_from_slice(&[0xFF, 0xFE]);
    let r: Result<String, DecodeError> = decode_from_slice(&bytes, c);
    assert_eq!(r.unwrap_err(), DecodeError::Utf8);
}

#[test]
fn big_endian_fixed_layout() {
    let c = Configuration::standard().with_big_endian();
    assert_eq!(
        encode_to_vec(&0x01020304u32, c).unwrap(),
        vec![1, 2, 3, 4]
    );
    assert_eq!(
        encode_to_vec(&0x0102030405060708u64, c).unwrap(),
        vec![1, 2, 3, 4, 5, 6, 7, 8]
    );
    let back: u32 = decode_from_slice(&[1, 2, 3, 4], c).unwrap();
    assert_eq!(back, 0x01020304);
}

#[test]
fn trailing_bytes_are_left_unread() {
    let c = Configuration::standard();
    let mut bytes = encode_to_vec(&7u32, c).unwrap();
    bytes.extend_from_slice(&[9, 9, 9]);
    let back: u32 = decode_from_slice(&bytes, c).unwrap();
    assert_eq!(back, 7);
}
