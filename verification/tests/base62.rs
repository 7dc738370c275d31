use uuid_base62::base62_decode;
use uuid_base62::base62_encode;
use uuid_base62::bytes::value_from_be_bytes;
use uuid_base62::bytes::value_to_be_bytes;
use uuid_base62::codec::decode;
use uuid_base62::codec::encode;
use uuid_base62::codec::encode_bytes;
use uuid_base62::error::Base62Error;

const ALPHABET: &str = "0123456789ABCDEFGHIJKLMNOPQRSTUVWXYZabcdefghijklmnopqrstuvwxyz";

#[test]
fn test_base62_encode_known_uuid() {
    // the raw bytes of UUID 0199a3dc-8bdf-7126-a3cf-cc8b933e852a
    let bytes: Vec<u8> = vec![1, 153, 163, 220, 139, 223, 113, 38, 163, 207, 204, 139, 147, 62, 133, 42];

    let result = base62_encode(&bytes);
    assert!(result.is_ok(), "Expected encode without error");
    let output = result.unwrap();

    assert!(!output.is_empty(), "Expected output string to be non-empty");
    assert!(
        matches!(output.len(), 21 | 22),
        "Unexpected encoded length: {}",
        output.len()
    );

    for c in output.chars() {
        assert!(ALPHABET.contains(c), "Invalid base62 character: {}", c);
    }
}

#[test]
fn test_base62_encode_decode_roundtrip() {
    // the raw bytes of UUID 0199a3dc-8bee-73f5-b998-c96cfee3d2df
    let bytes: Vec<u8> = vec![1, 153, 163, 220, 139, 238, 115, 245, 185, 152, 201, 108, 254, 227, 210, 223];

    let encode_result = base62_encode(&bytes);
    assert!(encode_result.is_ok());

    let output = encode_result.unwrap();

    let decode_result = base62_decode(&output);
    assert!(decode_result.is_ok(), "Expected decode without error");

    let decoded = decode_result.unwrap();
    assert_eq!(decoded, bytes, "Expected UUID bytes to be same");
}

#[test]
fn test_base62_encode_null_uuid() {
    let bytes: Vec<u8> = vec![0; 16];

    let result = base62_encode(&bytes);
    assert!(result.is_ok());

    let output = result.unwrap();
    assert!(!output.is_empty());
    assert_eq!(output, "0");
}

#[test]
fn test_base62_known_pairs_roundtrip() {
    let cases: [(&[u8; 16], &str); 3] = [
        (
            // UUID 0199a419-e48c-7107-933d-2ae94df8eadc
            &[1, 153, 164, 25, 228, 140, 113, 7, 147, 61, 42, 233, 77, 248, 234, 220],
            "31CnfRQGzIq5PTVq2bs1E",
        ),
        (
            // UUID 0199a419-e482-7e85-838e-40ca7f5ac9d3
            &[1, 153, 164, 25, 228, 130, 126, 133, 131, 142, 64, 202, 127, 90, 201, 211],
            "31CnfRPIrur4cvcySLF47",
        ),
        (
            // UUID 0199a419-e46e-7199-90a4-fe4dc6efc5ad
            &[1, 153, 164, 25, 228, 110, 113, 153, 144, 164, 254, 77, 198, 239, 197, 173],
            "31CnfRNLgjQ2SJ9rPi8DN",
        ),
    ];

    for (uuid_bytes, expected_base62) in cases {
        let encoded = base62_encode(uuid_bytes.as_slice()).expect("encode succeeds");
        assert_eq!(encoded, expected_base62, "unexpected base62 string");

        let decoded_from_encoded = base62_decode(&encoded).expect("decode roundtrip succeeds");
        assert_eq!(decoded_from_encoded, uuid_bytes.to_vec(), "unexpected mismatch");

        let decoded_from_expected =
            base62_decode(expected_base62).expect("decode expected succeeds");
        assert_eq!(
            decoded_from_expected,
            uuid_bytes.to_vec(),
            "expected string did not decode to original UUID"
        );
    }
}

#[test]
fn test_encode_zero_is_single_zero_digit() {
    assert_eq!(encode(0), "0");
    assert_eq!(decode("0"), Ok(0));
}

#[test]
fn test_encode_max_value() {
    let s = encode(u128::MAX);
    assert_eq!(s.len(), 22);
    assert_eq!(s, "7n42DGM5Tflk9n8mt7Fhc7");
    assert_eq!(decode(&s), Ok(u128::MAX));
}

#[test]
fn test_encode_small_values() {
    assert_eq!(encode(1), "1");
    assert_eq!(encode(9), "9");
    assert_eq!(encode(10), "A");
    assert_eq!(encode(35), "Z");
    assert_eq!(encode(36), "a");
    assert_eq!(encode(61), "z");
    assert_eq!(encode(62), "10");
    assert_eq!(encode(62 * 62), "100");
    assert_eq!(encode(12345), "3D7");
}

#[test]
fn test_decode_rejects_invalid_character() {
    assert_eq!(decode("31Cnf RQGz"), Err(Base62Error::DecodeError));
    assert_eq!(decode("abc!"), Err(Base62Error::DecodeError));
    assert_eq!(decode("-1"), Err(Base62Error::DecodeError));
    assert_eq!(decode("péz"), Err(Base62Error::DecodeError));
    assert_eq!(base62_decode("not*valid"), Err(Base62Error::DecodeError));
}

#[test]
fn test_decode_rejects_empty_string() {
    assert_eq!(decode(""), Err(Base62Error::DecodeError));
    assert_eq!(base62_decode(""), Err(Base62Error::DecodeError));
}

#[test]
fn test_decode_rejects_overflow() {
    // 23 copies of the highest-value digit: far beyond 2^128 - 1
    let s = "z".repeat(23);
    assert_eq!(decode(&s), Err(Base62Error::DecodeError));

    // one past the largest value: the 22-digit canonical form of 2^128 - 1
    // with its last digit raised by one
    assert_eq!(decode("7n42DGM5Tflk9n8mt7Fhc8"), Err(Base62Error::DecodeError));
}

#[test]
fn test_decode_accepts_leading_zero_digits() {
    // non-canonical spellings decode, but re-encode to the canonical form
    assert_eq!(decode("00"), Ok(0));
    assert_eq!(decode("0z"), Ok(61));
    assert_eq!(decode("0031CnfRQGzIq5PTVq2bs1E"), decode("31CnfRQGzIq5PTVq2bs1E"));
    assert_eq!(encode(decode("0z").unwrap()), "z");
    // a 23-character alphabet-only string need not overflow
    let s = format!("{}z", "0".repeat(22));
    assert_eq!(decode(&s), Ok(61));
}

#[test]
fn test_value_from_be_bytes_rejects_wrong_length() {
    let short: Vec<u8> = vec![0xAB; 15];
    let long: Vec<u8> = vec![0xCD; 17];
    assert_eq!(value_from_be_bytes(&short), Err(Base62Error::InvalidInput));
    assert_eq!(value_from_be_bytes(&long), Err(Base62Error::InvalidInput));
    assert_eq!(value_from_be_bytes(&[]), Err(Base62Error::InvalidInput));
    assert_eq!(base62_encode(&short), Err(Base62Error::InvalidInput));
    assert_eq!(base62_encode(&long), Err(Base62Error::InvalidInput));
}

#[test]
fn test_byte_adapters_roundtrip() {
    let bytes: Vec<u8> = (1..=16).collect();
    let v = value_from_be_bytes(&bytes).unwrap();
    assert_eq!(v, 0x0102030405060708090a0b0c0d0e0f10u128);
    assert_eq!(value_to_be_bytes(v), bytes);

    assert_eq!(value_from_be_bytes(&vec![0u8; 16]), Ok(0));
    assert_eq!(value_to_be_bytes(u128::MAX), vec![0xFFu8; 16]);
}

#[test]
fn test_encode_bytes_writes_prefix() {
    let mut buf: Vec<u8> = vec![b'.'; 22];
    let n = encode_bytes(12345, &mut buf).expect("buffer is large enough");
    assert_eq!(n, 3);
    assert_eq!(&buf[..3], b"3D7");
    assert_eq!(&buf[3..], ".".repeat(19).as_bytes());
    assert_eq!(buf.len(), 22);
}

#[test]
fn test_encode_bytes_rejects_small_buffer() {
    let mut buf: Vec<u8> = vec![0u8; 2];
    let r = encode_bytes(12345, &mut buf);
    assert_eq!(r, Err(Base62Error::EncodeError));
    assert_eq!(buf, vec![0u8, 0u8], "a failed encode writes nothing");

    let mut exact: Vec<u8> = vec![0u8; 3];
    assert_eq!(encode_bytes(12345, &mut exact), Ok(3));
    assert_eq!(exact, b"3D7".to_vec());
}

#[test]
fn test_error_messages() {
    assert_eq!(Base62Error::InvalidInput.message(), "unexpected input length");
    assert_eq!(Base62Error::EncodeError.message(), "error encoding value");
    assert_eq!(Base62Error::DecodeError.message(), "error decoding value");
}

#[test]
fn test_roundtrip_many_values() {
    let values: [u128; 9] = [
        0,
        1,
        61,
        62,
        3843,
        3844,
        u128::from(u64::MAX),
        u128::MAX - 1,
        u128::MAX,
    ];
    for v in values {
        let s = encode(v);
        assert_eq!(decode(&s), Ok(v), "roundtrip failed for {}", v);
        // canonical strings re-encode to themselves
        assert_eq!(encode(decode(&s).unwrap()), s);
    }
}
