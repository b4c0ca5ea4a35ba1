use ahash::RandomState;
use heavykeeper::serialization::{
    ByteReader, CELL_SIZE, MAGIC, RNG_STATE_SIZE, SERIALIZE_HASHER_PROBE, VERSION,
};
use heavykeeper::DeserializeError;

fn probe_of(seed: u64) -> u64 {
    let probe: &[u8] = b"heavykeeper-serialize-hasher-probe";
    RandomState::with_seeds(seed, seed, seed, seed).hash_one(probe)
}

fn header(variant: u8, probe: u64) -> Vec<u8> {
    let mut bytes = b"HVYK".to_vec();
    bytes.push(variant);
    bytes.push(1);
    bytes.extend_from_slice(&probe.to_le_bytes());
    bytes
}

#[test]
fn constants() {
    assert_eq!(&MAGIC, b"HVYK");
    assert_eq!(VERSION, 1);
    assert_eq!(SERIALIZE_HASHER_PROBE.as_bytes(), b"heavykeeper-serialize-hasher-probe");
    assert_eq!(CELL_SIZE, 16);
    assert_eq!(RNG_STATE_SIZE, 32);
}

#[test]
fn reads_advance_the_cursor() {
    let bytes: Vec<u8> = (1..=20).collect();
    let mut reader = ByteReader::new(&bytes);
    assert_eq!(reader.take(2, "a").unwrap(), &[1, 2]);
    assert_eq!(reader.take(0, "b").unwrap(), &[] as &[u8]);
    assert_eq!(reader.take_array::<3>("c").unwrap(), [3, 4, 5]);
    assert_eq!(reader.take_u8("d").unwrap(), 6);
    assert_eq!(reader.take_u64("e").unwrap(), 0x0e0d0c0b0a090807);
    assert_eq!(reader.take(6, "f").unwrap(), &[15, 16, 17, 18, 19, 20]);
    assert!(reader.finish().is_ok());
}

#[test]
fn consecutive_reads_join() {
    let bytes: Vec<u8> = (0..9).collect();
    let mut whole = ByteReader::new(&bytes);
    let mut parts = ByteReader::new(&bytes);
    let mut joined = parts.take(4, "x").unwrap().to_vec();
    joined.extend_from_slice(parts.take(5, "y").unwrap());
    assert_eq!(whole.take(9, "z").unwrap(), &joined[..]);
}

#[test]
fn numbers_read_back() {
    for value in [0u64, 1, 255, 256, 0x0123456789abcdef, u32::MAX as u64, u64::MAX] {
        let bytes = value.to_le_bytes();
        assert_eq!(ByteReader::new(&bytes).take_u64("v").unwrap(), value);
        match usize::try_from(value) {
            Ok(narrow) => assert_eq!(ByteReader::new(&bytes).take_usize("v").unwrap(), narrow),
            Err(_) => assert!(matches!(
                ByteReader::new(&bytes).take_usize("v"),
                Err(DeserializeError::InvalidField { field: "v", .. })
            )),
        }
    }
}

#[test]
fn short_read_reports_what_is_left() {
    let bytes = [1u8, 2, 3];
    let mut reader = ByteReader::new(&bytes);
    reader.take_u8("first").unwrap();
    assert!(matches!(
        reader.take(4, "rest"),
        Err(DeserializeError::UnexpectedEof { field: "rest", needed: 4, actual: 2 })
    ));
    assert!(matches!(
        reader.take(usize::MAX, "rest"),
        Err(DeserializeError::UnexpectedEof { field: "rest", needed: usize::MAX, actual: 2 })
    ));
    assert!(matches!(
        reader.take_array::<5>("array"),
        Err(DeserializeError::UnexpectedEof { field: "array", needed: 5, actual: 2 })
    ));
    assert!(matches!(
        reader.take_u64("number"),
        Err(DeserializeError::UnexpectedEof { field: "number", needed: 8, actual: 2 })
    ));
    assert!(matches!(
        reader.take_usize("length"),
        Err(DeserializeError::UnexpectedEof { field: "length", needed: 8, actual: 2 })
    ));
    // A failed read leaves the cursor where it was.
    assert_eq!(reader.take(2, "rest").unwrap(), &[2, 3]);
    assert!(matches!(
        reader.take_u8("more"),
        Err(DeserializeError::UnexpectedEof { field: "more", needed: 1, actual: 0 })
    ));
}

#[test]
fn trailing_bytes_are_counted() {
    let bytes = [0u8; 5];
    let mut reader = ByteReader::new(&bytes);
    assert!(matches!(reader.finish(), Err(DeserializeError::TrailingBytes { count: 5 })));
    reader.take(3, "x").unwrap();
    assert!(matches!(reader.finish(), Err(DeserializeError::TrailingBytes { count: 2 })));
    reader.take(2, "x").unwrap();
    assert!(reader.finish().is_ok());
}

#[test]
fn written_header_is_accepted() {
    for seed in [0u64, 1, 42, u64::MAX] {
        let mut bytes = header(3, probe_of(seed));
        bytes.push(77);
        let mut reader = ByteReader::new(&bytes);
        assert!(reader.read_header(3, seed).is_ok());
        assert_eq!(reader.take_u8("next").unwrap(), 77);
        assert!(reader.finish().is_ok());
    }
}

#[test]
fn header_with_given_probe() {
    let bytes = header(2, 99);
    assert!(ByteReader::new(&bytes).read_header_with_probe(2, 99).is_ok());
    assert!(matches!(
        ByteReader::new(&bytes).read_header_with_probe(2, 98),
        Err(DeserializeError::HasherMismatch { expected: 99, actual: 98 })
    ));
}

#[test]
fn wrong_seed_is_rejected() {
    let bytes = header(1, probe_of(7));
    match ByteReader::new(&bytes).read_header(1, 8) {
        Err(DeserializeError::HasherMismatch { expected, actual }) => {
            assert_eq!(expected, probe_of(7));
            assert_eq!(actual, probe_of(8));
            assert_ne!(expected, actual);
        }
        other => panic!("{:?}", other),
    }
}

#[test]
fn foreign_bytes_are_rejected() {
    let mut bytes = header(1, probe_of(7));
    bytes[3] = b'X';
    match ByteReader::new(&bytes).read_header(1, 7) {
        Err(DeserializeError::BadMagic { expected, actual }) => {
            assert_eq!(&expected, b"HVYK");
            assert_eq!(&actual, b"HVYX");
        }
        other => panic!("{:?}", other),
    }
}

#[test]
fn other_variant_is_rejected() {
    let bytes = header(1, probe_of(7));
    assert!(matches!(
        ByteReader::new(&bytes).read_header(2, 7),
        Err(DeserializeError::WrongVariant { expected: 2, actual: 1 })
    ));
    // The variant is checked before the probe.
    assert!(matches!(
        ByteReader::new(&bytes).read_header(2, 8),
        Err(DeserializeError::WrongVariant { expected: 2, actual: 1 })
    ));
}

#[test]
fn other_version_is_rejected() {
    let mut bytes = header(1, probe_of(7));
    bytes[5] = 2;
    assert!(matches!(
        ByteReader::new(&bytes).read_header(1, 7),
        Err(DeserializeError::UnsupportedVersion { version: 2, expected: 1 })
    ));
}

#[test]
fn truncated_header_is_reported_by_field() {
    let bytes = header(1, probe_of(7));
    for len in 0..14usize {
        let (name, start, size) = match len {
            0..=3 => ("magic", 0, 4),
            4 => ("variant", 4, 1),
            5 => ("version", 5, 1),
            _ => ("hasher_probe", 6, 8),
        };
        match ByteReader::new(&bytes[..len]).read_header(1, 7) {
            Err(DeserializeError::UnexpectedEof { field, needed, actual }) => {
                assert_eq!(field, name);
                assert_eq!(needed, size);
                assert_eq!(actual, len - start);
            }
            other => panic!("{:?}", other),
        }
    }
}

#[test]
fn messages() {
    assert_eq!(
        DeserializeError::UnexpectedEof { field: "cells", needed: 16, actual: 3 }.message(),
        "Byte stream too short while reading cells: need 16 more byte(s), have 3"
    );
    assert_eq!(
        DeserializeError::BadMagic { expected: *b"HVYK", actual: [0, 1, 0xab, 0xff] }.message(),
        "Not a heavykeeper sketch: bad magic bytes [00, 01, ab, ff] (expected [48, 56, 59, 4b])"
    );
    assert_eq!(
        DeserializeError::WrongVariant { expected: 1, actual: 255 }.message(),
        "Payload is a different sketch variant: got tag 255 (expected 1)"
    );
    assert_eq!(
        DeserializeError::HasherMismatch { expected: u64::MAX, actual: 0 }.message(),
        "Hasher mismatch: seed produces probe 0 but payload holds 18446744073709551615 (wrong seed passed to from_bytes)"
    );
    assert_eq!(
        DeserializeError::UnsupportedVersion { version: 10, expected: 1 }.message(),
        "Unsupported serialization version 10 (this build expects 1)"
    );
    assert_eq!(
        DeserializeError::InvalidField { field: "width", detail: String::from("must be > 0") }.message(),
        "Invalid width value: must be > 0"
    );
    assert_eq!(
        DeserializeError::LengthMismatch { field: "rows", actual: 100, expected: 99 }.message(),
        "Length mismatch for rows: payload holds 100 but expected 99"
    );
    assert_eq!(
        DeserializeError::TrailingBytes { count: 907 }.message(),
        "907 unexpected trailing byte(s) after the sketch payload"
    );
}
