//! The encodings, held against those of the serializer they follow.
use granary::facet::decode_payload;
use granary::ordmap::OrdMap;
use granary::text::push_decimal;
use granary::text::push_hex;
use granary::text::push_padded;
use granary::wire::from_bytes;
use granary::wire::to_bytes;
use std::collections::BTreeMap;

#[test]
fn integers_encode_as_varints() {
    for n in [0u64, 1, 127, 128, 300, 16383, 16384, u32::MAX as u64, u64::MAX - 1, u64::MAX] {
        let bytes = to_bytes(&n);
        assert_eq!(bytes, postcard::to_allocvec(&n).unwrap(), "{n}");
        assert_eq!(from_bytes::<u64>(&bytes), Ok(n));
    }
    for n in [0u32, 200, u32::MAX] {
        assert_eq!(to_bytes(&n), postcard::to_allocvec(&n).unwrap());
        assert_eq!(from_bytes::<u32>(&to_bytes(&n)), Ok(n));
    }
    for n in [0u16, 200, u16::MAX] {
        assert_eq!(to_bytes(&n), postcard::to_allocvec(&n).unwrap());
        assert_eq!(from_bytes::<u16>(&to_bytes(&n)), Ok(n));
    }
    assert_eq!(to_bytes(&7u8), vec![7]);
    assert_eq!(to_bytes(&true), vec![1]);
}

#[test]
fn texts_bytes_and_maps_encode_with_their_lengths() {
    let text = String::from("grün");
    assert_eq!(to_bytes(&text), postcard::to_allocvec(&text).unwrap());
    assert_eq!(from_bytes::<String>(&to_bytes(&text)), Ok(text));
    let bytes = vec![1u8; 200];
    assert_eq!(to_bytes(&bytes), postcard::to_allocvec(&bytes).unwrap());
    assert_eq!(from_bytes::<Vec<u8>>(&to_bytes(&bytes)), Ok(bytes));
    let mut ours: OrdMap<u16, Vec<u8>> = OrdMap::new();
    let mut theirs = BTreeMap::new();
    for k in [9u16, 300, 1] {
        ours.insert(k, vec![k as u8]);
        theirs.insert(k, vec![k as u8]);
    }
    assert_eq!(to_bytes(&ours), postcard::to_allocvec(&theirs).unwrap());
    assert_eq!(from_bytes::<OrdMap<u16, Vec<u8>>>(&to_bytes(&ours)), Ok(ours));
}

#[test]
fn what_cannot_be_decoded_is_refused() {
    assert!(from_bytes::<u64>(&[]).is_err());
    assert!(from_bytes::<u64>(&[0x80]).is_err());
    assert!(from_bytes::<u64>(&[0xFF; 10]).is_err());
    assert!(from_bytes::<u32>(&[0xFF, 0xFF, 0xFF, 0xFF, 0x7F]).is_err());
    assert!(from_bytes::<String>(&[2, 0xC3, 0x28]).is_err(), "not UTF-8");
    assert!(from_bytes::<Vec<u8>>(&[5, 1]).is_err());
    assert!(from_bytes::<bool>(&[2]).is_err());
}

#[test]
fn a_failure_is_described_as_the_serializer_does() {
    let cases: [(Vec<u8>, String); 3] = [
        (vec![], postcard::from_bytes::<u64>(&[]).unwrap_err().to_string()),
        (vec![0xFF; 10], postcard::from_bytes::<u64>(&[0xFF; 10]).unwrap_err().to_string()),
        (vec![0xFF; 11], postcard::from_bytes::<u64>(&[0xFF; 11]).unwrap_err().to_string()),
    ];
    for (bytes, theirs) in cases {
        let ours = decode_payload::<u64>("n", &bytes).unwrap_err();
        assert_eq!(ours.0, format!("n: {theirs}"));
    }
    let bad = [2u8, 0xC3, 0x28];
    assert_eq!(
        decode_payload::<String>("s", &bad).unwrap_err().0,
        format!("s: {}", postcard::from_bytes::<String>(&bad).unwrap_err())
    );
    assert_eq!(
        decode_payload::<bool>("b", &[2]).unwrap_err().0,
        format!("b: {}", postcard::from_bytes::<bool>(&[2]).unwrap_err())
    );
}

#[test]
fn numbers_are_written_in_digits() {
    let mut out = String::from("n=");
    push_decimal(&mut out, 0);
    push_decimal(&mut out, 18446744073709551615);
    push_padded(&mut out, 42, 6);
    push_hex(&mut out, &[0x0F, 0xA0]);
    assert_eq!(out, "n=0184467440737095516150000420fa0");
}
