use resolution_core::condition::{DeserializationError, VersionCondition};

fn assert_ser(v: VersionCondition) {
    let ser = v.serialize();
    let (back, consumed) = VersionCondition::deserialize(&ser).unwrap();
    assert_eq!(back, v);
    assert_eq!(consumed, ser.len());
}

fn gt(v: u64) -> VersionCondition {
    VersionCondition::GreaterThan(v)
}

fn not(c: VersionCondition) -> VersionCondition {
    VersionCondition::Not(Box::new(c))
}

fn and(l: VersionCondition, r: VersionCondition) -> VersionCondition {
    VersionCondition::And(Box::new(l), Box::new(r))
}

#[test]
fn test_serialize() {
    assert_ser(VersionCondition::GreaterThan(456));
    assert_ser(VersionCondition::Not(Box::new(VersionCondition::GreaterThan(456))));
    assert_ser(VersionCondition::And(
        Box::new(VersionCondition::Not(Box::new(VersionCondition::GreaterThan(456)))),
        Box::new(VersionCondition::GreaterThan(65)),
    ));
}

#[test]
fn test_example_vectors() {
    assert_eq!(
        gt(456).serialize(),
        vec![0x02, 0x00, 0x00, 0x00, 0x00, 0x00, 0x00, 0x01, 0xC8]
    );
    assert_eq!(
        not(gt(456)).serialize(),
        vec![0x01, 0x02, 0x00, 0x00, 0x00, 0x00, 0x00, 0x00, 0x01, 0xC8]
    );
    assert_eq!(
        and(not(gt(456)), gt(65)).serialize(),
        vec![
            0x00, 0x01, 0x02, 0x00, 0x00, 0x00, 0x00, 0x00, 0x00, 0x01, 0xC8, 0x02, 0x00, 0x00,
            0x00, 0x00, 0x00, 0x00, 0x00, 0x41
        ]
    );
}

#[test]
fn test_deep_mixed_roundtrip() {
    let tree = and(
        not(and(not(gt(1)), gt(0xFF))),
        and(gt(u64::MAX), not(not(gt(0)))),
    );
    assert_ser(tree);
}

#[test]
fn test_unknown_tag() {
    for bad in [0x03u8, 0x10, 0x7F, 0xFF] {
        let r = VersionCondition::deserialize(&[bad, 0, 0, 0]);
        assert_eq!(r.unwrap_err(), DeserializationError::UnknownTag(bad));
    }
}

#[test]
fn test_empty_input() {
    let r = VersionCondition::deserialize(&[]);
    assert_eq!(r.unwrap_err(), DeserializationError::ShortRead);
}

#[test]
fn test_short_read() {
    let full = gt(456).serialize();
    assert_eq!(full.len(), 9);
    for cut in 1..9 {
        let r = VersionCondition::deserialize(&full[..cut]);
        assert_eq!(r.unwrap_err(), DeserializationError::ShortRead);
    }
    let nested = not(gt(7)).serialize();
    let r = VersionCondition::deserialize(&nested[..nested.len() - 1]);
    assert_eq!(r.unwrap_err(), DeserializationError::ShortRead);
}

#[test]
fn test_concatenation_no_slippage() {
    let a = and(not(gt(456)), gt(65));
    let b = gt(7);
    let mut bytes = a.serialize();
    let b_bytes = b.serialize();
    bytes.extend_from_slice(&b_bytes);
    let (first, consumed) = VersionCondition::deserialize(&bytes).unwrap();
    assert_eq!(first, a);
    assert_eq!(consumed, a.serialize().len());
    assert_eq!(&bytes[consumed..], b_bytes.as_slice());
    let (second, consumed2) = VersionCondition::deserialize(&bytes[consumed..]).unwrap();
    assert_eq!(second, b);
    assert_eq!(consumed2, b_bytes.len());
}

#[test]
fn test_deserialize_at_offset() {
    let a = not(gt(3));
    let mut bytes = vec![0xEEu8, 0xEE];
    bytes.extend_from_slice(&a.serialize());
    let (back, consumed) = VersionCondition::deserialize_at(&bytes, 2).unwrap();
    assert_eq!(back, a);
    assert_eq!(consumed, a.serialize().len());
}
