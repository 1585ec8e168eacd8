//! Wire-format tests for values, bindings, versions and time ticks.

use snmp::{DecodeError, ObjectIdentifier, TimeTicks, Value, VarBinding, Version};

fn oid(arcs: Vec<u32>) -> ObjectIdentifier {
    ObjectIdentifier::new(arcs).unwrap()
}

#[test]
fn encode_null() {
    let v = Value::Null;
    let b: &[u8] = &[5, 0];
    let e = v.encode();
    assert_eq!(e, b);

    let d = Value::decode(b).unwrap();
    assert_eq!(d, v);
}

#[test]
fn encode_oid() {
    let v = Value::Oid(oid(vec![1, 3, 6, 1, 2, 1]));
    let b: &[u8] = &[6, 5, 43, 6, 1, 2, 1];
    let e = v.encode();
    assert_eq!(e, b);

    let d = Value::decode(b).unwrap();
    assert_eq!(d, v);
}

#[test]
fn encode_integer() {
    let v = Value::Integer(5);
    let r = v.encode();
    assert_eq!(r, &[2, 1, 5]);

    // Ip Address
    let v = Value::IpAddr(10, 0, 0, 1);
    let r = v.encode();
    assert_eq!(r, &[64, 4, 1, 0, 0, 10]);

    // Gauge32
    let v = Value::Gauge32(128);
    let r = v.encode();
    assert_eq!(r, &[66, 2, 0, 128]);

    // Counter32
    let v = Value::Counter32(1);
    let r = v.encode();
    assert_eq!(r, &[65, 1, 1]);

    // Counter64
    let v = Value::Counter64(1_u64 << 32);
    let r = v.encode();
    assert_eq!(r, &[70, 5, 1, 0, 0, 0, 0]);

    // TimeTicks
    let v = Value::Timeticks(TimeTicks::new(1234));
    let r = v.encode();
    assert_eq!(r, &[67, 2, 4, 210]);

    // OctetString
    let v = Value::OctetStr(vec![3, 4, 5]);
    let r = v.encode();
    assert_eq!(r, &[4, 3, 3, 4, 5]);

    // Opaque
    let v = Value::Opaque(vec![3, 4, 5]);
    let r = v.encode();
    assert_eq!(r, &[68, 3, 3, 4, 5]);

    // NoSuchObject
    let v = Value::NoSuchObject;
    let r = v.encode();
    assert_eq!(r, &[128, 0]);

    // NoSuchInstance
    let v = Value::NoSuchInstance;
    let r = v.encode();
    assert_eq!(r, &[129, 0]);

    // EndOfMIBView
    let v = Value::EndOfMIBView;
    let r = v.encode();
    assert_eq!(r, &[130, 0]);
}

#[test]
fn encode_version() {
    let v = Version::V2C;
    let r = v.encode();
    assert_eq!(r, &[2, 1, 1])
}

#[test]
fn encode_timeticks() {
    let v = TimeTicks::new(12);
    let r = v.encode();
    assert_eq!(r, &[67, 1, 12])
}

#[test]
fn encode_binding() {
    let v = VarBinding {
        name: oid(vec![1, 2, 3, 4]),
        value: Value::Null,
    };
    let r = v.encode();
    assert_eq!(r, &[48, 7, 6, 3, 42, 3, 4, 5, 0])
}

#[test]
fn value_round_trip_every_variant() {
    let values = vec![
        Value::Null,
        Value::Oid(oid(vec![1, 3, 6, 1, 4, 1, 99999, 7])),
        Value::Integer(5),
        Value::Integer(0),
        Value::Integer(-1),
        Value::Integer(-300),
        Value::Integer(i32::MIN),
        Value::Integer(i32::MAX),
        Value::IpAddr(10, 0, 0, 1),
        Value::Gauge32(128),
        Value::Gauge32(u32::MAX),
        Value::Counter32(1),
        Value::Counter32(0),
        Value::Counter64(1_u64 << 32),
        Value::Counter64(u64::MAX),
        Value::Timeticks(TimeTicks::new(1234)),
        Value::OctetStr(vec![3, 4, 5]),
        Value::OctetStr(vec![]),
        Value::Opaque(vec![3, 4, 5]),
        Value::NoSuchObject,
        Value::NoSuchInstance,
        Value::EndOfMIBView,
    ];
    for v in values {
        let bytes = v.encode();
        let back = Value::decode(&bytes).expect("round trip decodes");
        assert_eq!(back, v);
    }
}

#[test]
fn long_octet_string_uses_long_form_length() {
    let payload: Vec<u8> = (0..200u16).map(|i| (i % 256) as u8).collect();
    let v = Value::OctetStr(payload.clone());
    let bytes = v.encode();
    assert_eq!(bytes[0], 4);
    assert_eq!(bytes[1], 0x81);
    assert_eq!(bytes[2], 200);
    assert_eq!(&bytes[3..], &payload[..]);
    let back = Value::decode(&bytes).unwrap();
    assert_eq!(back, v);
}

#[test]
fn sentinels_decode_to_their_own_variants() {
    assert_eq!(Value::decode(&[128, 0]).unwrap(), Value::NoSuchObject);
    assert_eq!(Value::decode(&[129, 0]).unwrap(), Value::NoSuchInstance);
    assert_eq!(Value::decode(&[130, 0]).unwrap(), Value::EndOfMIBView);
}

#[test]
fn unknown_tag_is_a_hard_failure() {
    assert_eq!(Value::decode(&[7, 0]), Err(DecodeError::UnexpectedTag));
    assert_eq!(Value::decode(&[31, 1, 0]), Err(DecodeError::UnexpectedTag));
}

#[test]
fn ip_address_must_be_four_bytes() {
    assert_eq!(
        Value::decode(&[64, 3, 1, 2, 3]),
        Err(DecodeError::InvalidLength)
    );
    assert_eq!(
        Value::decode(&[64, 5, 1, 2, 3, 4, 5]),
        Err(DecodeError::InvalidLength)
    );
}

#[test]
fn truncated_input_is_a_hard_failure() {
    assert_eq!(Value::decode(&[]), Err(DecodeError::Truncated));
    assert_eq!(Value::decode(&[2]), Err(DecodeError::Truncated));
    assert_eq!(Value::decode(&[2, 5, 1]), Err(DecodeError::Truncated));
}

#[test]
fn trailing_bytes_are_a_hard_failure() {
    assert_eq!(
        Value::decode(&[5, 0, 0]),
        Err(DecodeError::InvalidLength)
    );
}

#[test]
fn indefinite_length_is_rejected() {
    assert_eq!(
        Value::decode(&[4, 0x80, 0, 0]),
        Err(DecodeError::InvalidLength)
    );
}

#[test]
fn counter_content_must_fit_its_type() {
    // Five content bytes whose value exceeds 32 bits.
    assert_eq!(
        Value::decode(&[65, 5, 1, 0, 0, 0, 0]),
        Err(DecodeError::InvalidLength)
    );
    // An empty integer content field.
    assert_eq!(Value::decode(&[2, 0]), Err(DecodeError::InvalidLength));
}

#[test]
fn object_identifier_rejects_invalid_arcs() {
    assert!(ObjectIdentifier::new(vec![]).is_none());
    assert!(ObjectIdentifier::new(vec![1]).is_none());
    assert!(ObjectIdentifier::new(vec![3, 1]).is_none());
    assert!(ObjectIdentifier::new(vec![1, 40]).is_none());
    assert!(ObjectIdentifier::new(vec![1, 39]).is_some());
    assert!(ObjectIdentifier::new(vec![2, 200]).is_some());
}

#[test]
fn large_arcs_round_trip() {
    let v = Value::Oid(oid(vec![2, 999, u32::MAX, 0, 128]));
    let bytes = v.encode();
    let back = Value::decode(&bytes).unwrap();
    assert_eq!(back, v);
}

#[test]
fn version_decode_rejects_out_of_range() {
    assert_eq!(Version::parse(&[2, 1, 0]).unwrap().0, Version::V1);
    assert_eq!(Version::parse(&[2, 1, 1]).unwrap().0, Version::V2C);
    assert_eq!(Version::parse(&[2, 1, 2]).unwrap().0, Version::V3);
    assert_eq!(Version::parse(&[2, 1, 3]), Err(DecodeError::InvalidVersion));
    assert_eq!(
        Version::parse(&[2, 1, 255]),
        Err(DecodeError::InvalidVersion)
    );
}

#[test]
fn timeticks_decompose_matches_display_arithmetic() {
    let t = TimeTicks::new(2 * 8640000 + 3 * 360000 + 4 * 6000 + 5 * 100 + 6);
    assert_eq!(t.decompose(), (2, 3, 4, 5, 6));
    assert_eq!(TimeTicks::new(0).decompose(), (0, 0, 0, 0, 0));
}

#[test]
fn timeticks_from_millis_truncates_to_centiseconds() {
    assert_eq!(TimeTicks::from_millis(12345).ticks(), 1234);
    assert_eq!(TimeTicks::from_millis(0).ticks(), 0);
    // Wraps at 2^32 centiseconds.
    let wrapped = TimeTicks::from_millis((0x1_0000_0000u128 + 7) * 10);
    assert_eq!(wrapped.ticks(), 7);
}
