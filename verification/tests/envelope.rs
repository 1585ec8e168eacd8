//! Wire-format tests for PDUs and messages.

use snmp::{DecodeError, Message, ObjectIdentifier, Pdu, PduTag, Value, VarBinding, Version};

fn oid(arcs: Vec<u32>) -> ObjectIdentifier {
    ObjectIdentifier::new(arcs).unwrap()
}

#[test]
fn encode_pdu() {
    let v = Pdu::new(PduTag::GetRequest, 0);
    let r = v.encode();
    assert_eq!(r, &[160, 11, 2, 1, 0, 2, 1, 0, 2, 1, 0, 48, 0])
}

#[test]
fn encode_pdu_with_null_bindings() {
    let oids = vec![oid(vec![1, 2, 3])];
    let v = Pdu::new(PduTag::GetRequest, 0).with_null_bindings(&oids);
    let r = v.encode();
    assert_eq!(
        r,
        &[160, 19, 2, 1, 0, 2, 1, 0, 2, 1, 0, 48, 8, 48, 6, 6, 2, 42, 3, 5, 0]
    )
}

#[test]
fn encode_pdu_with_bindings() {
    let vb = VarBinding::new(oid(vec![1, 2, 3]), Value::Integer(5));
    let vbs = vec![vb];
    let v = Pdu::new(PduTag::GetRequest, 0).with_bindings(&vbs);
    let r = v.encode();
    assert_eq!(
        r,
        &[160, 20, 2, 1, 0, 2, 1, 0, 2, 1, 0, 48, 9, 48, 7, 6, 2, 42, 3, 2, 1, 5]
    )
}

#[test]
fn encode_message() {
    let pdu = Pdu::new(PduTag::GetNextRequest, 1);
    let msg = Message::new(Version::V3, "public", pdu);
    let r = msg.encode();
    assert_eq!(
        r,
        &[
            48, 24, 2, 1, 2, 4, 6, 112, 117, 98, 108, 105, 99, 161, 11, 2, 1, 1, 2, 1, 0, 2, 1,
            0, 48, 0
        ]
    )
}

#[test]
fn pdu_tag_mapping_is_a_bijection() {
    let tags = [
        PduTag::GetRequest,
        PduTag::GetNextRequest,
        PduTag::GetResponse,
        PduTag::SetRequest,
        PduTag::Trap,
        PduTag::GetBulkRequest,
        PduTag::InformRequest,
        PduTag::TrapV2,
        PduTag::Report,
    ];
    let mut seen: Vec<u8> = Vec::new();
    for t in tags {
        let w = t.into_tag();
        assert!(!seen.contains(&w), "two operations share wire tag {}", w);
        seen.push(w);
        assert_eq!(PduTag::from_tag(w), Ok(t));
    }
    for w in 0xA0u8..=0xA8u8 {
        let t = PduTag::from_tag(w).expect("all nine tags decode");
        assert_eq!(t.into_tag(), w);
    }
    assert_eq!(PduTag::from_tag(0x9F), Err(()));
    assert_eq!(PduTag::from_tag(0xA9), Err(()));
    assert_eq!(PduTag::from_tag(0x30), Err(()));
}

#[test]
fn pdu_round_trips_through_bytes() {
    let vbs = vec![
        VarBinding::new(oid(vec![1, 3, 6, 1, 2, 1]), Value::Counter64(7)),
        VarBinding::new(oid(vec![1, 3, 6, 1, 2, 2]), Value::OctetStr(vec![104, 105])),
    ];
    let p = Pdu::new(PduTag::GetResponse, 12345).with_error(3, 2).with_bindings(&vbs);
    let bytes = p.encode();
    let back = Pdu::decode(&bytes).expect("pdu decodes");
    assert_eq!(back.encode(), bytes);
    assert_eq!(back.tag(), PduTag::GetResponse);
    assert_eq!(back.error(), Err(3));
    let bs = back.bindings();
    assert_eq!(bs.len(), 2);
    assert_eq!(bs[0].value, Value::Counter64(7));
    assert_eq!(bs[1].value, Value::OctetStr(vec![104, 105]));
}

#[test]
fn pdu_decode_rejects_unknown_operation_tag() {
    // A well-formed frame whose outer tag is past the nine operations.
    let mut bytes = Pdu::new(PduTag::GetRequest, 0).encode();
    bytes[0] = 0xA9;
    assert_eq!(Pdu::decode(&bytes).unwrap_err(), DecodeError::UnexpectedTag);
}

#[test]
fn pdu_error_reports_nonzero_status() {
    assert_eq!(Pdu::new(PduTag::GetResponse, 1).error(), Ok(()));
    assert_eq!(
        Pdu::new(PduTag::GetResponse, 1).with_error(5, 2).error(),
        Err(5)
    );
}

#[test]
fn bulk_repetitions_overwrite_status_slots() {
    // The two status slots carry (non-repeaters, max-repetitions) after
    // setup, whatever they held before.
    let with_prior = Pdu::new(PduTag::GetBulkRequest, 9)
        .with_error(77, 88)
        .set_bulk_repetitions(2, 10);
    let fresh = Pdu::new(PduTag::GetBulkRequest, 9).set_bulk_repetitions(2, 10);
    assert_eq!(with_prior.encode(), fresh.encode());

    let bytes = fresh.encode();
    // tag, len, then three integer fields: request id 9, then 2, then 10.
    assert_eq!(&bytes[..13], &[165, 11, 2, 1, 9, 2, 1, 2, 2, 1, 10, 48, 0]);
}

#[test]
fn message_round_trips_through_bytes() {
    let vbs = vec![VarBinding::new(
        oid(vec![1, 3, 6, 1, 2, 1, 1, 5, 0]),
        Value::OctetStr(vec![98, 111, 120]),
    )];
    let pdu = Pdu::new(PduTag::GetResponse, 77).with_bindings(&vbs);
    let msg = Message::new(Version::V2C, "private", pdu);
    let bytes = msg.encode();
    let back = Message::decode(&bytes).expect("message decodes");
    assert_eq!(back.encode(), bytes);
    assert_eq!(back.data().tag(), PduTag::GetResponse);
    assert_eq!(back.data().bindings()[0].value, Value::OctetStr(vec![98, 111, 120]));
}

#[test]
fn message_decode_rejects_bad_version() {
    // A message whose version integer is 3.
    let pdu = Pdu::new(PduTag::GetRequest, 0);
    let mut bytes = Message::new(Version::V3, "public", pdu).encode();
    // The version content octet sits at offset 4.
    assert_eq!(bytes[4], 2);
    bytes[4] = 3;
    assert_eq!(Message::decode(&bytes).unwrap_err(), DecodeError::InvalidVersion);
}

#[test]
fn message_decode_rejects_outer_garbage() {
    assert_eq!(Message::decode(&[2, 1, 0]).unwrap_err(), DecodeError::UnexpectedTag);
    assert_eq!(Message::decode(&[]).unwrap_err(), DecodeError::Truncated);
}
