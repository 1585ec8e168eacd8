//! Tests for the client's request construction, response handling and the
//! walk decision.

use snmp::{
    Client, DecodeError, Message, ObjectIdentifier, Pdu, PduTag, ResponseError, Value,
    VarBinding, Version, WalkStep,
};

fn oid(arcs: Vec<u32>) -> ObjectIdentifier {
    ObjectIdentifier::new(arcs).unwrap()
}

fn names_of(step: WalkStep) -> Option<Vec<ObjectIdentifier>> {
    match step {
        WalkStep::Continue(names) => Some(names),
        WalkStep::Done => None,
    }
}

#[test]
fn get_builds_the_expected_request() {
    let mut c = Client::with_request_seed(Version::V2C, 41);
    let oids = vec![oid(vec![1, 3, 6, 1, 2, 1])];
    let bytes = c.get(&oids);

    let expected = Message::new(
        Version::V2C,
        "public",
        Pdu::new(PduTag::GetRequest, 41).with_null_bindings(&oids),
    )
    .encode();
    assert_eq!(bytes, expected);
}

#[test]
fn get_next_builds_the_expected_request() {
    let mut c = Client::with_request_seed(Version::V1, -7);
    let oids = vec![oid(vec![1, 3, 6])];
    let bytes = c.get_next(&oids);

    let expected = Message::new(
        Version::V1,
        "public",
        Pdu::new(PduTag::GetNextRequest, -7).with_null_bindings(&oids),
    )
    .encode();
    assert_eq!(bytes, expected);
}

#[test]
fn get_bulk_builds_the_expected_request() {
    let mut c = Client::with_request_seed(Version::V2C, 100);
    let non_rep = vec![oid(vec![1, 3, 6, 1, 2, 1, 1])];
    let rep = vec![oid(vec![1, 3, 6, 1, 2, 1, 2]), oid(vec![1, 3, 6, 1, 2, 1, 4])];
    let bytes = c.get_bulk(&non_rep, 25, &rep);

    let expected_pdu = Pdu::new(PduTag::GetBulkRequest, 100)
        .set_bulk_repetitions(1, 25)
        .with_null_bindings(&non_rep)
        .with_null_bindings(&rep);
    let expected = Message::new(Version::V2C, "public", expected_pdu).encode();
    assert_eq!(bytes, expected);
}

#[test]
fn set_uses_the_write_community() {
    let mut c = Client::with_request_seed(Version::V2C, 8);
    c.set_communities("readers", "writers");
    let vbs = vec![VarBinding::new(
        oid(vec![1, 3, 6, 1, 2, 1, 1, 5, 0]),
        Value::OctetStr(vec![110, 111, 100, 101]),
    )];
    let bytes = c.set(&vbs);

    let expected = Message::new(
        Version::V2C,
        "writers",
        Pdu::new(PduTag::SetRequest, 8).with_bindings(&vbs),
    )
    .encode();
    assert_eq!(bytes, expected);
}

#[test]
fn request_ids_count_up_and_wrap_silently() {
    let mut c = Client::with_request_seed(Version::V2C, i32::MAX - 1);
    let oids = vec![oid(vec![1, 3])];
    let first = c.get(&oids);
    let second = c.get(&oids);
    let third = c.get(&oids);

    let expect = |id: i32| {
        Message::new(
            Version::V2C,
            "public",
            Pdu::new(PduTag::GetRequest, id).with_null_bindings(&oids),
        )
        .encode()
    };
    assert_eq!(first, expect(i32::MAX - 1));
    assert_eq!(second, expect(i32::MAX));
    assert_eq!(third, expect(i32::MIN));
}

#[test]
fn new_clients_differ_only_in_seed() {
    // The random seed is opaque; everything else about a fresh client is
    // fixed, so two clients given the same seed build identical requests.
    let mut a = Client::with_request_seed(Version::V2C, 5);
    let mut b = Client::with_request_seed(Version::V2C, 5);
    let oids = vec![oid(vec![1, 3, 6])];
    assert_eq!(a.get(&oids), b.get(&oids));
    // And a randomly seeded client still produces a decodable request.
    let mut c = Client::new(Version::V2C);
    let bytes = c.get(&oids);
    assert!(Message::decode(&bytes).is_ok());
}

#[test]
fn parse_response_returns_the_binding_list() {
    let vbs = vec![
        VarBinding::new(oid(vec![1, 3, 6, 1, 2, 1, 1]), Value::Integer(9)),
        VarBinding::new(oid(vec![1, 3, 6, 1, 2, 1, 2]), Value::Timeticks(snmp::TimeTicks::new(4))),
    ];
    let reply = Message::new(
        Version::V2C,
        "public",
        Pdu::new(PduTag::GetResponse, 3).with_bindings(&vbs),
    )
    .encode();

    let got = Client::parse_response(&reply).expect("reply decodes");
    assert_eq!(got.len(), 2);
    assert_eq!(got[0].value, Value::Integer(9));
    assert_eq!(got[1].value, Value::Timeticks(snmp::TimeTicks::new(4)));
}

#[test]
fn parse_response_surfaces_decode_failures() {
    // A message whose first field is a null rather than a version integer.
    assert_eq!(
        Client::parse_response(&[48, 2, 5, 0]).unwrap_err(),
        ResponseError::Decode(DecodeError::UnexpectedTag)
    );
    assert_eq!(
        Client::parse_response(&[48]).unwrap_err(),
        ResponseError::Decode(DecodeError::Truncated)
    );
}

#[test]
fn parse_response_surfaces_agent_errors() {
    // A reply whose PDU carries errorStatus 2 (no such name) at index 1
    // becomes a status error; the status and index both survive.
    let reply = Message::new(
        Version::V2C,
        "public",
        Pdu::new(PduTag::GetResponse, 3).with_error(2, 1),
    )
    .encode();
    assert_eq!(
        Client::parse_response(&reply).unwrap_err(),
        ResponseError::Status(2, 1)
    );
}

#[test]
fn walk_emits_an_increasing_sequence_once_and_halts() {
    // A synthetic agent: strictly increasing names for three rounds, then
    // the end-of-view sentinel.
    let script: Vec<Vec<VarBinding>> = vec![
        vec![VarBinding::new(oid(vec![1, 3, 6, 1]), Value::Integer(1))],
        vec![VarBinding::new(oid(vec![1, 3, 6, 2]), Value::Integer(2))],
        vec![VarBinding::new(oid(vec![1, 3, 6, 3]), Value::Integer(3))],
        vec![VarBinding::new(oid(vec![1, 3, 6, 3]), Value::EndOfMIBView)],
    ];

    let mut sent = vec![oid(vec![1, 3, 6])];
    let mut emitted: Vec<Vec<u32>> = Vec::new();
    let mut rounds = 0usize;
    for reply in &script {
        rounds += 1;
        assert!(rounds <= script.len(), "the walk must halt");
        for vb in reply {
            if vb.value != Value::EndOfMIBView {
                emitted.push(vb.name.arcs().clone());
            }
        }
        match snmp::client::walk_step(&sent, reply) {
            WalkStep::Continue(names) => sent = names,
            WalkStep::Done => break,
        }
    }
    assert_eq!(rounds, 4);
    assert_eq!(
        emitted,
        vec![
            vec![1, 3, 6, 1],
            vec![1, 3, 6, 2],
            vec![1, 3, 6, 3],
        ]
    );
}

#[test]
fn walk_halts_when_the_agent_stalls() {
    // No sentinel, but the last returned name repeats the last name sent:
    // the defensive guard stops the loop.
    let sent = vec![oid(vec![1, 3, 6, 1])];
    let reply = vec![VarBinding::new(oid(vec![1, 3, 6, 1]), Value::Integer(1))];
    assert!(names_of(snmp::client::walk_step(&sent, &reply)).is_none());
}

#[test]
fn walk_halts_on_an_empty_reply() {
    let sent = vec![oid(vec![1, 3, 6, 1])];
    let reply: Vec<VarBinding> = Vec::new();
    assert!(names_of(snmp::client::walk_step(&sent, &reply)).is_none());
}

#[test]
fn walk_continues_with_exactly_the_returned_names() {
    let sent = vec![oid(vec![1, 3, 6, 1]), oid(vec![1, 3, 6, 5])];
    let reply = vec![
        VarBinding::new(oid(vec![1, 3, 6, 2]), Value::Integer(1)),
        VarBinding::new(oid(vec![1, 3, 6, 6]), Value::Integer(2)),
    ];
    let names = names_of(snmp::client::walk_step(&sent, &reply)).expect("walk continues");
    assert_eq!(names.len(), 2);
    assert_eq!(names[0], oid(vec![1, 3, 6, 2]));
    assert_eq!(names[1], oid(vec![1, 3, 6, 6]));
}
