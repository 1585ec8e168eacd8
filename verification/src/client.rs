//! The manager-side client: request-id bookkeeping, request construction
//! for each operation, response handling, and the GET-NEXT walk decision.
//!
//! The client produces and consumes plain byte strings; the caller owns the
//! datagram transport, sends what a builder returns, and hands the reply
//! back to [`Client::parse_response`].  One request is in flight per client
//! at a time, and no reply is correlated against the request id it answers.

use crate::ber::DecodeError;
use crate::pdu::null_binding_models;
use crate::pdu::oid_views;
use crate::pdu::spec_encode_message;
use crate::pdu::spec_parse_message;
use crate::pdu::vb_models;
use crate::pdu::Message;
use crate::pdu::MessageModel;
use crate::pdu::Pdu;
use crate::pdu::PduModel;
use crate::pdu::PduTag;
use crate::types::ObjectIdentifier;
use crate::types::Value;
use crate::types::VarBinding;
use crate::types::VarBindingModel;
use crate::types::Version;
use vstd::prelude::*;
use vstd::utf8::encode_utf8;

verus! {

/// Relies on rand::random: one value drawn from the thread-local generator.
/// Nothing is promised of the value.
pub assume_specification<T>[ rand::random::<T> ]() -> (r: T)
    where
        rand::distributions::Standard: rand::distributions::Distribution<T>,
;

/// A snapshot of the client's bookkeeping.
pub struct ClientModel {
    pub version: Version,
    pub current_request: i32,
    pub read_community: Seq<char>,
    pub write_community: Seq<char>,
}

/// The request id that follows `v`; the counter wraps silently.
pub open spec fn next_request_id(v: i32) -> i32 {
    if v == i32::MAX {
        i32::MIN
    } else {
        (v + 1) as i32
    }
}

/// A manager talking to one agent: protocol version, request-id counter,
/// and the two community strings.
pub struct Client {
    version: Version,
    current_request: i32,
    read_community: String,
    write_community: String,
}

impl View for Client {
    type V = ClientModel;

    closed spec fn view(&self) -> ClientModel {
        ClientModel {
            version: self.version,
            current_request: self.current_request,
            read_community: self.read_community@,
            write_community: self.write_community@,
        }
    }
}

impl Client {
    /// A client with a random initial request id and the conventional
    /// default communities.
    pub fn new(version: Version) -> (r: Client)
        ensures
            r@.version == version,
            r@.read_community == "public"@,
            r@.write_community == "private"@,
    {
        let seed: i32 = rand::random::<i32>();
        Client::with_request_seed(version, seed)
    }

    /// A client whose request ids start from the given seed, for callers
    /// that need them predictable.
    pub fn with_request_seed(version: Version, seed: i32) -> (r: Client)
        ensures
            r@ == (ClientModel {
                version,
                current_request: seed,
                read_community: "public"@,
                write_community: "private"@,
            }),
    {
        Client {
            version,
            current_request: seed,
            read_community: "public".to_owned(),
            write_community: "private".to_owned(),
        }
    }

    pub fn set_communities(&mut self, read_community: &str, write_community: &str)
        ensures
            final(self)@ == (ClientModel {
                read_community: read_community@,
                write_community: write_community@,
                ..old(self)@
            }),
    {
        self.read_community = read_community.to_owned();
        self.write_community = write_community.to_owned();
    }

    /// The id for the next request; the counter moves on, wrapping
    /// silently.
    fn increment_request(&mut self) -> (r: i32)
        ensures
            r == old(self)@.current_request,
            final(self)@ == (ClientModel {
                current_request: next_request_id(old(self)@.current_request),
                ..old(self)@
            }),
    {
        let request = self.current_request;
        self.current_request = if self.current_request == i32::MAX {
            i32::MIN
        } else {
            self.current_request + 1
        };
        request
    }

    /// The encoded GET request for the given names, under the read
    /// community; null bindings stand in for the values.
    pub fn get(&mut self, oids: &[ObjectIdentifier]) -> (r: Vec<u8>)
        ensures
            r@ == spec_encode_message(
                MessageModel {
                    version: old(self)@.version,
                    community: encode_utf8(old(self)@.read_community),
                    data: PduModel {
                        tag: PduTag::GetRequest,
                        request_id: old(self)@.current_request,
                        err_status: 0,
                        err_index: 0,
                        bindings: null_binding_models(oid_views(oids@)),
                    },
                },
            ),
            final(self)@ == (ClientModel {
                current_request: next_request_id(old(self)@.current_request),
                ..old(self)@
            }),
    {
        let request_id = self.increment_request();
        let pdu = Pdu::new(PduTag::GetRequest, request_id).with_null_bindings(oids);
        proof {
            assert(pdu@.bindings =~= null_binding_models(oid_views(oids@)));
        }
        let msg = Message::new(self.version, self.read_community.as_str(), pdu);
        msg.encode()
    }

    /// The encoded GET-NEXT request for the given names, under the read
    /// community.
    pub fn get_next(&mut self, oids: &[ObjectIdentifier]) -> (r: Vec<u8>)
        ensures
            r@ == spec_encode_message(
                MessageModel {
                    version: old(self)@.version,
                    community: encode_utf8(old(self)@.read_community),
                    data: PduModel {
                        tag: PduTag::GetNextRequest,
                        request_id: old(self)@.current_request,
                        err_status: 0,
                        err_index: 0,
                        bindings: null_binding_models(oid_views(oids@)),
                    },
                },
            ),
            final(self)@ == (ClientModel {
                current_request: next_request_id(old(self)@.current_request),
                ..old(self)@
            }),
    {
        let request_id = self.increment_request();
        let pdu = Pdu::new(PduTag::GetNextRequest, request_id).with_null_bindings(oids);
        proof {
            assert(pdu@.bindings =~= null_binding_models(oid_views(oids@)));
        }
        let msg = Message::new(self.version, self.read_community.as_str(), pdu);
        msg.encode()
    }

    /// The encoded GET-BULK request: the non-repeating names first, then
    /// the repeating ones, with the status slots carrying
    /// (non-repeater count, repetitions).
    pub fn get_bulk(
        &mut self,
        non_repeating_oids: &[ObjectIdentifier],
        repetitions: i32,
        repeating_oids: &[ObjectIdentifier],
    ) -> (r: Vec<u8>)
        requires
            non_repeating_oids@.len() <= i32::MAX,
        ensures
            r@ == spec_encode_message(
                MessageModel {
                    version: old(self)@.version,
                    community: encode_utf8(old(self)@.read_community),
                    data: PduModel {
                        tag: PduTag::GetBulkRequest,
                        request_id: old(self)@.current_request,
                        err_status: non_repeating_oids@.len() as i32,
                        err_index: repetitions,
                        bindings: null_binding_models(oid_views(non_repeating_oids@))
                            + null_binding_models(oid_views(repeating_oids@)),
                    },
                },
            ),
            final(self)@ == (ClientModel {
                current_request: next_request_id(old(self)@.current_request),
                ..old(self)@
            }),
    {
        let request_id = self.increment_request();
        let pdu = Pdu::new(PduTag::GetBulkRequest, request_id).set_bulk_repetitions(
            non_repeating_oids.len() as i32,
            repetitions,
        ).with_null_bindings(non_repeating_oids).with_null_bindings(repeating_oids);
        proof {
            assert(pdu@.bindings =~= null_binding_models(oid_views(non_repeating_oids@))
                + null_binding_models(oid_views(repeating_oids@)));
        }
        let msg = Message::new(self.version, self.read_community.as_str(), pdu);
        msg.encode()
    }

    /// The encoded SET request carrying the given bindings verbatim, under
    /// the write community.
    pub fn set(&mut self, bindings: &[VarBinding]) -> (r: Vec<u8>)
        ensures
            r@ == spec_encode_message(
                MessageModel {
                    version: old(self)@.version,
                    community: encode_utf8(old(self)@.write_community),
                    data: PduModel {
                        tag: PduTag::SetRequest,
                        request_id: old(self)@.current_request,
                        err_status: 0,
                        err_index: 0,
                        bindings: vb_models(bindings@),
                    },
                },
            ),
            final(self)@ == (ClientModel {
                current_request: next_request_id(old(self)@.current_request),
                ..old(self)@
            }),
    {
        let request_id = self.increment_request();
        let pdu = Pdu::new(PduTag::SetRequest, request_id).with_bindings(bindings);
        proof {
            assert(pdu@.bindings =~= vb_models(bindings@));
        }
        let msg = Message::new(self.version, self.write_community.as_str(), pdu);
        msg.encode()
    }

    /// The binding list of a reply datagram, which must hold exactly one
    /// whole message whose error status is zero.  A nonzero status comes
    /// back as a distinct error carrying the status and index, never
    /// silently dropped.
    pub fn parse_response(bytes: &[u8]) -> (r: Result<Vec<VarBinding>, ResponseError>)
        ensures
            r matches Ok(bs) ==> (spec_parse_message(bytes@) matches Ok((m, n)) && n
                == bytes@.len() && m.data.err_status == 0 && vb_models(bs@) == m.data.bindings),
            r matches Err(ResponseError::Status(s, ix)) ==> (spec_parse_message(bytes@) matches Ok(
                (m, n),
            ) && n == bytes@.len() && s == m.data.err_status && s != 0 && ix == m.data.err_index),
            r matches Err(ResponseError::Decode(e)) ==> match spec_parse_message(bytes@) {
                Ok((m, n)) => n != bytes@.len() && e == DecodeError::InvalidLength,
                Err(e2) => e == e2,
            },
    {
        match Message::decode(bytes) {
            Err(e) => Err(ResponseError::Decode(e)),
            Ok(msg) => {
                let pdu = msg.into_data();
                match pdu.error() {
                    Ok(()) => Ok(pdu.into_bindings()),
                    Err(status) => Err(ResponseError::Status(status, pdu.error_index())),
                }
            },
        }
    }
}

/// Why a reply could not be taken at face value: it did not decode, or the
/// agent answered with an application-level error.
#[derive(Clone, Copy, PartialEq, Eq, Structural, Debug)]
pub enum ResponseError {
    /// The reply bytes are not one well-formed message.
    Decode(DecodeError),
    /// The reply decoded, but its PDU carries this nonzero error status
    /// and error index.
    Status(i32, i32),
}

// ---------------------------------------------------------------------------
// The walk decision.
// ---------------------------------------------------------------------------

/// Whether a response carries the end-of-view sentinel anywhere.
pub open spec fn has_end_of_mib(bs: Seq<VarBindingModel>) -> bool {
    exists|i: int| 0 <= i < bs.len() && bs[i].value is EndOfMIBView
}

/// The names of a response, in order.
pub open spec fn binding_names(bs: Seq<VarBindingModel>) -> Seq<Seq<u32>> {
    bs.map_values(|b: VarBindingModel| b.name)
}

/// The walk's decision after one GET-NEXT exchange: stop on an empty
/// reply, on the end-of-view sentinel, or on no forward progress (the last
/// returned name repeats the last name sent); otherwise continue with
/// exactly the returned names.
pub open spec fn spec_walk_step(prev: Seq<Seq<u32>>, bs: Seq<VarBindingModel>) -> Option<
    Seq<Seq<u32>>,
>
    recommends
        prev.len() > 0,
{
    if bs.len() == 0 || has_end_of_mib(bs) || bs.last().name == prev.last() {
        None
    } else {
        Some(binding_names(bs))
    }
}

/// What the walk driver should do next.
#[derive(Debug)]
pub enum WalkStep {
    /// Issue another GET-NEXT with these names.
    Continue(Vec<ObjectIdentifier>),
    /// The subtree is exhausted or the agent stalled; stop.
    Done,
}

/// Decide one walk round from the names last sent and the bindings
/// returned.
pub fn walk_step(prev: &[ObjectIdentifier], bindings: &[VarBinding]) -> (r: WalkStep)
    requires
        prev@.len() > 0,
    ensures
        r matches WalkStep::Continue(names) ==> spec_walk_step(
            oid_views(prev@),
            vb_models(bindings@),
        ) == Some(oid_views(names@)),
        r is Done ==> spec_walk_step(oid_views(prev@), vb_models(bindings@)) is None,
{
    let blen = bindings.len();
    if blen == 0 {
        return WalkStep::Done;
    }
    let mut i: usize = 0;
    while i < blen
        invariant
            0 <= i <= blen == bindings@.len(),
            forall|j: int| 0 <= j < i ==> !(vb_models(bindings@)[j].value is EndOfMIBView),
        decreases blen - i,
    {
        let stop = match &bindings[i].value {
            Value::EndOfMIBView => true,
            _ => false,
        };
        if stop {
            proof {
                assert(vb_models(bindings@)[i as int].value is EndOfMIBView);
            }
            return WalkStep::Done;
        }
        i = i + 1;
    }
    proof {
        assert(!has_end_of_mib(vb_models(bindings@)));
    }
    if bindings[blen - 1].name == prev[prev.len() - 1] {
        proof {
            assert(vb_models(bindings@).last().name == oid_views(prev@).last());
        }
        return WalkStep::Done;
    }
    let mut names: Vec<ObjectIdentifier> = Vec::new();
    let mut k: usize = 0;
    while k < blen
        invariant
            0 <= k <= blen == bindings@.len(),
            oid_views(names@) =~= binding_names(vb_models(bindings@)).subrange(0, k as int),
        decreases blen - k,
    {
        let ghost before = names@;
        names.push(bindings[k].name.clone());
        proof {
            assert(oid_views(names@) =~= oid_views(before).push(bindings@[k as int]@.name));
        }
        k = k + 1;
    }
    proof {
        assert(oid_views(names@) =~= binding_names(vb_models(bindings@)));
        assert(vb_models(bindings@).last().name != oid_views(prev@).last());
    }
    WalkStep::Continue(names)
}

/// Once a response carries the end-of-view sentinel, the walk stops.
pub proof fn lemma_walk_stops_at_end_of_mib(prev: Seq<Seq<u32>>, bs: Seq<VarBindingModel>)
    requires
        has_end_of_mib(bs),
    ensures
        spec_walk_step(prev, bs) is None,
{
}

/// While the agent makes progress — a non-empty reply, no sentinel, and a
/// fresh last name — the walk continues with exactly the returned names,
/// none dropped, none added.
pub proof fn lemma_walk_advances(prev: Seq<Seq<u32>>, bs: Seq<VarBindingModel>)
    requires
        bs.len() > 0,
        !has_end_of_mib(bs),
        bs.last().name != prev.last(),
    ensures
        spec_walk_step(prev, bs) == Some(binding_names(bs)),
{
}

/// How many responses a walk consumes before halting, given the replies an
/// agent would make round by round; the walk also halts when the script
/// runs out.
pub open spec fn spec_walk_steps(cur: Seq<Seq<u32>>, responses: Seq<Seq<VarBindingModel>>) -> nat
    decreases responses.len(),
{
    if responses.len() == 0 {
        0
    } else {
        match spec_walk_step(cur, responses[0]) {
            None => 1,
            Some(names) => 1 + spec_walk_steps(names, responses.skip(1)),
        }
    }
}

/// The walk accepts each of the first `k` responses and continues.
pub open spec fn walk_advances_through(
    cur: Seq<Seq<u32>>,
    responses: Seq<Seq<VarBindingModel>>,
    k: int,
) -> bool
    decreases k,
{
    if k <= 0 {
        true
    } else if responses.len() == 0 {
        false
    } else {
        match spec_walk_step(cur, responses[0]) {
            None => false,
            Some(names) => walk_advances_through(names, responses.skip(1), k - 1),
        }
    }
}

/// Walk termination: against an agent that advances the walk `k` times and
/// then returns the end-of-view sentinel, the walk halts after exactly
/// `k + 1` exchanges — every scripted response consumed once, and no round
/// beyond the sentinel.
pub proof fn lemma_walk_terminates(
    cur: Seq<Seq<u32>>,
    responses: Seq<Seq<VarBindingModel>>,
    k: int,
)
    requires
        0 <= k < responses.len(),
        walk_advances_through(cur, responses, k),
        has_end_of_mib(responses[k]),
    ensures
        spec_walk_steps(cur, responses) == k + 1,
    decreases k,
{
    if k == 0 {
        lemma_walk_stops_at_end_of_mib(cur, responses[0]);
    } else {
        match spec_walk_step(cur, responses[0]) {
            None => {
                assert(false);
            },
            Some(names) => {
                assert(responses.skip(1)[k - 1] == responses[k]);
                lemma_walk_terminates(names, responses.skip(1), k - 1);
            },
        }
    }
}

} // verus!
