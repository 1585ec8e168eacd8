//! Operation PDUs and the outer message envelope.
//!
//! A PDU's body — request id, two status fields and the binding list — is
//! framed by the *operation's own* context tag, not a universal sequence
//! tag; this deviation from plain ASN.1 is part of the wire contract.  The
//! message wraps a version, a community string and one PDU in a universal
//! sequence.

use crate::ber::int_content;
use crate::ber::lemma_int_content_len;
use crate::ber::lemma_int_content_props;
use crate::ber::lemma_parse_tlv_of_tlv;
use crate::ber::lemma_pow256_unfold_8;
use crate::ber::append_i32_content;
use crate::ber::append_tlv;
use crate::ber::parse_i32_content;
use crate::ber::parse_tlv_header;
use crate::ber::spec_parse_tlv;
use crate::ber::sval_be;
use crate::ber::tlv;
use crate::ber::DecodeError;
use crate::types::append_varbinding;
use crate::types::lemma_tlv_len;
use crate::types::lemma_value_enc_len;
use crate::types::lemma_varbinding_round_trip;
use crate::types::lemma_oid_content_len;
use crate::types::lemma_version_round_trip;
use crate::types::oid_content;
use crate::types::parse_varbinding;
use crate::types::spec_encode_varbinding;
use crate::types::spec_encode_version;
use crate::types::spec_parse_varbinding;
use crate::types::spec_parse_version;
use crate::types::VarBinding;
use crate::types::VarBindingModel;
use crate::types::Version;
use crate::types::ObjectIdentifier;
use crate::types::ValueModel;
use crate::types::TAG_INTEGER;
use crate::types::TAG_OCTET_STRING;
use crate::types::TAG_SEQUENCE;
use vstd::prelude::*;
use vstd::string::StringSliceAdditionalSpecFns;

verus! {

// Context-class constructed wire tags of the nine operations.
pub const TAG_MSG_GET: u8 = 0xA0;
pub const TAG_MSG_GETNEXT: u8 = 0xA1;
pub const TAG_MSG_RESPONSE: u8 = 0xA2;
pub const TAG_MSG_SET: u8 = 0xA3;
pub const TAG_MSG_TRAPV1: u8 = 0xA4;
pub const TAG_MSG_GETBULK: u8 = 0xA5;
pub const TAG_MSG_INFORM: u8 = 0xA6;
pub const TAG_MSG_TRAPV2: u8 = 0xA7;
pub const TAG_MSG_REPORT: u8 = 0xA8;

/// The nine operations a PDU can carry.
#[derive(Clone, Copy, Debug, PartialEq, Eq, Structural)]
pub enum PduTag {
    GetRequest,
    GetNextRequest,
    GetResponse,
    SetRequest,
    /// The v1 trap; a placeholder, never constructed by this client.
    Trap,
    GetBulkRequest,
    InformRequest,
    TrapV2,
    Report,
}

/// The wire tag of each operation.
pub open spec fn spec_into_tag(t: PduTag) -> u8 {
    match t {
        PduTag::GetRequest => TAG_MSG_GET,
        PduTag::GetNextRequest => TAG_MSG_GETNEXT,
        PduTag::GetResponse => TAG_MSG_RESPONSE,
        PduTag::SetRequest => TAG_MSG_SET,
        PduTag::Trap => TAG_MSG_TRAPV1,
        PduTag::GetBulkRequest => TAG_MSG_GETBULK,
        PduTag::InformRequest => TAG_MSG_INFORM,
        PduTag::TrapV2 => TAG_MSG_TRAPV2,
        PduTag::Report => TAG_MSG_REPORT,
    }
}

/// The operation of each wire tag, where one exists.
pub open spec fn spec_from_tag(tag: u8) -> Option<PduTag> {
    if tag == TAG_MSG_GET {
        Some(PduTag::GetRequest)
    } else if tag == TAG_MSG_GETNEXT {
        Some(PduTag::GetNextRequest)
    } else if tag == TAG_MSG_RESPONSE {
        Some(PduTag::GetResponse)
    } else if tag == TAG_MSG_SET {
        Some(PduTag::SetRequest)
    } else if tag == TAG_MSG_TRAPV1 {
        Some(PduTag::Trap)
    } else if tag == TAG_MSG_GETBULK {
        Some(PduTag::GetBulkRequest)
    } else if tag == TAG_MSG_INFORM {
        Some(PduTag::InformRequest)
    } else if tag == TAG_MSG_TRAPV2 {
        Some(PduTag::TrapV2)
    } else if tag == TAG_MSG_REPORT {
        Some(PduTag::Report)
    } else {
        None
    }
}

impl PduTag {
    pub fn into_tag(&self) -> (r: u8)
        ensures
            r == spec_into_tag(*self),
    {
        match self {
            PduTag::GetRequest => TAG_MSG_GET,
            PduTag::GetNextRequest => TAG_MSG_GETNEXT,
            PduTag::GetResponse => TAG_MSG_RESPONSE,
            PduTag::SetRequest => TAG_MSG_SET,
            PduTag::Trap => TAG_MSG_TRAPV1,
            PduTag::GetBulkRequest => TAG_MSG_GETBULK,
            PduTag::InformRequest => TAG_MSG_INFORM,
            PduTag::TrapV2 => TAG_MSG_TRAPV2,
            PduTag::Report => TAG_MSG_REPORT,
        }
    }

    pub fn from_tag(tag: u8) -> (r: Result<PduTag, ()>)
        ensures
            match spec_from_tag(tag) {
                Some(t) => r == Ok::<PduTag, ()>(t),
                None => r == Err::<PduTag, ()>(()),
            },
    {
        if tag == TAG_MSG_GET {
            Ok(PduTag::GetRequest)
        } else if tag == TAG_MSG_GETNEXT {
            Ok(PduTag::GetNextRequest)
        } else if tag == TAG_MSG_RESPONSE {
            Ok(PduTag::GetResponse)
        } else if tag == TAG_MSG_SET {
            Ok(PduTag::SetRequest)
        } else if tag == TAG_MSG_TRAPV1 {
            Ok(PduTag::Trap)
        } else if tag == TAG_MSG_GETBULK {
            Ok(PduTag::GetBulkRequest)
        } else if tag == TAG_MSG_INFORM {
            Ok(PduTag::InformRequest)
        } else if tag == TAG_MSG_TRAPV2 {
            Ok(PduTag::TrapV2)
        } else if tag == TAG_MSG_REPORT {
            Ok(PduTag::Report)
        } else {
            Err(())
        }
    }
}

/// The operation-to-tag map is a total bijection: every operation has its
/// own wire tag, no two operations share one, the nine tags
/// `0xA0 ..= 0xA8` are all taken, and nothing else decodes.
pub proof fn lemma_pdu_tag_bijection()
    ensures
        forall|t: PduTag| #[trigger] spec_from_tag(spec_into_tag(t)) == Some(t),
        forall|t1: PduTag, t2: PduTag|
            spec_into_tag(t1) == spec_into_tag(t2) ==> t1 == t2,
        forall|tag: u8|
            0xA0 <= tag <= 0xA8 ==> ((#[trigger] spec_from_tag(tag)) matches Some(t)
                && spec_into_tag(t) == tag),
        forall|tag: u8| !(0xA0 <= tag <= 0xA8) ==> (#[trigger] spec_from_tag(tag)) is None,
{
    assert forall|t: PduTag| #[trigger] spec_from_tag(spec_into_tag(t)) == Some(t) by {
        match t {
            PduTag::GetRequest => {},
            PduTag::GetNextRequest => {},
            PduTag::GetResponse => {},
            PduTag::SetRequest => {},
            PduTag::Trap => {},
            PduTag::GetBulkRequest => {},
            PduTag::InformRequest => {},
            PduTag::TrapV2 => {},
            PduTag::Report => {},
        }
    }
    assert forall|t1: PduTag, t2: PduTag|
        spec_into_tag(t1) == spec_into_tag(t2) implies t1 == t2 by {
        assert(spec_from_tag(spec_into_tag(t1)) == Some(t1));
        assert(spec_from_tag(spec_into_tag(t2)) == Some(t2));
    }
}

// ---------------------------------------------------------------------------
// PDUs.
// ---------------------------------------------------------------------------

/// The mathematical model of a PDU.
pub struct PduModel {
    pub tag: PduTag,
    pub request_id: i32,
    /// Error status of a response; reinterpreted as the non-repeater count
    /// in a bulk request.
    pub err_status: i32,
    /// Error index of a response; reinterpreted as the repetition count in
    /// a bulk request.
    pub err_index: i32,
    pub bindings: Seq<VarBindingModel>,
}

pub open spec fn bindings_wf(bs: Seq<VarBindingModel>) -> bool {
    forall|i: int| 0 <= i < bs.len() ==> (#[trigger] bs[i]).wf()
}

impl PduModel {
    pub open spec fn wf(self) -> bool {
        bindings_wf(self.bindings)
    }
}

/// An integer field as a complete frame.
pub open spec fn int_tlv(v: i32) -> Seq<u8> {
    tlv(TAG_INTEGER, int_content(v as int))
}

/// The binding list, one encoded binding after the other.
pub open spec fn spec_encode_bindings(bs: Seq<VarBindingModel>) -> Seq<u8>
    decreases bs.len(),
{
    if bs.len() == 0 {
        Seq::empty()
    } else {
        spec_encode_varbinding(bs[0]) + spec_encode_bindings(bs.skip(1))
    }
}

/// The complete frame of a PDU: the operation's context tag around the
/// four-field body.
pub open spec fn spec_encode_pdu(p: PduModel) -> Seq<u8> {
    tlv(
        spec_into_tag(p.tag),
        int_tlv(p.request_id) + int_tlv(p.err_status) + int_tlv(p.err_index) + tlv(
            TAG_SEQUENCE,
            spec_encode_bindings(p.bindings),
        ),
    )
}

/// Parse one integer field from the front of the string.
pub open spec fn spec_parse_i32(s: Seq<u8>) -> Result<(i32, int), DecodeError> {
    match spec_parse_tlv(s) {
        Err(e) => Err(e),
        Ok((tag, c, n)) => if tag != TAG_INTEGER {
            Err(DecodeError::UnexpectedTag)
        } else if c.len() < 1 || c.len() > 4 {
            Err(DecodeError::InvalidLength)
        } else {
            Ok((sval_be(c) as i32, n))
        },
    }
}

/// Parse bindings to the end of the string.
pub open spec fn spec_parse_bindings(s: Seq<u8>) -> Result<Seq<VarBindingModel>, DecodeError>
    decreases s.len(),
{
    if s.len() == 0 {
        Ok(Seq::empty())
    } else {
        match spec_parse_varbinding(s) {
            Err(e) => Err(e),
            Ok((b, n)) => if n < 1 || n > s.len() {
                Err(DecodeError::InvalidLength)
            } else {
                match spec_parse_bindings(s.skip(n)) {
                    Err(e) => Err(e),
                    Ok(rest) => Ok(seq![b] + rest),
                }
            },
        }
    }
}

/// Parse one PDU: peek the operation from the outer tag, then the body.
pub open spec fn spec_parse_pdu(s: Seq<u8>) -> Result<(PduModel, int), DecodeError> {
    match spec_parse_tlv(s) {
        Err(e) => Err(e),
        Ok((tag, c, n)) => match spec_from_tag(tag) {
            None => Err(DecodeError::UnexpectedTag),
            Some(t) => match spec_parse_i32(c) {
                Err(e) => Err(e),
                Ok((rid, n1)) => match spec_parse_i32(c.skip(n1)) {
                    Err(e) => Err(e),
                    Ok((est, n2)) => match spec_parse_i32(c.skip(n1 + n2)) {
                        Err(e) => Err(e),
                        Ok((eix, n3)) => match spec_parse_tlv(c.skip(n1 + n2 + n3)) {
                            Err(e) => Err(e),
                            Ok((t4, c4, n4)) => if t4 != TAG_SEQUENCE {
                                Err(DecodeError::UnexpectedTag)
                            } else if n1 + n2 + n3 + n4 != c.len() {
                                Err(DecodeError::InvalidLength)
                            } else {
                                match spec_parse_bindings(c4) {
                                    Err(e) => Err(e),
                                    Ok(bs) => Ok(
                                        (
                                            PduModel {
                                                tag: t,
                                                request_id: rid,
                                                err_status: est,
                                                err_index: eix,
                                                bindings: bs,
                                            },
                                            n,
                                        ),
                                    ),
                                }
                            },
                        },
                    },
                },
            },
        },
    }
}

/// The models of a sequence of bindings.
pub open spec fn vb_models(s: Seq<VarBinding>) -> Seq<VarBindingModel> {
    s.map_values(|b: VarBinding| b@)
}

/// The null-binding models of a sequence of names.
pub open spec fn null_binding_models(names: Seq<Seq<u32>>) -> Seq<VarBindingModel> {
    names.map_values(|n: Seq<u32>| VarBindingModel { name: n, value: ValueModel::Null })
}

/// The views of a sequence of object identifiers.
pub open spec fn oid_views(s: Seq<ObjectIdentifier>) -> Seq<Seq<u32>> {
    s.map_values(|o: ObjectIdentifier| o@)
}

/// Protocol Data Unit: the operation-specific request/response body.
#[derive(Debug)]
pub struct Pdu {
    tag: PduTag,
    request_id: i32,
    err_status: i32,
    err_index: i32,
    bindings: Vec<VarBinding>,
}

impl View for Pdu {
    type V = PduModel;

    closed spec fn view(&self) -> PduModel {
        PduModel {
            tag: self.tag,
            request_id: self.request_id,
            err_status: self.err_status,
            err_index: self.err_index,
            bindings: vb_models(self.bindings@),
        }
    }
}

impl Pdu {
    /// A PDU of the given operation with zeroed status fields and no
    /// bindings.
    pub fn new(tag: PduTag, request_id: i32) -> (r: Pdu)
        ensures
            r@ == (PduModel {
                tag,
                request_id,
                err_status: 0,
                err_index: 0,
                bindings: Seq::empty(),
            }),
    {
        let r = Pdu { tag, request_id, err_status: 0, err_index: 0, bindings: Vec::new() };
        proof {
            assert(vb_models(r.bindings@) =~= Seq::<VarBindingModel>::empty());
        }
        r
    }

    /// The same PDU with the status fields set.
    pub fn with_error(self, err_status: i32, err_index: i32) -> (r: Pdu)
        ensures
            r@ == (PduModel { err_status, err_index, ..self@ }),
    {
        let mut this = self;
        this.err_status = err_status;
        this.err_index = err_index;
        this
    }

    /// The same PDU with the given bindings appended, in order.
    pub fn with_bindings(self, bindings: &[VarBinding]) -> (r: Pdu)
        ensures
            r@ == (PduModel { bindings: self@.bindings + vb_models(bindings@), ..self@ }),
    {
        let mut this = self;
        let ghost init = this;
        let ghost orig = vb_models(this.bindings@);
        let mut i: usize = 0;
        while i < bindings.len()
            invariant
                0 <= i <= bindings@.len(),
                vb_models(this.bindings@) =~= orig + vb_models(bindings@.subrange(0, i as int)),
                this.tag == init.tag,
                this.request_id == init.request_id,
                this.err_status == init.err_status,
                this.err_index == init.err_index,
            decreases bindings@.len() - i,
        {
            let ghost before = this.bindings@;
            this.bindings.push(bindings[i].clone());
            proof {
                assert(vb_models(this.bindings@) =~= vb_models(before).push(bindings@[i as int]@));
                assert(vb_models(this.bindings@) =~= orig + vb_models(
                    bindings@.subrange(0, i + 1),
                ));
            }
            i = i + 1;
        }
        proof {
            assert(bindings@.subrange(0, bindings@.len() as int) =~= bindings@);
            assert(vb_models(this.bindings@) =~= orig + vb_models(bindings@));
        }
        this
    }

    /// The same PDU with one null binding appended per name, in order.
    pub fn with_null_bindings(self, bindings: &[ObjectIdentifier]) -> (r: Pdu)
        ensures
            r@ == (PduModel {
                bindings: self@.bindings + null_binding_models(oid_views(bindings@)),
                ..self@
            }),
    {
        let mut this = self;
        let ghost init = this;
        let ghost orig = vb_models(this.bindings@);
        let mut i: usize = 0;
        while i < bindings.len()
            invariant
                0 <= i <= bindings@.len(),
                vb_models(this.bindings@) =~= orig + null_binding_models(
                    oid_views(bindings@.subrange(0, i as int)),
                ),
                this.tag == init.tag,
                this.request_id == init.request_id,
                this.err_status == init.err_status,
                this.err_index == init.err_index,
            decreases bindings@.len() - i,
        {
            let ghost before = this.bindings@;
            this.bindings.push(VarBinding::null_from(bindings[i].clone()));
            proof {
                assert(vb_models(this.bindings@) =~= vb_models(before).push(
                    VarBindingModel { name: bindings@[i as int]@, value: ValueModel::Null },
                ));
                assert(vb_models(this.bindings@) =~= orig + null_binding_models(
                    oid_views(bindings@.subrange(0, i + 1)),
                ));
            }
            i = i + 1;
        }
        proof {
            assert(bindings@.subrange(0, bindings@.len() as int) =~= bindings@);
            assert(vb_models(this.bindings@) =~= orig + null_binding_models(oid_views(bindings@)));
        }
        this
    }

    /// The same PDU with the two status slots reassigned their bulk-request
    /// meaning: (non-repeaters, max-repetitions).  The slots are the same
    /// storage the codec writes either way; only a bulk request may give
    /// them this reading, so that is a precondition, not a runtime check.
    pub fn set_bulk_repetitions(self, num_repeaters: i32, max_repetitions: i32) -> (r: Pdu)
        requires
            self@.tag == PduTag::GetBulkRequest,
        ensures
            r@ == (PduModel {
                err_status: num_repeaters,
                err_index: max_repetitions,
                ..self@
            }),
    {
        let mut this = self;
        this.err_status = num_repeaters;
        this.err_index = max_repetitions;
        this
    }

    pub fn tag(&self) -> (r: PduTag)
        ensures
            r == self@.tag,
    {
        self.tag
    }

    /// Success exactly when the error status is zero; otherwise the status
    /// itself.
    pub fn error(&self) -> (r: Result<(), i32>)
        ensures
            r is Ok <==> self@.err_status == 0,
            r matches Err(s) ==> s == self@.err_status,
    {
        if self.err_status == 0 {
            return Ok(());
        }
        Err(self.err_status)
    }

    /// The error index of a response; names the binding the status is
    /// about.
    pub fn error_index(&self) -> (r: i32)
        ensures
            r == self@.err_index,
    {
        self.err_index
    }

    pub fn bindings(&self) -> (r: &[VarBinding])
        ensures
            vb_models(r@) == self@.bindings,
    {
        self.bindings.as_slice()
    }

    /// The bindings, surrendered.
    pub fn into_bindings(self) -> (r: Vec<VarBinding>)
        ensures
            vb_models(r@) == self@.bindings,
    {
        self.bindings
    }

    /// The complete frame of this PDU.
    pub fn encode(&self) -> (r: Vec<u8>)
        ensures
            r@ == spec_encode_pdu(self@),
    {
        let mut out: Vec<u8> = Vec::new();
        self.encode_into(&mut out);
        out
    }

    /// Append the complete frame of this PDU.
    pub fn encode_into(&self, out: &mut Vec<u8>)
        ensures
            final(out)@ == old(out)@ + spec_encode_pdu(self@),
    {
        let mut content: Vec<u8> = Vec::new();
        append_i32_tlv(self.request_id, &mut content);
        append_i32_tlv(self.err_status, &mut content);
        append_i32_tlv(self.err_index, &mut content);
        let mut list: Vec<u8> = Vec::new();
        let ghost models = vb_models(self.bindings@);
        let mut i: usize = 0;
        proof {
            assert(list@ + spec_encode_bindings(models.skip(0)) =~= spec_encode_bindings(models))
                by {
                assert(models.skip(0) =~= models);
            }
        }
        while i < self.bindings.len()
            invariant
                0 <= i <= self.bindings@.len(),
                models == vb_models(self.bindings@),
                list@ + spec_encode_bindings(models.skip(i as int)) == spec_encode_bindings(models),
            decreases self.bindings@.len() - i,
        {
            let ghost before = list@;
            append_varbinding(&self.bindings[i], &mut list);
            proof {
                let tail = models.skip(i as int);
                assert(tail[0] == models[i as int]);
                assert(models[i as int] == self.bindings@[i as int]@);
                assert(tail.skip(1) =~= models.skip(i + 1));
                assert(spec_encode_bindings(tail) == spec_encode_varbinding(models[i as int])
                    + spec_encode_bindings(models.skip(i + 1)));
                assert(list@ + spec_encode_bindings(models.skip(i + 1)) =~= before
                    + spec_encode_bindings(tail));
            }
            i = i + 1;
        }
        proof {
            assert(spec_encode_bindings(models.skip(models.len() as int)).len() == 0) by {
                assert(models.skip(models.len() as int).len() == 0);
            }
            assert(list@ =~= list@ + spec_encode_bindings(models.skip(models.len() as int)));
        }
        append_tlv(TAG_SEQUENCE, &list, &mut content);
        append_tlv(self.tag.into_tag(), &content, out);
        proof {
            assert(content@ =~= int_tlv(self@.request_id) + int_tlv(self@.err_status) + int_tlv(
                self@.err_index,
            ) + tlv(TAG_SEQUENCE, spec_encode_bindings(self@.bindings)));
        }
    }

    /// Parse one PDU from the front of the slice.
    pub fn parse(s: &[u8]) -> (r: Result<(Pdu, usize), DecodeError>)
        ensures
            r matches Ok((p, n)) ==> spec_parse_pdu(s@) == Ok::<(PduModel, int), DecodeError>((
                p@,
                n as int,
            )) && n <= s@.len(),
            r matches Err(e) ==> spec_parse_pdu(s@) == Err::<(PduModel, int), DecodeError>(e),
    {
        match parse_tlv_header(s) {
            Err(e) => Err(e),
            Ok((outer_tag, cs, cl)) => {
                let slen: usize = s.len();
                proof {
                    assert(cs + cl <= slen);
                }
                let tag = match PduTag::from_tag(outer_tag) {
                    Ok(t) => t,
                    Err(()) => {
                        return Err(DecodeError::UnexpectedTag);
                    },
                };
                let c = vstd::slice::slice_subrange(s, cs, cs + cl);
                let (rid, n1) = match parse_i32_tlv(c) {
                    Ok(x) => x,
                    Err(e) => {
                        return Err(e);
                    },
                };
                let after1 = vstd::slice::slice_subrange(c, n1, cl);
                proof {
                    assert(after1@ =~= c@.skip(n1 as int));
                }
                let (est, n2) = match parse_i32_tlv(after1) {
                    Ok(x) => x,
                    Err(e) => {
                        return Err(e);
                    },
                };
                let after2 = vstd::slice::slice_subrange(c, n1 + n2, cl);
                proof {
                    assert(after2@ =~= c@.skip(n1 + n2));
                }
                let (eix, n3) = match parse_i32_tlv(after2) {
                    Ok(x) => x,
                    Err(e) => {
                        return Err(e);
                    },
                };
                let after3 = vstd::slice::slice_subrange(c, n1 + n2 + n3, cl);
                proof {
                    assert(after3@ =~= c@.skip(n1 + n2 + n3));
                }
                match parse_tlv_header(after3) {
                    Err(e) => Err(e),
                    Ok((t4, cs4, cl4)) => {
                        if t4 != TAG_SEQUENCE {
                            return Err(DecodeError::UnexpectedTag);
                        }
                        if n1 + n2 + n3 + (cs4 + cl4) != cl {
                            return Err(DecodeError::InvalidLength);
                        }
                        let list = vstd::slice::slice_subrange(after3, cs4, cs4 + cl4);
                        match parse_bindings(list) {
                            Err(e) => Err(e),
                            Ok(bindings) => {
                                let p = Pdu {
                                    tag,
                                    request_id: rid,
                                    err_status: est,
                                    err_index: eix,
                                    bindings,
                                };
                                Ok((p, cs + cl))
                            },
                        }
                    },
                }
            },
        }
    }

    /// Decode a complete byte string as exactly one PDU.
    pub fn decode(bytes: &[u8]) -> (r: Result<Pdu, DecodeError>)
        ensures
            r matches Ok(p) ==> spec_parse_pdu(bytes@) == Ok::<(PduModel, int), DecodeError>((
                p@,
                bytes@.len() as int,
            )),
            r matches Err(e) ==> match spec_parse_pdu(bytes@) {
                Ok((m, n)) => n != bytes@.len() && e == DecodeError::InvalidLength,
                Err(e2) => e == e2,
            },
    {
        match Pdu::parse(bytes) {
            Err(e) => Err(e),
            Ok((p, n)) => if n == bytes.len() {
                Ok(p)
            } else {
                Err(DecodeError::InvalidLength)
            },
        }
    }
}

/// Append one integer field as a complete frame.
pub(crate) fn append_i32_tlv(v: i32, out: &mut Vec<u8>)
    ensures
        final(out)@ == old(out)@ + int_tlv(v),
{
    let mut content: Vec<u8> = Vec::new();
    append_i32_content(v, &mut content);
    append_tlv(TAG_INTEGER, &content, out);
}

/// Parse one integer field from the front of the slice.
pub(crate) fn parse_i32_tlv(s: &[u8]) -> (r: Result<(i32, usize), DecodeError>)
    ensures
        r matches Ok((v, n)) ==> spec_parse_i32(s@) == Ok::<(i32, int), DecodeError>((v, n as int))
            && 1 <= n <= s@.len(),
        r matches Err(e) ==> spec_parse_i32(s@) == Err::<(i32, int), DecodeError>(e),
{
    match parse_tlv_header(s) {
        Err(e) => Err(e),
        Ok((tag, cs, cl)) => {
            if tag != TAG_INTEGER {
                return Err(DecodeError::UnexpectedTag);
            }
            if cl < 1 || cl > 4 {
                return Err(DecodeError::InvalidLength);
            }
            let slen: usize = s.len();
            proof {
                assert(cs + cl <= slen);
            }
            let content = vstd::slice::slice_subrange(s, cs, cs + cl);
            let v = parse_i32_content(content);
            Ok((v, cs + cl))
        },
    }
}

/// Parse bindings to the end of the slice.
pub(crate) fn parse_bindings(s: &[u8]) -> (r: Result<Vec<VarBinding>, DecodeError>)
    ensures
        r matches Ok(bs) ==> spec_parse_bindings(s@) == Ok::<Seq<VarBindingModel>, DecodeError>(
            vb_models(bs@),
        ),
        r matches Err(e) ==> spec_parse_bindings(s@) == Err::<Seq<VarBindingModel>, DecodeError>(e),
    decreases s@.len(),
{
    if s.len() == 0 {
        let r: Vec<VarBinding> = Vec::new();
        proof {
            assert(vb_models(r@) =~= Seq::<VarBindingModel>::empty());
        }
        return Ok(r);
    }
    match parse_varbinding(s) {
        Err(e) => Err(e),
        Ok((b, n)) => {
            let tail = vstd::slice::slice_subrange(s, n, s.len());
            proof {
                assert(tail@ =~= s@.skip(n as int));
            }
            match parse_bindings(tail) {
                Err(e) => Err(e),
                Ok(mut rest) => {
                    let ghost rest0 = vb_models(rest@);
                    rest.insert(0, b);
                    proof {
                        assert(vb_models(rest@) =~= seq![rest@[0]@] + rest0);
                    }
                    Ok(rest)
                },
            }
        },
    }
}

// ---------------------------------------------------------------------------
// Round-trip proofs.
// ---------------------------------------------------------------------------

pub proof fn lemma_i32_tlv_round_trip(v: i32, rest: Seq<u8>)
    ensures
        int_tlv(v).len() <= 6,
        spec_parse_i32(int_tlv(v) + rest) == Ok::<(i32, int), DecodeError>((
            v,
            int_tlv(v).len() as int,
        )),
{
    let content = int_content(v as int);
    lemma_pow256_unfold_8();
    lemma_int_content_props(v as int);
    lemma_int_content_len(v as int, 4);
    lemma_parse_tlv_of_tlv(TAG_INTEGER, content, rest);
    assert((sval_be(content) as i32) == v);
}

#[verifier::rlimit(100)]
#[verifier::spinoff_prover]
pub proof fn lemma_bindings_round_trip(bs: Seq<VarBindingModel>)
    requires
        bindings_wf(bs),
    ensures
        spec_parse_bindings(spec_encode_bindings(bs)) == Ok::<Seq<VarBindingModel>, DecodeError>(
            bs,
        ),
    decreases bs.len(),
{
    if bs.len() == 0 {
        assert(bs =~= Seq::<VarBindingModel>::empty());
    } else {
        let head = bs[0];
        let enc = spec_encode_varbinding(head);
        let rest = spec_encode_bindings(bs.skip(1));
        let s = spec_encode_bindings(bs);
        assert(s =~= enc + rest);
        lemma_varbinding_round_trip(head, rest);
        assert(enc.len() >= 1) by {
            lemma_varbinding_enc_len(head);
        }
        let n: int = enc.len() as int;
        assert(s.skip(n) =~= rest);
        lemma_bindings_round_trip(bs.skip(1));
        assert(seq![head] + bs.skip(1) =~= bs);
    }
}

/// An encoded binding is never empty and stays below the length limit.
pub proof fn lemma_varbinding_enc_len(b: VarBindingModel)
    requires
        b.wf(),
    ensures
        1 <= spec_encode_varbinding(b).len() <= 0xFFFFFFFF,
{
    lemma_oid_content_len(b.name);
    lemma_tlv_len(crate::types::TAG_OID, oid_content(b.name));
    lemma_value_enc_len(b.value);
    lemma_tlv_len(
        TAG_SEQUENCE,
        tlv(crate::types::TAG_OID, oid_content(b.name)) + crate::types::spec_encode_value(b.value),
    );
}

/// Decoding inverts encoding for whole PDUs, whatever follows the frame.
#[verifier::rlimit(100)]
#[verifier::spinoff_prover]
pub proof fn lemma_pdu_round_trip(p: PduModel, rest: Seq<u8>)
    requires
        p.wf(),
        spec_encode_bindings(p.bindings).len() <= 0x7FFFFFFF,
    ensures
        spec_parse_pdu(spec_encode_pdu(p) + rest) == Ok::<(PduModel, int), DecodeError>((
            p,
            spec_encode_pdu(p).len() as int,
        )),
{
    let i1 = int_tlv(p.request_id);
    let i2 = int_tlv(p.err_status);
    let i3 = int_tlv(p.err_index);
    let list = spec_encode_bindings(p.bindings);
    let btlv = tlv(TAG_SEQUENCE, list);
    let c = i1 + i2 + i3 + btlv;
    lemma_i32_tlv_round_trip(p.request_id, i2 + i3 + btlv);
    lemma_i32_tlv_round_trip(p.err_status, i3 + btlv);
    lemma_i32_tlv_round_trip(p.err_index, btlv);
    lemma_tlv_len(TAG_SEQUENCE, list);
    lemma_parse_tlv_of_tlv(TAG_SEQUENCE, list, Seq::empty());
    lemma_parse_tlv_of_tlv(spec_into_tag(p.tag), c, rest);
    lemma_pdu_tag_bijection();
    let n1: int = i1.len() as int;
    let n2: int = i2.len() as int;
    let n3: int = i3.len() as int;
    assert(c =~= i1 + (i2 + i3 + btlv));
    assert(c.skip(n1) =~= i2 + (i3 + btlv));
    assert(c.skip(n1 + n2) =~= i3 + btlv);
    assert(c.skip(n1 + n2 + n3) =~= btlv + Seq::<u8>::empty());
    lemma_bindings_round_trip(p.bindings);
    assert(n1 + n2 + n3 + btlv.len() == c.len());
}

/// Setting the bulk fields writes exactly (non-repeaters, max-repetitions)
/// into the second and third integer fields of the encoding, whatever the
/// two slots held before.
pub proof fn lemma_bulk_repetitions_encoding(p: PduModel, num_repeaters: i32, max_repetitions: i32)
    ensures
        spec_encode_pdu(
            PduModel { err_status: num_repeaters, err_index: max_repetitions, ..p },
        ) == tlv(
            spec_into_tag(p.tag),
            int_tlv(p.request_id) + int_tlv(num_repeaters) + int_tlv(max_repetitions) + tlv(
                TAG_SEQUENCE,
                spec_encode_bindings(p.bindings),
            ),
        ),
{
}

// ---------------------------------------------------------------------------
// Messages.
// ---------------------------------------------------------------------------

/// The mathematical model of a message.
pub struct MessageModel {
    pub version: Version,
    pub community: Seq<u8>,
    pub data: PduModel,
}

impl MessageModel {
    pub open spec fn wf(self) -> bool {
        &&& self.community.len() <= 0x7FFFFFF0
        &&& self.data.wf()
    }
}

/// The outer envelope: version, community octet string and one PDU inside
/// a universal sequence.
pub open spec fn spec_encode_message(m: MessageModel) -> Seq<u8> {
    tlv(
        TAG_SEQUENCE,
        spec_encode_version(m.version) + tlv(TAG_OCTET_STRING, m.community) + spec_encode_pdu(
            m.data,
        ),
    )
}

pub open spec fn spec_parse_message(s: Seq<u8>) -> Result<(MessageModel, int), DecodeError> {
    match spec_parse_tlv(s) {
        Err(e) => Err(e),
        Ok((tag, c, n)) => if tag != TAG_SEQUENCE {
            Err(DecodeError::UnexpectedTag)
        } else {
            match spec_parse_version(c) {
                Err(e) => Err(e),
                Ok((version, n1)) => match spec_parse_tlv(c.skip(n1)) {
                    Err(e) => Err(e),
                    Ok((t2, community, n2)) => if t2 != TAG_OCTET_STRING {
                        Err(DecodeError::UnexpectedTag)
                    } else {
                        match spec_parse_pdu(c.skip(n1 + n2)) {
                            Err(e) => Err(e),
                            Ok((data, n3)) => if n1 + n2 + n3 == c.len() {
                                Ok((MessageModel { version, community, data }, n))
                            } else {
                                Err(DecodeError::InvalidLength)
                            },
                        }
                    },
                },
            }
        },
    }
}

/// The outer envelope around one PDU.
#[derive(Debug)]
pub struct Message {
    version: Version,
    community: Vec<u8>,
    data: Pdu,
}

impl View for Message {
    type V = MessageModel;

    closed spec fn view(&self) -> MessageModel {
        MessageModel { version: self.version, community: self.community@, data: self.data@ }
    }
}

impl Message {
    /// A message carrying the community as its UTF-8 octets.
    pub fn new(version: Version, community: &str, data: Pdu) -> (r: Message)
        ensures
            r@.version == version,
            r@.community == community.spec_bytes(),
            r@.data == data@,
    {
        let bytes = vstd::slice::slice_to_vec(community.as_bytes());
        Message { version, community: bytes, data }
    }

    pub fn data(&self) -> (r: &Pdu)
        ensures
            r@ == self@.data,
    {
        &self.data
    }

    /// The PDU, surrendered.
    pub fn into_data(self) -> (r: Pdu)
        ensures
            r@ == self@.data,
    {
        self.data
    }

    /// The complete frame of this message.
    pub fn encode(&self) -> (r: Vec<u8>)
        ensures
            r@ == spec_encode_message(self@),
    {
        let mut out: Vec<u8> = Vec::new();
        self.encode_into(&mut out);
        out
    }

    /// Append the complete frame of this message.
    pub fn encode_into(&self, out: &mut Vec<u8>)
        ensures
            final(out)@ == old(out)@ + spec_encode_message(self@),
    {
        let mut content: Vec<u8> = Vec::new();
        self.version.encode_into(&mut content);
        append_tlv(TAG_OCTET_STRING, &self.community, &mut content);
        self.data.encode_into(&mut content);
        append_tlv(TAG_SEQUENCE, &content, out);
        proof {
            assert(content@ =~= spec_encode_version(self@.version) + tlv(
                TAG_OCTET_STRING,
                self@.community,
            ) + spec_encode_pdu(self@.data));
        }
    }

    /// Parse one message from the front of the slice.
    pub fn parse(s: &[u8]) -> (r: Result<(Message, usize), DecodeError>)
        ensures
            r matches Ok((m, n)) ==> spec_parse_message(s@) == Ok::<
                (MessageModel, int),
                DecodeError,
            >((m@, n as int)) && n <= s@.len(),
            r matches Err(e) ==> spec_parse_message(s@) == Err::<(MessageModel, int), DecodeError>(
                e,
            ),
    {
        match parse_tlv_header(s) {
            Err(e) => Err(e),
            Ok((tag, cs, cl)) => {
                if tag != TAG_SEQUENCE {
                    return Err(DecodeError::UnexpectedTag);
                }
                let slen: usize = s.len();
                proof {
                    assert(cs + cl <= slen);
                }
                let c = vstd::slice::slice_subrange(s, cs, cs + cl);
                let (version, n1) = match Version::parse(c) {
                    Ok(x) => x,
                    Err(e) => {
                        return Err(e);
                    },
                };
                proof {
                    lemma_spec_parse_version_len(c@);
                }
                let after1 = vstd::slice::slice_subrange(c, n1, cl);
                proof {
                    assert(after1@ =~= c@.skip(n1 as int));
                }
                match parse_tlv_header(after1) {
                    Err(e) => Err(e),
                    Ok((t2, cs2, cl2)) => {
                        if t2 != TAG_OCTET_STRING {
                            return Err(DecodeError::UnexpectedTag);
                        }
                        let community = vstd::slice::slice_to_vec(
                            vstd::slice::slice_subrange(after1, cs2, cs2 + cl2),
                        );
                        let after2 = vstd::slice::slice_subrange(c, n1 + (cs2 + cl2), cl);
                        proof {
                            assert(after2@ =~= c@.skip(n1 + (cs2 + cl2)));
                        }
                        let (data, n3) = match Pdu::parse(after2) {
                            Ok(x) => x,
                            Err(e) => {
                                return Err(e);
                            },
                        };
                        if n1 + (cs2 + cl2) + n3 == cl {
                            Ok((Message { version, community, data }, cs + cl))
                        } else {
                            Err(DecodeError::InvalidLength)
                        }
                    },
                }
            },
        }
    }

    /// Decode a complete byte string as exactly one message.
    pub fn decode(bytes: &[u8]) -> (r: Result<Message, DecodeError>)
        ensures
            r matches Ok(m) ==> spec_parse_message(bytes@) == Ok::<
                (MessageModel, int),
                DecodeError,
            >((m@, bytes@.len() as int)),
            r matches Err(e) ==> match spec_parse_message(bytes@) {
                Ok((m, n)) => n != bytes@.len() && e == DecodeError::InvalidLength,
                Err(e2) => e == e2,
            },
    {
        match Message::parse(bytes) {
            Err(e) => Err(e),
            Ok((m, n)) => if n == bytes.len() {
                Ok(m)
            } else {
                Err(DecodeError::InvalidLength)
            },
        }
    }
}

/// A parsed version consumes at least one and at most all octets.
pub proof fn lemma_spec_parse_version_len(s: Seq<u8>)
    ensures
        spec_parse_version(s) matches Ok((v, n)) ==> 1 <= n <= s.len(),
{
}

/// Decoding inverts encoding for whole messages, whatever follows the
/// frame.
#[verifier::rlimit(100)]
#[verifier::spinoff_prover]
pub proof fn lemma_message_round_trip(m: MessageModel, rest: Seq<u8>)
    requires
        m.wf(),
        spec_encode_bindings(m.data.bindings).len() <= 0x7FFFFFFF,
        spec_encode_pdu(m.data).len() + m.community.len() <= 0xFFFFFFF0,
    ensures
        spec_parse_message(spec_encode_message(m) + rest) == Ok::<(MessageModel, int), DecodeError>(
            (m, spec_encode_message(m).len() as int),
        ),
{
    let v = spec_encode_version(m.version);
    let ctlv = tlv(TAG_OCTET_STRING, m.community);
    let penc = spec_encode_pdu(m.data);
    let c = v + ctlv + penc;
    lemma_version_round_trip(m.version, ctlv + penc);
    lemma_tlv_len(TAG_OCTET_STRING, m.community);
    lemma_parse_tlv_of_tlv(TAG_OCTET_STRING, m.community, penc);
    lemma_pdu_round_trip(m.data, Seq::empty());
    lemma_parse_tlv_of_tlv(TAG_SEQUENCE, c, rest);
    let n1: int = v.len() as int;
    let n2: int = ctlv.len() as int;
    assert(c =~= v + (ctlv + penc));
    assert(c.skip(n1) =~= ctlv + penc);
    assert(c.skip(n1 + n2) =~= penc + Seq::<u8>::empty());
    assert(n1 + n2 + penc.len() == c.len());
}

} // verus!
