//! The tagged value types carried in variable bindings, the protocol
//! version, and the (name, value) pair itself, with their wire encodings.
//!
//! Every encodable type has a mathematical model (its view), a spec-level
//! encoding into bytes, a spec-level parser, and executable code proved to
//! agree with both.  Round-trip lemmas show that decoding an encoding gives
//! the value back.

use crate::ber::append_base128;
use crate::ber::be_bytes;
use crate::ber::lemma_be_bytes_len;
use crate::ber::append_i32_content;
use crate::ber::append_tlv;
use crate::ber::append_uint_content;
use crate::ber::base128;
use crate::ber::be_u64;
use crate::ber::int_content;
use crate::ber::lemma_arc_end_bounds;
use crate::ber::lemma_b128_groups_len;
use crate::ber::lemma_int_content_len;
use crate::ber::lemma_int_content_props;
use crate::ber::lemma_parse_arc_of_base128;
use crate::ber::lemma_parse_tlv_of_tlv;
use crate::ber::lemma_pow128_unfold_5;
use crate::ber::lemma_pow256_unfold_8;
use crate::ber::lemma_uint_content_len;
use crate::ber::lemma_uint_content_props;
use crate::ber::parse_arc;
use crate::ber::parse_i32_content;
use crate::ber::parse_tlv_header;
use crate::ber::pow128;
use crate::ber::spec_parse_arc;
use crate::ber::spec_parse_tlv;
use crate::ber::sval_be;
use crate::ber::tlv;
use crate::ber::uint_content;
use crate::ber::val_be;
use crate::ber::DecodeError;
use vstd::prelude::*;

verus! {

// Tags of the structure-of-management-information scheme; part of the wire
// contract.
pub const TAG_INTEGER: u8 = 0x02;
pub const TAG_OCTET_STRING: u8 = 0x04;
pub const TAG_NULL: u8 = 0x05;
pub const TAG_OID: u8 = 0x06;
pub const TAG_SEQUENCE: u8 = 0x30;
pub const TAG_IPADDR: u8 = 0x40;
pub const TAG_COUNTER32: u8 = 0x41;
pub const TAG_GAUGE32: u8 = 0x42;
pub const TAG_TIMETICKS: u8 = 0x43;
pub const TAG_OPAQUE: u8 = 0x44;
pub const TAG_COUNTER64: u8 = 0x46;
pub const TAG_NOSUCHOBJECT: u8 = 0x80;
pub const TAG_NOSUCHINSTANCE: u8 = 0x81;
pub const TAG_ENDOFMIBVIEW: u8 = 0x82;

// ---------------------------------------------------------------------------
// Object identifiers.
// ---------------------------------------------------------------------------

/// What makes a sequence of arcs a valid object identifier: at least two
/// arcs, the first at most 2, and a second below 40 wherever the first is
/// below 2.
pub open spec fn oid_wf(arcs: Seq<u32>) -> bool {
    &&& arcs.len() >= 2
    &&& arcs[0] <= 2
    &&& (arcs[0] < 2 ==> arcs[1] < 40)
}

/// A dotted sequence of non-negative integers naming a managed variable or
/// subtree.
#[derive(Debug)]
pub struct ObjectIdentifier {
    arcs: Vec<u32>,
}

impl View for ObjectIdentifier {
    type V = Seq<u32>;

    closed spec fn view(&self) -> Seq<u32> {
        self.arcs@
    }
}

impl ObjectIdentifier {
    /// Every value of this type holds a valid arc sequence.
    #[verifier::type_invariant]
    pub open spec fn wf(self) -> bool {
        oid_wf(self@)
    }

    /// Accepts exactly the valid arc sequences.
    pub fn new(arcs: Vec<u32>) -> (r: Option<ObjectIdentifier>)
        ensures
            r is Some <==> oid_wf(arcs@),
            r matches Some(o) ==> o@ == arcs@,
    {
        if arcs.len() >= 2 && arcs[0] <= 2 && (arcs[0] == 2 || arcs[1] < 40) {
            Some(ObjectIdentifier { arcs })
        } else {
            None
        }
    }

    /// The arcs, in order.
    pub fn arcs(&self) -> (r: &Vec<u32>)
        ensures
            r@ == self@,
    {
        &self.arcs
    }
}

impl Clone for ObjectIdentifier {
    fn clone(&self) -> (r: Self)
        ensures
            r@ == self@,
    {
        proof {
            use_type_invariant(self);
        }
        let arcs = self.arcs.clone();
        proof {
            assert(arcs@ =~= self.arcs@);
        }
        ObjectIdentifier { arcs }
    }
}

impl PartialEq for ObjectIdentifier {
    fn eq(&self, other: &Self) -> (r: bool) {
        if self.arcs.len() != other.arcs.len() {
            return false;
        }
        let mut i: usize = 0;
        while i < self.arcs.len()
            invariant
                0 <= i <= self.arcs@.len(),
                self.arcs@.len() == other.arcs@.len(),
                forall|j: int| 0 <= j < i ==> self.arcs@[j] == other.arcs@[j],
            decreases self.arcs@.len() - i,
        {
            if self.arcs[i] != other.arcs[i] {
                return false;
            }
            i = i + 1;
        }
        proof {
            assert(self.arcs@ =~= other.arcs@);
        }
        true
    }
}

impl vstd::std_specs::cmp::PartialEqSpecImpl for ObjectIdentifier {
    open spec fn obeys_eq_spec() -> bool {
        true
    }

    open spec fn eq_spec(&self, other: &Self) -> bool {
        self@ == other@
    }
}

/// Content octets of an arc sequence past the leading pair.
pub open spec fn arcs_content(arcs: Seq<u32>) -> Seq<u8>
    decreases arcs.len(),
{
    if arcs.len() == 0 {
        Seq::empty()
    } else {
        base128(arcs[0] as nat) + arcs_content(arcs.skip(1))
    }
}

/// Content octets of an object identifier: the first two arcs packed into
/// one number, then each further arc in base-128.
pub open spec fn oid_content(arcs: Seq<u32>) -> Seq<u8>
    recommends
        arcs.len() >= 2,
{
    base128((40 * arcs[0] + arcs[1]) as nat) + arcs_content(arcs.skip(2))
}

/// Parse arcs to the end of the string.
pub open spec fn spec_parse_rest_arcs(s: Seq<u8>) -> Result<Seq<u32>, DecodeError>
    decreases s.len(),
{
    if s.len() == 0 {
        Ok(Seq::empty())
    } else {
        match spec_parse_arc(s) {
            Err(e) => Err(e),
            Ok((v, n)) => if v > u32::MAX {
                Err(DecodeError::InvalidLength)
            } else if n < 1 || n > s.len() {
                Err(DecodeError::InvalidLength)
            } else {
                match spec_parse_rest_arcs(s.skip(n)) {
                    Err(e) => Err(e),
                    Ok(rest) => Ok(seq![v as u32] + rest),
                }
            },
        }
    }
}

/// Parse a whole object-identifier content field: unpack the leading pair,
/// then the remaining arcs.
pub open spec fn spec_parse_oid_arcs(s: Seq<u8>) -> Result<Seq<u32>, DecodeError> {
    match spec_parse_arc(s) {
        Err(e) => Err(e),
        Ok((c, n)) => if n < 1 || n > s.len() {
            Err(DecodeError::InvalidLength)
        } else {
            match spec_parse_rest_arcs(s.skip(n)) {
                Err(e) => Err(e),
                Ok(tail) => if c < 40 {
                    Ok(seq![0u32, c as u32] + tail)
                } else if c < 80 {
                    Ok(seq![1u32, (c - 40) as u32] + tail)
                } else if c - 80 <= u32::MAX {
                    Ok(seq![2u32, (c - 80) as u32] + tail)
                } else {
                    Err(DecodeError::InvalidLength)
                },
            }
        },
    }
}

/// One arc below `2^33` fits in five base-128 groups.
pub proof fn lemma_base128_len(n: nat)
    requires
        n < 0x200000000,
    ensures
        1 <= base128(n).len() <= 5,
{
    lemma_pow128_unfold_5();
    assert(n / 128 < pow128(4));
    lemma_b128_groups_len(n / 128, 4);
}

pub proof fn lemma_rest_arcs_round_trip(arcs: Seq<u32>)
    ensures
        spec_parse_rest_arcs(arcs_content(arcs)) == Ok::<Seq<u32>, DecodeError>(arcs),
    decreases arcs.len(),
{
    if arcs.len() == 0 {
        assert(arcs_content(arcs).len() == 0);
        assert(arcs =~= Seq::<u32>::empty());
    } else {
        let head: nat = arcs[0] as nat;
        let enc = base128(head);
        let rest = arcs_content(arcs.skip(1));
        lemma_base128_len(head);
        lemma_parse_arc_of_base128(head, rest);
        let s = arcs_content(arcs);
        assert(s =~= enc + rest);
        let n: int = enc.len() as int;
        assert(s.skip(n) =~= rest);
        lemma_rest_arcs_round_trip(arcs.skip(1));
        assert(seq![arcs[0]] + arcs.skip(1) =~= arcs);
    }
}

pub proof fn lemma_oid_content_round_trip(arcs: Seq<u32>)
    requires
        oid_wf(arcs),
    ensures
        spec_parse_oid_arcs(oid_content(arcs)) == Ok::<Seq<u32>, DecodeError>(arcs),
{
    let c: nat = (40 * arcs[0] + arcs[1]) as nat;
    let enc = base128(c);
    let rest = arcs_content(arcs.skip(2));
    assert(c < 0x200000000);
    lemma_base128_len(c);
    lemma_parse_arc_of_base128(c, rest);
    let s = oid_content(arcs);
    assert(s =~= enc + rest);
    let n: int = enc.len() as int;
    assert(s.skip(n) =~= rest);
    lemma_rest_arcs_round_trip(arcs.skip(2));
    if arcs[0] == 0 {
        assert(seq![0u32, c as u32] + arcs.skip(2) =~= arcs);
    } else if arcs[0] == 1 {
        assert(40 <= c < 80);
        assert(seq![1u32, (c - 40) as u32] + arcs.skip(2) =~= arcs);
    } else {
        assert(c >= 80);
        assert(c - 80 == arcs[1]);
        assert(seq![2u32, (c - 80) as u32] + arcs.skip(2) =~= arcs);
    }
}

/// Append the content octets of an object identifier.
pub(crate) fn append_oid_content(o: &ObjectIdentifier, out: &mut Vec<u8>)
    ensures
        final(out)@ == old(out)@ + oid_content(o@),
{
    proof {
        use_type_invariant(o);
    }
    let first: u64 = 40 * (o.arcs[0] as u64) + (o.arcs[1] as u64);
    append_base128(first, out);
    let ghost base = out@;
    let mut i: usize = 2;
    proof {
        assert(base + arcs_content(o@.skip(2)) == old(out)@ + oid_content(o@));
    }
    while i < o.arcs.len()
        invariant
            2 <= i <= o.arcs@.len(),
            out@ + arcs_content(o@.skip(i as int)) == old(out)@ + oid_content(o@),
        decreases o.arcs@.len() - i,
    {
        let ghost before = out@;
        append_base128(o.arcs[i] as u64, out);
        proof {
            let tail = o@.skip(i as int);
            assert(tail[0] == o@[i as int]);
            assert(tail.skip(1) =~= o@.skip(i + 1));
            assert(arcs_content(tail) == base128(o@[i as int] as nat) + arcs_content(
                o@.skip(i + 1),
            ));
            assert(out@ + arcs_content(o@.skip(i + 1)) =~= before + arcs_content(tail));
        }
        i = i + 1;
    }
    proof {
        assert(arcs_content(o@.skip(o.arcs@.len() as int)).len() == 0) by {
            assert(o@.skip(o.arcs@.len() as int).len() == 0);
        }
        assert(out@ =~= out@ + arcs_content(o@.skip(o.arcs@.len() as int)));
    }
}

/// Parse arcs to the end of the slice.
pub(crate) fn parse_rest_arcs(s: &[u8]) -> (r: Result<Vec<u32>, DecodeError>)
    ensures
        r matches Ok(arcs) ==> spec_parse_rest_arcs(s@) == Ok::<Seq<u32>, DecodeError>(arcs@),
        r matches Err(e) ==> spec_parse_rest_arcs(s@) == Err::<Seq<u32>, DecodeError>(e),
    decreases s@.len(),
{
    if s.len() == 0 {
        let r: Vec<u32> = Vec::new();
        proof {
            assert(r@ =~= Seq::<u32>::empty());
        }
        return Ok(r);
    }
    match parse_arc(s) {
        Err(e) => Err(e),
        Ok((v, n)) => {
            if v > u32::MAX as u64 {
                return Err(DecodeError::InvalidLength);
            }
            let tail = vstd::slice::slice_subrange(s, n, s.len());
            proof {
                assert(tail@ =~= s@.skip(n as int));
            }
            match parse_rest_arcs(tail) {
                Err(e) => Err(e),
                Ok(mut rest) => {
                    let ghost rest0 = rest@;
                    rest.insert(0, v as u32);
                    proof {
                        assert(rest@ =~= seq![v as u32] + rest0);
                    }
                    Ok(rest)
                },
            }
        },
    }
}

/// Parse a whole object-identifier content field.
pub(crate) fn parse_oid_arcs(s: &[u8]) -> (r: Result<Vec<u32>, DecodeError>)
    ensures
        r matches Ok(arcs) ==> spec_parse_oid_arcs(s@) == Ok::<Seq<u32>, DecodeError>(arcs@)
            && oid_wf(arcs@),
        r matches Err(e) ==> spec_parse_oid_arcs(s@) == Err::<Seq<u32>, DecodeError>(e),
{
    match parse_arc(s) {
        Err(e) => Err(e),
        Ok((c, n)) => {
            proof {
                lemma_arc_end_bounds(s@);
                lemma_pow128_unfold_5();
            }
            let tail = vstd::slice::slice_subrange(s, n, s.len());
            proof {
                assert(tail@ =~= s@.skip(n as int));
            }
            match parse_rest_arcs(tail) {
                Err(e) => Err(e),
                Ok(mut rest) => {
                    let ghost rest0 = rest@;
                    if c < 40 {
                        rest.insert(0, c as u32);
                        rest.insert(0, 0u32);
                        proof {
                            assert(rest@ =~= seq![0u32, c as u32] + rest0);
                        }
                        Ok(rest)
                    } else if c < 80 {
                        rest.insert(0, (c - 40) as u32);
                        rest.insert(0, 1u32);
                        proof {
                            assert(rest@ =~= seq![1u32, (c - 40) as u32] + rest0);
                        }
                        Ok(rest)
                    } else if c - 80 <= u32::MAX as u64 {
                        rest.insert(0, (c - 80) as u32);
                        rest.insert(0, 2u32);
                        proof {
                            assert(rest@ =~= seq![2u32, (c - 80) as u32] + rest0);
                        }
                        Ok(rest)
                    } else {
                        Err(DecodeError::InvalidLength)
                    }
                },
            }
        },
    }
}

// ---------------------------------------------------------------------------
// TimeTicks.
// ---------------------------------------------------------------------------

/// An unsigned 32-bit centisecond counter; wraps at `2^32`.
#[derive(Clone, Copy, PartialEq, Eq, Structural, Debug)]
pub struct TimeTicks {
    ticks: u32,
}

impl View for TimeTicks {
    type V = u32;

    closed spec fn view(&self) -> u32 {
        self.ticks
    }
}

impl TimeTicks {
    pub fn new(ticks: u32) -> (r: TimeTicks)
        ensures
            r@ == ticks,
    {
        TimeTicks { ticks }
    }

    /// The raw centisecond count.
    pub fn ticks(&self) -> (r: u32)
        ensures
            r == self@,
    {
        self.ticks
    }

    /// A count taken from a duration in milliseconds, truncated to 32 bits
    /// as the wire type wraps.
    pub fn from_millis(ms: u128) -> (r: TimeTicks)
        ensures
            r@ == (ms as nat / 10) % 0x100000000,
    {
        let t: u128 = (ms / 10) % 0x100000000;
        let ticks: u32 = t as u32;
        TimeTicks { ticks }
    }

    /// The complete frame of this count under its own application tag.
    pub fn encode(&self) -> (r: Vec<u8>)
        ensures
            r@ == tlv(TAG_TIMETICKS, uint_content(self@ as nat)),
    {
        let mut content: Vec<u8> = Vec::new();
        append_uint_content(self.ticks as u64, &mut content);
        let mut out: Vec<u8> = Vec::new();
        append_tlv(TAG_TIMETICKS, &content, &mut out);
        proof {
            assert(out@ =~= tlv(TAG_TIMETICKS, uint_content(self@ as nat)));
        }
        out
    }

    /// The centisecond count split into days, hours, minutes, seconds and
    /// hundredths, for display; the wire value is untouched by this.
    pub fn decompose(&self) -> (r: (u32, u32, u32, u32, u32))
        ensures
            r.4 == self@ as nat % 100,
            r.3 == (self@ as nat / 100) % 60,
            r.2 == (self@ as nat / 100 / 60) % 60,
            r.1 == (self@ as nat / 100 / 60 / 60) % 24,
            r.0 == self@ as nat / 100 / 60 / 60 / 24,
    {
        let mut t: u32 = self.ticks;
        let hundredths: u32 = t % 100;
        t = t / 100;
        let secs: u32 = t % 60;
        t = t / 60;
        let minutes: u32 = t % 60;
        t = t / 60;
        let hours: u32 = t % 24;
        let days: u32 = t / 24;
        (days, hours, minutes, secs, hundredths)
    }
}

// ---------------------------------------------------------------------------
// Version.
// ---------------------------------------------------------------------------

/// Protocol version of the outer message.
#[derive(Clone, Copy, Debug, PartialEq, Eq, Structural)]
pub enum Version {
    V1,
    V2C,
    V3,
}

/// The integer each version is carried as on the wire.
pub open spec fn version_number(v: Version) -> int {
    match v {
        Version::V1 => 0,
        Version::V2C => 1,
        Version::V3 => 2,
    }
}

pub open spec fn spec_encode_version(v: Version) -> Seq<u8> {
    tlv(TAG_INTEGER, int_content(version_number(v)))
}

pub open spec fn spec_parse_version(s: Seq<u8>) -> Result<(Version, int), DecodeError> {
    match spec_parse_tlv(s) {
        Err(e) => Err(e),
        Ok((tag, c, n)) => if tag != TAG_INTEGER {
            Err(DecodeError::UnexpectedTag)
        } else if c.len() < 1 || c.len() > 4 {
            Err(DecodeError::InvalidLength)
        } else if sval_be(c) == 0 {
            Ok((Version::V1, n))
        } else if sval_be(c) == 1 {
            Ok((Version::V2C, n))
        } else if sval_be(c) == 2 {
            Ok((Version::V3, n))
        } else {
            Err(DecodeError::InvalidVersion)
        },
    }
}

impl Version {
    pub fn encode(&self) -> (r: Vec<u8>)
        ensures
            r@ == spec_encode_version(*self),
    {
        let mut out: Vec<u8> = Vec::new();
        self.encode_into(&mut out);
        out
    }

    pub fn encode_into(&self, out: &mut Vec<u8>)
        ensures
            final(out)@ == old(out)@ + spec_encode_version(*self),
    {
        let number: i32 = match self {
            Version::V1 => 0,
            Version::V2C => 1,
            Version::V3 => 2,
        };
        let mut content: Vec<u8> = Vec::new();
        append_i32_content(number, &mut content);
        append_tlv(TAG_INTEGER, &content, out);
        proof {
            assert(content@ =~= int_content(version_number(*self)));
        }
    }

    /// Parse one version field from the front of the slice.
    pub fn parse(s: &[u8]) -> (r: Result<(Version, usize), DecodeError>)
        ensures
            r matches Ok((v, n)) ==> spec_parse_version(s@) == Ok::<(Version, int), DecodeError>((
                v,
                n as int,
            )),
            r matches Err(e) ==> spec_parse_version(s@) == Err::<(Version, int), DecodeError>(e),
    {
        match parse_tlv_header(s) {
            Err(e) => Err(e),
            Ok((tag, cs, cl)) => {
                if tag != TAG_INTEGER {
                    return Err(DecodeError::UnexpectedTag);
                }
                if cl < 1 || cl > 4 {
                    return Err(DecodeError::InvalidLength);
                }
                let content = vstd::slice::slice_subrange(s, cs, cs + cl);
                let v = parse_i32_content(content);
                match v {
                    0 => Ok((Version::V1, cs + cl)),
                    1 => Ok((Version::V2C, cs + cl)),
                    2 => Ok((Version::V3, cs + cl)),
                    _ => Err(DecodeError::InvalidVersion),
                }
            },
        }
    }
}

pub proof fn lemma_version_round_trip(v: Version, rest: Seq<u8>)
    ensures
        spec_parse_version(spec_encode_version(v) + rest) == Ok::<(Version, int), DecodeError>((
            v,
            spec_encode_version(v).len() as int,
        )),
{
    let content = int_content(version_number(v));
    lemma_int_content_props(version_number(v));
    lemma_int_content_len(version_number(v), 1);
    lemma_parse_tlv_of_tlv(TAG_INTEGER, content, rest);
}

// ---------------------------------------------------------------------------
// Values.
// ---------------------------------------------------------------------------

/// The mathematical model of a tagged value.
pub enum ValueModel {
    Null,
    Oid(Seq<u32>),
    Integer(i32),
    IpAddr(u8, u8, u8, u8),
    Gauge32(u32),
    Counter32(u32),
    Counter64(u64),
    Timeticks(u32),
    OctetStr(Seq<u8>),
    Opaque(Seq<u8>),
    NoSuchObject,
    NoSuchInstance,
    EndOfMIBView,
}

impl ValueModel {
    /// Valid arcs for a name, and contents small enough to frame.
    pub open spec fn wf(self) -> bool {
        match self {
            ValueModel::Oid(arcs) => oid_wf(arcs) && arcs.len() <= 0x0FFFFFFF,
            ValueModel::OctetStr(s) => s.len() <= 0x7FFFFFF0,
            ValueModel::Opaque(s) => s.len() <= 0x7FFFFFF0,
            _ => true,
        }
    }
}

pub open spec fn spec_encode_value(v: ValueModel) -> Seq<u8> {
    match v {
        ValueModel::Null => tlv(TAG_NULL, Seq::empty()),
        ValueModel::Oid(arcs) => tlv(TAG_OID, oid_content(arcs)),
        ValueModel::Integer(i) => tlv(TAG_INTEGER, int_content(i as int)),
        // The address octets go on the wire low-order first; the decoder
        // mirrors this, so the dotted quad survives a round trip.
        ValueModel::IpAddr(a, b, c, d) => tlv(TAG_IPADDR, seq![d, c, b, a]),
        ValueModel::Gauge32(n) => tlv(TAG_GAUGE32, uint_content(n as nat)),
        ValueModel::Counter32(n) => tlv(TAG_COUNTER32, uint_content(n as nat)),
        ValueModel::Counter64(n) => tlv(TAG_COUNTER64, uint_content(n as nat)),
        ValueModel::Timeticks(t) => tlv(TAG_TIMETICKS, uint_content(t as nat)),
        ValueModel::OctetStr(s) => tlv(TAG_OCTET_STRING, s),
        ValueModel::Opaque(s) => tlv(TAG_OPAQUE, s),
        ValueModel::NoSuchObject => tlv(TAG_NOSUCHOBJECT, Seq::empty()),
        ValueModel::NoSuchInstance => tlv(TAG_NOSUCHINSTANCE, Seq::empty()),
        ValueModel::EndOfMIBView => tlv(TAG_ENDOFMIBVIEW, Seq::empty()),
    }
}

/// Parse one value from the front of the string: the tag selects the
/// variant, and each variant checks its content.
pub open spec fn spec_parse_value(s: Seq<u8>) -> Result<(ValueModel, int), DecodeError> {
    match spec_parse_tlv(s) {
        Err(e) => Err(e),
        Ok((tag, c, n)) => if tag == TAG_NULL {
            if c.len() == 0 {
                Ok((ValueModel::Null, n))
            } else {
                Err(DecodeError::InvalidLength)
            }
        } else if tag == TAG_OID {
            match spec_parse_oid_arcs(c) {
                Err(e) => Err(e),
                Ok(arcs) => Ok((ValueModel::Oid(arcs), n)),
            }
        } else if tag == TAG_INTEGER {
            if 1 <= c.len() <= 4 {
                Ok((ValueModel::Integer(sval_be(c) as i32), n))
            } else {
                Err(DecodeError::InvalidLength)
            }
        } else if tag == TAG_IPADDR {
            if c.len() == 4 {
                Ok((ValueModel::IpAddr(c[3], c[2], c[1], c[0]), n))
            } else {
                Err(DecodeError::InvalidLength)
            }
        } else if tag == TAG_GAUGE32 {
            if 1 <= c.len() <= 5 && val_be(c) <= u32::MAX {
                Ok((ValueModel::Gauge32(val_be(c) as u32), n))
            } else {
                Err(DecodeError::InvalidLength)
            }
        } else if tag == TAG_COUNTER32 {
            if 1 <= c.len() <= 5 && val_be(c) <= u32::MAX {
                Ok((ValueModel::Counter32(val_be(c) as u32), n))
            } else {
                Err(DecodeError::InvalidLength)
            }
        } else if tag == TAG_TIMETICKS {
            if 1 <= c.len() <= 5 && val_be(c) <= u32::MAX {
                Ok((ValueModel::Timeticks(val_be(c) as u32), n))
            } else {
                Err(DecodeError::InvalidLength)
            }
        } else if tag == TAG_COUNTER64 {
            if 1 <= c.len() <= 9 && val_be(c) <= u64::MAX {
                Ok((ValueModel::Counter64(val_be(c) as u64), n))
            } else {
                Err(DecodeError::InvalidLength)
            }
        } else if tag == TAG_OCTET_STRING {
            Ok((ValueModel::OctetStr(c), n))
        } else if tag == TAG_OPAQUE {
            Ok((ValueModel::Opaque(c), n))
        } else if tag == TAG_NOSUCHOBJECT {
            if c.len() == 0 {
                Ok((ValueModel::NoSuchObject, n))
            } else {
                Err(DecodeError::InvalidLength)
            }
        } else if tag == TAG_NOSUCHINSTANCE {
            if c.len() == 0 {
                Ok((ValueModel::NoSuchInstance, n))
            } else {
                Err(DecodeError::InvalidLength)
            }
        } else if tag == TAG_ENDOFMIBVIEW {
            if c.len() == 0 {
                Ok((ValueModel::EndOfMIBView, n))
            } else {
                Err(DecodeError::InvalidLength)
            }
        } else {
            Err(DecodeError::UnexpectedTag)
        },
    }
}

pub proof fn lemma_arcs_content_len(arcs: Seq<u32>)
    ensures
        arcs_content(arcs).len() <= 5 * arcs.len(),
    decreases arcs.len(),
{
    if arcs.len() > 0 {
        lemma_base128_len(arcs[0] as nat);
        lemma_arcs_content_len(arcs.skip(1));
    }
}

pub proof fn lemma_oid_content_len(arcs: Seq<u32>)
    requires
        oid_wf(arcs),
    ensures
        oid_content(arcs).len() <= 5 * arcs.len(),
{
    lemma_base128_len((40 * arcs[0] + arcs[1]) as nat);
    lemma_arcs_content_len(arcs.skip(2));
}

/// Decoding inverts encoding, whatever follows the encoded value.
pub proof fn lemma_value_round_trip(v: ValueModel, rest: Seq<u8>)
    requires
        v.wf(),
    ensures
        spec_parse_value(spec_encode_value(v) + rest) == Ok::<(ValueModel, int), DecodeError>((
            v,
            spec_encode_value(v).len() as int,
        )),
{
    lemma_pow256_unfold_8();
    match v {
        ValueModel::Null => {
            lemma_parse_tlv_of_tlv(TAG_NULL, Seq::empty(), rest);
        },
        ValueModel::Oid(arcs) => {
            lemma_oid_content_len(arcs);
            lemma_parse_tlv_of_tlv(TAG_OID, oid_content(arcs), rest);
            lemma_oid_content_round_trip(arcs);
        },
        ValueModel::Integer(i) => {
            let content = int_content(i as int);
            lemma_int_content_props(i as int);
            lemma_int_content_len(i as int, 4);
            lemma_parse_tlv_of_tlv(TAG_INTEGER, content, rest);
            assert((sval_be(content) as i32) == i);
        },
        ValueModel::IpAddr(a, b, c, d) => {
            let content = seq![d, c, b, a];
            lemma_parse_tlv_of_tlv(TAG_IPADDR, content, rest);
            assert(content[3] == a && content[2] == b && content[1] == c && content[0] == d);
        },
        ValueModel::Gauge32(n) => {
            let content = uint_content(n as nat);
            lemma_uint_content_props(n as nat);
            lemma_uint_content_len(n as nat, 4);
            lemma_parse_tlv_of_tlv(TAG_GAUGE32, content, rest);
        },
        ValueModel::Counter32(n) => {
            let content = uint_content(n as nat);
            lemma_uint_content_props(n as nat);
            lemma_uint_content_len(n as nat, 4);
            lemma_parse_tlv_of_tlv(TAG_COUNTER32, content, rest);
        },
        ValueModel::Counter64(n) => {
            let content = uint_content(n as nat);
            lemma_uint_content_props(n as nat);
            lemma_uint_content_len(n as nat, 8);
            lemma_parse_tlv_of_tlv(TAG_COUNTER64, content, rest);
        },
        ValueModel::Timeticks(t) => {
            let content = uint_content(t as nat);
            lemma_uint_content_props(t as nat);
            lemma_uint_content_len(t as nat, 4);
            lemma_parse_tlv_of_tlv(TAG_TIMETICKS, content, rest);
        },
        ValueModel::OctetStr(s) => {
            lemma_parse_tlv_of_tlv(TAG_OCTET_STRING, s, rest);
        },
        ValueModel::Opaque(s) => {
            lemma_parse_tlv_of_tlv(TAG_OPAQUE, s, rest);
        },
        ValueModel::NoSuchObject => {
            lemma_parse_tlv_of_tlv(TAG_NOSUCHOBJECT, Seq::empty(), rest);
        },
        ValueModel::NoSuchInstance => {
            lemma_parse_tlv_of_tlv(TAG_NOSUCHINSTANCE, Seq::empty(), rest);
        },
        ValueModel::EndOfMIBView => {
            lemma_parse_tlv_of_tlv(TAG_ENDOFMIBVIEW, Seq::empty(), rest);
        },
    }
}

/// A tagged scalar value carried in a variable binding.
#[derive(Debug)]
pub enum Value {
    Null,
    Oid(ObjectIdentifier),
    Integer(i32),
    /// The four octets of the dotted quad `a.b.c.d`, in that order.
    IpAddr(u8, u8, u8, u8),
    Gauge32(u32),
    Counter32(u32),
    Counter64(u64),
    Timeticks(TimeTicks),
    OctetStr(Vec<u8>),
    Opaque(Vec<u8>),
    NoSuchObject,
    NoSuchInstance,
    EndOfMIBView,
}

impl View for Value {
    type V = ValueModel;

    open spec fn view(&self) -> ValueModel {
        match *self {
            Value::Null => ValueModel::Null,
            Value::Oid(ref o) => ValueModel::Oid(o@),
            Value::Integer(i) => ValueModel::Integer(i),
            Value::IpAddr(a, b, c, d) => ValueModel::IpAddr(a, b, c, d),
            Value::Gauge32(n) => ValueModel::Gauge32(n),
            Value::Counter32(n) => ValueModel::Counter32(n),
            Value::Counter64(n) => ValueModel::Counter64(n),
            Value::Timeticks(t) => ValueModel::Timeticks(t@),
            Value::OctetStr(ref s) => ValueModel::OctetStr(s@),
            Value::Opaque(ref s) => ValueModel::Opaque(s@),
            Value::NoSuchObject => ValueModel::NoSuchObject,
            Value::NoSuchInstance => ValueModel::NoSuchInstance,
            Value::EndOfMIBView => ValueModel::EndOfMIBView,
        }
    }
}

pub(crate) fn clone_bytes(s: &Vec<u8>) -> (r: Vec<u8>)
    ensures
        r@ == s@,
{
    vstd::slice::slice_to_vec(s.as_slice())
}

pub(crate) fn bytes_eq(a: &[u8], b: &[u8]) -> (r: bool)
    ensures
        r == (a@ == b@),
{
    if a.len() != b.len() {
        return false;
    }
    let mut i: usize = 0;
    while i < a.len()
        invariant
            0 <= i <= a@.len(),
            a@.len() == b@.len(),
            forall|j: int| 0 <= j < i ==> a@[j] == b@[j],
        decreases a@.len() - i,
    {
        if a[i] != b[i] {
            return false;
        }
        i = i + 1;
    }
    proof {
        assert(a@ =~= b@);
    }
    true
}

impl Clone for Value {
    fn clone(&self) -> (r: Self)
        ensures
            r@ == self@,
    {
        match self {
            Value::Null => Value::Null,
            Value::Oid(o) => Value::Oid(o.clone()),
            Value::Integer(i) => Value::Integer(*i),
            Value::IpAddr(a, b, c, d) => Value::IpAddr(*a, *b, *c, *d),
            Value::Gauge32(n) => Value::Gauge32(*n),
            Value::Counter32(n) => Value::Counter32(*n),
            Value::Counter64(n) => Value::Counter64(*n),
            Value::Timeticks(t) => Value::Timeticks(*t),
            Value::OctetStr(s) => Value::OctetStr(clone_bytes(s)),
            Value::Opaque(s) => Value::Opaque(clone_bytes(s)),
            Value::NoSuchObject => Value::NoSuchObject,
            Value::NoSuchInstance => Value::NoSuchInstance,
            Value::EndOfMIBView => Value::EndOfMIBView,
        }
    }
}

impl PartialEq for Value {
    fn eq(&self, other: &Self) -> (r: bool) {
        match (self, other) {
            (Value::Null, Value::Null) => true,
            (Value::Oid(a), Value::Oid(b)) => a == b,
            (Value::Integer(a), Value::Integer(b)) => *a == *b,
            (Value::IpAddr(a1, b1, c1, d1), Value::IpAddr(a2, b2, c2, d2)) => *a1 == *a2 && *b1
                == *b2 && *c1 == *c2 && *d1 == *d2,
            (Value::Gauge32(a), Value::Gauge32(b)) => *a == *b,
            (Value::Counter32(a), Value::Counter32(b)) => *a == *b,
            (Value::Counter64(a), Value::Counter64(b)) => *a == *b,
            (Value::Timeticks(a), Value::Timeticks(b)) => *a == *b,
            (Value::OctetStr(a), Value::OctetStr(b)) => bytes_eq(a.as_slice(), b.as_slice()),
            (Value::Opaque(a), Value::Opaque(b)) => bytes_eq(a.as_slice(), b.as_slice()),
            (Value::NoSuchObject, Value::NoSuchObject) => true,
            (Value::NoSuchInstance, Value::NoSuchInstance) => true,
            (Value::EndOfMIBView, Value::EndOfMIBView) => true,
            _ => false,
        }
    }
}

impl vstd::std_specs::cmp::PartialEqSpecImpl for Value {
    open spec fn obeys_eq_spec() -> bool {
        true
    }

    open spec fn eq_spec(&self, other: &Self) -> bool {
        self@ == other@
    }
}

impl Value {
    /// The complete frame of this value.
    pub fn encode(&self) -> (r: Vec<u8>)
        ensures
            r@ == spec_encode_value(self@),
    {
        let mut out: Vec<u8> = Vec::new();
        self.encode_into(&mut out);
        out
    }

    /// Append the complete frame of this value.
    pub fn encode_into(&self, out: &mut Vec<u8>)
        ensures
            final(out)@ == old(out)@ + spec_encode_value(self@),
    {
        match self {
            Value::Null => {
                let content: Vec<u8> = Vec::new();
                append_tlv(TAG_NULL, &content, out);
            },
            Value::Oid(o) => {
                let mut content: Vec<u8> = Vec::new();
                append_oid_content(o, &mut content);
                append_tlv(TAG_OID, &content, out);
            },
            Value::Integer(i) => {
                let mut content: Vec<u8> = Vec::new();
                append_i32_content(*i, &mut content);
                append_tlv(TAG_INTEGER, &content, out);
            },
            Value::IpAddr(a, b, c, d) => {
                let mut content: Vec<u8> = Vec::new();
                content.push(*d);
                content.push(*c);
                content.push(*b);
                content.push(*a);
                proof {
                    assert(content@ =~= seq![*d, *c, *b, *a]);
                }
                append_tlv(TAG_IPADDR, &content, out);
            },
            Value::Gauge32(n) => {
                let mut content: Vec<u8> = Vec::new();
                append_uint_content(*n as u64, &mut content);
                append_tlv(TAG_GAUGE32, &content, out);
            },
            Value::Counter32(n) => {
                let mut content: Vec<u8> = Vec::new();
                append_uint_content(*n as u64, &mut content);
                append_tlv(TAG_COUNTER32, &content, out);
            },
            Value::Counter64(n) => {
                let mut content: Vec<u8> = Vec::new();
                append_uint_content(*n, &mut content);
                append_tlv(TAG_COUNTER64, &content, out);
            },
            Value::Timeticks(t) => {
                let mut content: Vec<u8> = Vec::new();
                append_uint_content(t.ticks() as u64, &mut content);
                append_tlv(TAG_TIMETICKS, &content, out);
            },
            Value::OctetStr(s) => {
                append_tlv(TAG_OCTET_STRING, s, out);
            },
            Value::Opaque(s) => {
                append_tlv(TAG_OPAQUE, s, out);
            },
            Value::NoSuchObject => {
                let content: Vec<u8> = Vec::new();
                append_tlv(TAG_NOSUCHOBJECT, &content, out);
            },
            Value::NoSuchInstance => {
                let content: Vec<u8> = Vec::new();
                append_tlv(TAG_NOSUCHINSTANCE, &content, out);
            },
            Value::EndOfMIBView => {
                let content: Vec<u8> = Vec::new();
                append_tlv(TAG_ENDOFMIBVIEW, &content, out);
            },
        }
    }

    /// Parse one value from the front of the slice.
    pub fn parse(s: &[u8]) -> (r: Result<(Value, usize), DecodeError>)
        ensures
            r matches Ok((v, n)) ==> spec_parse_value(s@) == Ok::<(ValueModel, int), DecodeError>((
                v@,
                n as int,
            )) && n <= s@.len(),
            r matches Err(e) ==> spec_parse_value(s@) == Err::<(ValueModel, int), DecodeError>(e),
    {
        match parse_tlv_header(s) {
            Err(e) => Err(e),
            Ok((tag, cs, cl)) => {
                let slen: usize = s.len();
                proof {
                    assert(cs + cl <= slen);
                }
                let n: usize = cs + cl;
                let content = vstd::slice::slice_subrange(s, cs, cs + cl);
                if tag == TAG_NULL {
                    if cl == 0 {
                        Ok((Value::Null, n))
                    } else {
                        Err(DecodeError::InvalidLength)
                    }
                } else if tag == TAG_OID {
                    match parse_oid_arcs(content) {
                        Err(e) => Err(e),
                        Ok(arcs) => Ok((Value::Oid(ObjectIdentifier { arcs }), n)),
                    }
                } else if tag == TAG_INTEGER {
                    if 1 <= cl && cl <= 4 {
                        let v = parse_i32_content(content);
                        Ok((Value::Integer(v), n))
                    } else {
                        Err(DecodeError::InvalidLength)
                    }
                } else if tag == TAG_IPADDR {
                    if cl == 4 {
                        Ok((Value::IpAddr(content[3], content[2], content[1], content[0]), n))
                    } else {
                        Err(DecodeError::InvalidLength)
                    }
                } else if tag == TAG_GAUGE32 || tag == TAG_COUNTER32 || tag == TAG_TIMETICKS {
                    if 1 <= cl && cl <= 5 {
                        match be_u64(content) {
                            Some(v) => {
                                if v <= u32::MAX as u64 {
                                    let w = v as u32;
                                    if tag == TAG_GAUGE32 {
                                        Ok((Value::Gauge32(w), n))
                                    } else if tag == TAG_COUNTER32 {
                                        Ok((Value::Counter32(w), n))
                                    } else {
                                        Ok((Value::Timeticks(TimeTicks::new(w)), n))
                                    }
                                } else {
                                    Err(DecodeError::InvalidLength)
                                }
                            },
                            None => Err(DecodeError::InvalidLength),
                        }
                    } else {
                        Err(DecodeError::InvalidLength)
                    }
                } else if tag == TAG_COUNTER64 {
                    if 1 <= cl && cl <= 9 {
                        match be_u64(content) {
                            Some(v) => Ok((Value::Counter64(v), n)),
                            None => Err(DecodeError::InvalidLength),
                        }
                    } else {
                        Err(DecodeError::InvalidLength)
                    }
                } else if tag == TAG_OCTET_STRING {
                    Ok((Value::OctetStr(vstd::slice::slice_to_vec(content)), n))
                } else if tag == TAG_OPAQUE {
                    Ok((Value::Opaque(vstd::slice::slice_to_vec(content)), n))
                } else if tag == TAG_NOSUCHOBJECT {
                    if cl == 0 {
                        Ok((Value::NoSuchObject, n))
                    } else {
                        Err(DecodeError::InvalidLength)
                    }
                } else if tag == TAG_NOSUCHINSTANCE {
                    if cl == 0 {
                        Ok((Value::NoSuchInstance, n))
                    } else {
                        Err(DecodeError::InvalidLength)
                    }
                } else if tag == TAG_ENDOFMIBVIEW {
                    if cl == 0 {
                        Ok((Value::EndOfMIBView, n))
                    } else {
                        Err(DecodeError::InvalidLength)
                    }
                } else {
                    Err(DecodeError::UnexpectedTag)
                }
            },
        }
    }

    /// Decode a complete byte string as exactly one value.
    pub fn decode(bytes: &[u8]) -> (r: Result<Value, DecodeError>)
        ensures
            r matches Ok(v) ==> spec_parse_value(bytes@) == Ok::<(ValueModel, int), DecodeError>((
                v@,
                bytes@.len() as int,
            )),
            r matches Err(e) ==> match spec_parse_value(bytes@) {
                Ok((m, n)) => n != bytes@.len() && e == DecodeError::InvalidLength,
                Err(e2) => e == e2,
            },
    {
        match Value::parse(bytes) {
            Err(e) => Err(e),
            Ok((v, n)) => if n == bytes.len() {
                Ok(v)
            } else {
                Err(DecodeError::InvalidLength)
            },
        }
    }
}

// ---------------------------------------------------------------------------
// Variable bindings.
// ---------------------------------------------------------------------------

/// The mathematical model of a variable binding.
pub struct VarBindingModel {
    pub name: Seq<u32>,
    pub value: ValueModel,
}

impl VarBindingModel {
    pub open spec fn wf(self) -> bool {
        &&& oid_wf(self.name)
        &&& self.name.len() <= 0x0FFFFFFF
        &&& self.value.wf()
    }
}

/// A (name, value) pair identifying one managed variable and its value.
#[derive(Debug)]
pub struct VarBinding {
    pub name: ObjectIdentifier,
    pub value: Value,
}

impl View for VarBinding {
    type V = VarBindingModel;

    open spec fn view(&self) -> VarBindingModel {
        VarBindingModel { name: self.name@, value: self.value@ }
    }
}

impl Clone for VarBinding {
    fn clone(&self) -> (r: Self)
        ensures
            r@ == self@,
    {
        VarBinding { name: self.name.clone(), value: self.value.clone() }
    }
}

impl VarBinding {
    pub fn new(name: ObjectIdentifier, value: Value) -> (r: VarBinding)
        ensures
            r@.name == name@,
            r@.value == value@,
    {
        VarBinding { name, value }
    }

    /// The placeholder binding sent in requests: the name with a null value.
    pub fn null_from(name: ObjectIdentifier) -> (r: VarBinding)
        ensures
            r@.name == name@,
            r@.value == ValueModel::Null,
    {
        VarBinding { name, value: Value::Null }
    }

    /// The complete frame of this binding.
    pub fn encode(&self) -> (r: Vec<u8>)
        ensures
            r@ == spec_encode_varbinding(self@),
    {
        let mut out: Vec<u8> = Vec::new();
        append_varbinding(self, &mut out);
        out
    }
}

pub open spec fn spec_encode_varbinding(b: VarBindingModel) -> Seq<u8> {
    tlv(TAG_SEQUENCE, tlv(TAG_OID, oid_content(b.name)) + spec_encode_value(b.value))
}

/// Parse one binding: a sequence frame holding a name and then a value,
/// nothing more.
pub open spec fn spec_parse_varbinding(s: Seq<u8>) -> Result<(VarBindingModel, int), DecodeError> {
    match spec_parse_tlv(s) {
        Err(e) => Err(e),
        Ok((tag, c, n)) => if tag != TAG_SEQUENCE {
            Err(DecodeError::UnexpectedTag)
        } else {
            match spec_parse_tlv(c) {
                Err(e) => Err(e),
                Ok((t2, c2, n2)) => if t2 != TAG_OID {
                    Err(DecodeError::UnexpectedTag)
                } else {
                    match spec_parse_oid_arcs(c2) {
                        Err(e) => Err(e),
                        Ok(name) => match spec_parse_value(c.skip(n2)) {
                            Err(e) => Err(e),
                            Ok((value, n3)) => if n2 + n3 == c.len() {
                                Ok((VarBindingModel { name, value }, n))
                            } else {
                                Err(DecodeError::InvalidLength)
                            },
                        },
                    }
                },
            }
        },
    }
}

pub proof fn lemma_varbinding_round_trip(b: VarBindingModel, rest: Seq<u8>)
    requires
        b.wf(),
    ensures
        spec_parse_varbinding(spec_encode_varbinding(b) + rest) == Ok::<
            (VarBindingModel, int),
            DecodeError,
        >((b, spec_encode_varbinding(b).len() as int)),
{
    let name_content = oid_content(b.name);
    let name_tlv = tlv(TAG_OID, name_content);
    let value_enc = spec_encode_value(b.value);
    let c = name_tlv + value_enc;
    lemma_oid_content_len(b.name);
    lemma_value_enc_len(b.value);
    lemma_parse_tlv_of_tlv(TAG_OID, name_content, value_enc);
    lemma_parse_tlv_of_tlv(TAG_SEQUENCE, c, rest);
    lemma_oid_content_round_trip(b.name);
    let n2: int = name_tlv.len() as int;
    assert(c.skip(n2) =~= value_enc + Seq::<u8>::empty());
    lemma_value_round_trip(b.value, Seq::empty());
    assert(value_enc + Seq::<u8>::empty() =~= value_enc);
    assert(n2 + value_enc.len() == c.len());
}

/// The frame of an encoded value stays comfortably below the length limit.
pub proof fn lemma_value_enc_len(v: ValueModel)
    requires
        v.wf(),
    ensures
        spec_encode_value(v).len() <= 0x7FFFFFFF + 16,
{
    lemma_pow256_unfold_8();
    match v {
        ValueModel::Null => {},
        ValueModel::Oid(arcs) => {
            lemma_oid_content_len(arcs);
            lemma_tlv_len(TAG_OID, oid_content(arcs));
        },
        ValueModel::Integer(i) => {
            lemma_int_content_len(i as int, 4);
            lemma_tlv_len(TAG_INTEGER, int_content(i as int));
        },
        ValueModel::IpAddr(a, b, c, d) => {
            lemma_tlv_len(TAG_IPADDR, seq![d, c, b, a]);
        },
        ValueModel::Gauge32(n) => {
            lemma_uint_content_len(n as nat, 4);
            lemma_tlv_len(TAG_GAUGE32, uint_content(n as nat));
        },
        ValueModel::Counter32(n) => {
            lemma_uint_content_len(n as nat, 4);
            lemma_tlv_len(TAG_COUNTER32, uint_content(n as nat));
        },
        ValueModel::Counter64(n) => {
            lemma_uint_content_len(n as nat, 8);
            lemma_tlv_len(TAG_COUNTER64, uint_content(n as nat));
        },
        ValueModel::Timeticks(t) => {
            lemma_uint_content_len(t as nat, 4);
            lemma_tlv_len(TAG_TIMETICKS, uint_content(t as nat));
        },
        ValueModel::OctetStr(s) => {
            lemma_tlv_len(TAG_OCTET_STRING, s);
        },
        ValueModel::Opaque(s) => {
            lemma_tlv_len(TAG_OPAQUE, s);
        },
        ValueModel::NoSuchObject => {},
        ValueModel::NoSuchInstance => {},
        ValueModel::EndOfMIBView => {},
    }
}

/// A frame adds at most ten octets of header to its content.
pub proof fn lemma_tlv_len(tag: u8, content: Seq<u8>)
    requires
        content.len() < 0x10000000000000000,
    ensures
        content.len() < tlv(tag, content).len() <= content.len() + 10,
{
    if content.len() >= 128 {
        lemma_pow256_unfold_8();
        lemma_be_bytes_len(content.len(), 8);
        assert(be_bytes(content.len()).len() >= 1) by {
            assert(be_bytes(content.len()).last() == (content.len() % 256) as u8);
        }
    }
}

/// Append the complete frame of one binding.
pub(crate) fn append_varbinding(b: &VarBinding, out: &mut Vec<u8>)
    ensures
        final(out)@ == old(out)@ + spec_encode_varbinding(b@),
{
    let mut name_content: Vec<u8> = Vec::new();
    append_oid_content(&b.name, &mut name_content);
    let mut content: Vec<u8> = Vec::new();
    append_tlv(TAG_OID, &name_content, &mut content);
    b.value.encode_into(&mut content);
    append_tlv(TAG_SEQUENCE, &content, out);
    proof {
        assert(content@ =~= tlv(TAG_OID, oid_content(b@.name)) + spec_encode_value(b@.value));
    }
}

/// Parse one binding from the front of the slice.
pub(crate) fn parse_varbinding(s: &[u8]) -> (r: Result<(VarBinding, usize), DecodeError>)
    ensures
        r matches Ok((b, n)) ==> spec_parse_varbinding(s@) == Ok::<
            (VarBindingModel, int),
            DecodeError,
        >((b@, n as int)) && 1 <= n <= s@.len(),
        r matches Err(e) ==> spec_parse_varbinding(s@) == Err::<(VarBindingModel, int), DecodeError>(
            e,
        ),
{
    match parse_tlv_header(s) {
        Err(e) => Err(e),
        Ok((tag, cs, cl)) => {
            if tag != TAG_SEQUENCE {
                return Err(DecodeError::UnexpectedTag);
            }
            let slen: usize = s.len();
            proof {
                assert(cs + cl <= slen);
            }
            let content = vstd::slice::slice_subrange(s, cs, cs + cl);
            match parse_tlv_header(content) {
                Err(e) => Err(e),
                Ok((t2, cs2, cl2)) => {
                    if t2 != TAG_OID {
                        return Err(DecodeError::UnexpectedTag);
                    }
                    let name_content = vstd::slice::slice_subrange(content, cs2, cs2 + cl2);
                    match parse_oid_arcs(name_content) {
                        Err(e) => Err(e),
                        Ok(arcs) => {
                            let name = ObjectIdentifier { arcs };
                            let after_name = vstd::slice::slice_subrange(
                                content,
                                cs2 + cl2,
                                content.len(),
                            );
                            proof {
                                assert(after_name@ =~= content@.skip(cs2 + cl2));
                            }
                            match Value::parse(after_name) {
                                Err(e) => Err(e),
                                Ok((value, n3)) => {
                                    if cs2 + cl2 + n3 == cl {
                                        Ok((VarBinding { name, value }, cs + cl))
                                    } else {
                                        Err(DecodeError::InvalidLength)
                                    }
                                },
                            }
                        },
                    }
                },
            }
        },
    }
}

} // verus!
