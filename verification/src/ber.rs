//! Tag-length-value machinery of the Basic Encoding Rules, as far as SNMP
//! needs it: definite lengths, big-endian integer contents (signed and
//! unsigned, minimal form), and the base-128 arc groups of object
//! identifiers.
//!
//! The spec functions here define the wire bytes exactly; the matching spec
//! parsers define what every byte string decodes to.  The lemmas prove that
//! parsing inverts encoding, which the higher layers compose into round-trip
//! proofs for whole values, PDUs and messages.

use vstd::prelude::*;

verus! {

/// Why a byte string failed to decode.
#[derive(Clone, Copy, PartialEq, Eq, Structural, Debug)]
pub enum DecodeError {
    /// The input ended before the announced structure was complete.
    Truncated,
    /// The identifier octet names no structure expected at this position.
    UnexpectedTag,
    /// A length octet, or the length of a content field, is unacceptable.
    InvalidLength,
    /// A message version integer outside the understood range.
    InvalidVersion,
}

// ---------------------------------------------------------------------------
// Powers of the bases, for bounds reasoning.
// ---------------------------------------------------------------------------

pub open spec fn pow256(k: nat) -> nat
    decreases k,
{
    if k == 0 {
        1
    } else {
        256 * pow256((k - 1) as nat)
    }
}

pub open spec fn pow128(k: nat) -> nat
    decreases k,
{
    if k == 0 {
        1
    } else {
        128 * pow128((k - 1) as nat)
    }
}

// ---------------------------------------------------------------------------
// Big-endian base-256 digits.
// ---------------------------------------------------------------------------

/// The minimal big-endian base-256 digits of `n`; empty for zero.
pub open spec fn be_bytes(n: nat) -> Seq<u8>
    decreases n,
{
    if n == 0 {
        Seq::empty()
    } else {
        be_bytes(n / 256).push((n % 256) as u8)
    }
}

/// The value of a byte string read as an unsigned big-endian integer.
pub open spec fn val_be(s: Seq<u8>) -> nat
    decreases s.len(),
{
    if s.len() == 0 {
        0
    } else {
        (val_be(s.drop_last()) * 256 + s.last()) as nat
    }
}

/// The value of a byte string read as a big-endian two's-complement integer.
pub open spec fn sval_be(s: Seq<u8>) -> int
    recommends
        s.len() > 0,
{
    if s.len() > 0 && s[0] >= 128 {
        val_be(s) - pow256(s.len())
    } else {
        val_be(s) as int
    }
}

pub proof fn lemma_val_be_of_be_bytes(n: nat)
    ensures
        val_be(be_bytes(n)) == n,
    decreases n,
{
    if n > 0 {
        lemma_val_be_of_be_bytes(n / 256);
        assert(be_bytes(n).drop_last() =~= be_bytes(n / 256));
    }
}

pub proof fn lemma_be_bytes_len(n: nat, k: nat)
    requires
        n < pow256(k),
    ensures
        be_bytes(n).len() <= k,
    decreases n,
{
    if n > 0 {
        assert(k > 0) by {
            if k == 0 {
                assert(pow256(0) == 1);
            }
        }
        assert(n / 256 < pow256((k - 1) as nat)) by {
            assert(pow256(k) == 256 * pow256((k - 1) as nat));
        }
        lemma_be_bytes_len(n / 256, (k - 1) as nat);
    }
}

pub proof fn lemma_val_be_bound(s: Seq<u8>)
    ensures
        val_be(s) < pow256(s.len()),
    decreases s.len(),
{
    if s.len() > 0 {
        lemma_val_be_bound(s.drop_last());
    }
}

/// The leading byte weighs in with its full positional value.
pub proof fn lemma_val_be_lower(s: Seq<u8>)
    requires
        s.len() > 0,
    ensures
        val_be(s) >= s[0] * pow256((s.len() - 1) as nat),
    decreases s.len(),
{
    if s.len() == 1 {
        assert(s.drop_last().len() == 0);
        assert(val_be(s) == val_be(s.drop_last()) * 256 + s.last());
        assert(val_be(s) == s[0]);
        assert(pow256(0) == 1);
        assert(s[0] * pow256((s.len() - 1) as nat) == s[0] * 1);
        assert((s[0] as int) * 1 == s[0] as int) by (nonlinear_arith);
    } else {
        lemma_val_be_lower(s.drop_last());
        assert(s.drop_last()[0] == s[0]);
        let h: int = s[0] as int;
        let p2: int = pow256((s.len() - 2) as nat) as int;
        let p1: int = pow256((s.len() - 1) as nat) as int;
        assert(p1 == 256 * p2);
        assert(val_be(s.drop_last()) >= h * p2);
        assert(val_be(s) == val_be(s.drop_last()) * 256 + s.last());
        assert(val_be(s.drop_last()) * 256 >= (h * p2) * 256) by (nonlinear_arith)
            requires
                val_be(s.drop_last()) >= h * p2,
        ;
        assert((h * p2) * 256 == h * (256 * p2)) by (nonlinear_arith);
        assert(h * p1 == h * (256 * p2));
        assert(val_be(s) >= h * p1);
    }
}

/// The leading byte also caps the value from above.
pub proof fn lemma_val_be_upper(s: Seq<u8>)
    requires
        s.len() > 0,
    ensures
        val_be(s) < (s[0] + 1) * pow256((s.len() - 1) as nat),
    decreases s.len(),
{
    if s.len() == 1 {
        assert(s.drop_last().len() == 0);
        assert(val_be(s) == val_be(s.drop_last()) * 256 + s.last());
        assert(val_be(s) == s[0]);
        assert(pow256(0) == 1);
        assert((s[0] + 1) * pow256((s.len() - 1) as nat) == (s[0] + 1) * 1);
        assert((s[0] + 1 as int) * 1 == s[0] + 1) by (nonlinear_arith);
    } else {
        lemma_val_be_upper(s.drop_last());
        assert(s.drop_last()[0] == s[0]);
        let h1: int = s[0] + 1;
        let p2: int = pow256((s.len() - 2) as nat) as int;
        let p1: int = pow256((s.len() - 1) as nat) as int;
        assert(p1 == 256 * p2);
        assert(val_be(s.drop_last()) <= h1 * p2 - 1);
        assert(val_be(s) == val_be(s.drop_last()) * 256 + s.last());
        assert(val_be(s.drop_last()) * 256 <= (h1 * p2 - 1) * 256) by (nonlinear_arith)
            requires
                val_be(s.drop_last()) <= h1 * p2 - 1,
        ;
        assert((h1 * p2 - 1) * 256 == h1 * (256 * p2) - 256) by (nonlinear_arith);
        assert(h1 * p1 == h1 * (256 * p2));
        assert(val_be(s) <= h1 * p1 - 256 + s.last());
        assert(val_be(s) < h1 * p1);
    }
}

pub proof fn lemma_val_be_singleton(b: u8)
    ensures
        val_be(seq![b]) == b,
        val_b128(seq![b]) == b % 128,
{
    let s = seq![b];
    assert(s.len() == 1);
    assert(s.last() == b);
    assert(s.drop_last() =~= Seq::<u8>::empty());
    assert(val_be(Seq::<u8>::empty()) == 0);
    assert(val_b128(Seq::<u8>::empty()) == 0);
    assert(val_be(s) == val_be(s.drop_last()) * 256 + s.last());
    assert(val_b128(s) == val_b128(s.drop_last()) * 128 + (s.last() % 128));
}

pub proof fn lemma_val_be_zero_pad(s: Seq<u8>)
    ensures
        val_be(seq![0u8] + s) == val_be(s),
    decreases s.len(),
{
    if s.len() == 0 {
        assert(seq![0u8] + s =~= seq![0u8]);
        assert(val_be(seq![0u8]) == val_be(Seq::<u8>::empty()) * 256 + 0) by {
            assert(seq![0u8].drop_last() =~= Seq::<u8>::empty());
        }
    } else {
        lemma_val_be_zero_pad(s.drop_last());
        assert((seq![0u8] + s).drop_last() =~= seq![0u8] + s.drop_last());
        assert((seq![0u8] + s).last() == s.last());
    }
}

// ---------------------------------------------------------------------------
// Integer content fields.
// ---------------------------------------------------------------------------

/// Content octets of an unsigned integer: minimal big-endian form, with one
/// leading zero octet wherever the top bit would otherwise read as a sign.
pub open spec fn uint_content(n: nat) -> Seq<u8> {
    if n < 128 {
        seq![n as u8]
    } else if be_bytes(n)[0] >= 128 {
        seq![0u8] + be_bytes(n)
    } else {
        be_bytes(n)
    }
}

/// Content octets of a signed integer: minimal big-endian two's complement.
pub open spec fn int_content(v: int) -> Seq<u8>
    decreases (if v < 0 { -v } else { v }),
{
    if -128 <= v < 128 {
        seq![(v % 256) as u8]
    } else {
        int_content(v / 256).push((v % 256) as u8)
    }
}

pub proof fn lemma_uint_content_props(n: nat)
    ensures
        uint_content(n).len() >= 1,
        val_be(uint_content(n)) == n,
{
    if n < 128 {
        assert(uint_content(n) =~= seq![n as u8]);
        lemma_val_be_singleton(n as u8);
    } else {
        lemma_val_be_of_be_bytes(n);
        if be_bytes(n)[0] >= 128 {
            lemma_val_be_zero_pad(be_bytes(n));
        }
    }
}

pub proof fn lemma_uint_content_len(n: nat, k: nat)
    requires
        n < pow256(k),
        k >= 1,
    ensures
        uint_content(n).len() <= k + 1,
{
    lemma_be_bytes_len(n, k);
}

pub proof fn lemma_int_content_props(v: int)
    ensures
        int_content(v).len() >= 1,
        int_content(v)[0] >= 128 <==> v < 0,
        val_be(int_content(v)) == v + (if v < 0 {
            pow256(int_content(v).len())
        } else {
            0
        }),
        sval_be(int_content(v)) == v,
    decreases (if v < 0 { -v } else { v }),
{
    if -128 <= v < 128 {
        let b: u8 = (v % 256) as u8;
        assert(int_content(v) =~= seq![b]);
        lemma_val_be_singleton(b);
        if v < 0 {
            assert(v % 256 == v + 256);
            assert(pow256(1) == 256) by {
                assert(pow256(1) == 256 * pow256(0));
            }
        } else {
            assert(v % 256 == v);
        }
    } else {
        let q: int = v / 256;
        let r: int = v % 256;
        lemma_int_content_props(q);
        let ic = int_content(v);
        let icq = int_content(q);
        assert(ic =~= icq.push(r as u8));
        assert(ic.drop_last() =~= icq);
        assert(ic.last() == r as u8);
        assert(ic[0] == icq[0]);
        assert(v == 256 * q + r);
        assert((q < 0) <==> (v < 0)) by {
            if v >= 128 {
                assert(q >= 0);
            } else {
                assert(v <= -129);
                assert(q < 0) by {
                    if q >= 0 {
                        assert(v == 256 * q + r >= 0);
                    }
                }
            }
        }
        assert(val_be(ic) == val_be(icq) * 256 + r);
        if v < 0 {
            assert(val_be(icq) == q + pow256(icq.len()));
            assert(val_be(ic) == (q + pow256(icq.len())) * 256 + r);
            assert((q + pow256(icq.len())) * 256 == q * 256 + pow256(icq.len()) * 256) by (nonlinear_arith);
            assert(pow256(icq.len()) * 256 == pow256(ic.len())) by {
                assert(pow256(ic.len()) == 256 * pow256((ic.len() - 1) as nat));
            }
            assert(val_be(ic) == v + pow256(ic.len()));
        } else {
            assert(val_be(icq) == q);
            assert(val_be(ic) == q * 256 + r);
        }
    }
}

/// How many octets the signed form takes: `k` octets cover the symmetric
/// range `-128 * pow256(k - 1) .. 128 * pow256(k - 1)`.
pub proof fn lemma_int_content_len(v: int, k: nat)
    requires
        k >= 1,
        -128 * pow256((k - 1) as nat) <= v < 128 * pow256((k - 1) as nat),
    ensures
        int_content(v).len() <= k,
    decreases k,
{
    if -128 <= v < 128 {
    } else {
        let pk1: int = pow256((k - 1) as nat) as int;
        assert(pk1 >= 1) by {
            lemma_pow256_pos((k - 1) as nat);
        }
        assert(k >= 2) by {
            if k == 1 {
                assert(pow256(0) == 1);
            }
        }
        let p: int = pow256((k - 2) as nat) as int;
        assert(pk1 == 256 * p);
        let q: int = v / 256;
        let r: int = v % 256;
        assert(v == 256 * q + r);
        assert(0 <= r < 256);
        assert(v < 128 * (256 * p));
        assert(128 * (256 * p) == 256 * (128 * p)) by (nonlinear_arith);
        assert(256 * q <= v);
        assert(256 * q < 256 * (128 * p));
        assert(q < 128 * p);
        assert(v >= -(256 * (128 * p)));
        assert(256 * q > -(256 * (128 * p)) - 256);
        assert(q >= -128 * p);
        lemma_int_content_len(q, (k - 1) as nat);
    }
}

pub proof fn lemma_pow256_pos(k: nat)
    ensures
        pow256(k) >= 1,
    decreases k,
{
    if k > 0 {
        lemma_pow256_pos((k - 1) as nat);
    }
}

pub proof fn lemma_pow128_pos(k: nat)
    ensures
        pow128(k) >= 1,
    decreases k,
{
    if k > 0 {
        lemma_pow128_pos((k - 1) as nat);
    }
}

// ---------------------------------------------------------------------------
// Length field and the tag-length-value frame.
// ---------------------------------------------------------------------------

/// The definite-length field: one octet up to 127, else a count octet
/// followed by the big-endian length.
pub open spec fn len_field(n: nat) -> Seq<u8> {
    if n < 128 {
        seq![n as u8]
    } else {
        seq![(128 + be_bytes(n).len()) as u8] + be_bytes(n)
    }
}

/// One complete frame: identifier octet, length field, content octets.
pub open spec fn tlv(tag: u8, content: Seq<u8>) -> Seq<u8> {
    seq![tag] + len_field(content.len()) + content
}

/// Parse a length field; yields the content length and the octets consumed.
pub open spec fn spec_parse_len(s: Seq<u8>) -> Result<(nat, int), DecodeError> {
    if s.len() == 0 {
        Err(DecodeError::Truncated)
    } else if s[0] < 128 {
        Ok((s[0] as nat, 1))
    } else {
        let k: int = s[0] - 128;
        if k == 0 || k > 8 {
            Err(DecodeError::InvalidLength)
        } else if s.len() < 1 + k {
            Err(DecodeError::Truncated)
        } else if val_be(s.subrange(1, 1 + k)) > usize::MAX {
            Err(DecodeError::InvalidLength)
        } else {
            Ok((val_be(s.subrange(1, 1 + k)), 1 + k))
        }
    }
}

/// Parse one frame; yields the tag, the content octets and the octets
/// consumed.
pub open spec fn spec_parse_tlv(s: Seq<u8>) -> Result<(u8, Seq<u8>, int), DecodeError> {
    if s.len() == 0 {
        Err(DecodeError::Truncated)
    } else {
        match spec_parse_len(s.skip(1)) {
            Err(e) => Err(e),
            Ok((l, ll)) => if s.len() < 1 + ll + l {
                Err(DecodeError::Truncated)
            } else {
                Ok((s[0], s.subrange(1 + ll, 1 + ll + l), 1 + ll + l))
            },
        }
    }
}

pub proof fn lemma_parse_len_of_len_field(n: nat, rest: Seq<u8>)
    requires
        n <= usize::MAX,
    ensures
        len_field(n).len() >= 1,
        spec_parse_len(len_field(n) + rest) == Ok::<(nat, int), DecodeError>((
            n,
            len_field(n).len() as int,
        )),
{
    let s = len_field(n) + rest;
    if n < 128 {
        assert(s[0] == n as u8);
    } else {
        assert(pow256(8) > usize::MAX) by {
            lemma_pow256_unfold_8();
        }
        lemma_be_bytes_len(n, 8);
        assert(be_bytes(n).len() >= 1);
        let k: int = be_bytes(n).len() as int;
        assert(s[0] == (128 + k) as u8);
        assert(s[0] - 128 == k);
        assert(s.subrange(1, 1 + k) =~= be_bytes(n));
        lemma_val_be_of_be_bytes(n);
    }
}

/// `pow256(8)` written out, so bounds on 64-bit quantities can be named.
pub proof fn lemma_pow256_unfold_8()
    ensures
        pow256(1) == 0x100,
        pow256(2) == 0x10000,
        pow256(3) == 0x1000000,
        pow256(4) == 0x100000000,
        pow256(5) == 0x10000000000,
        pow256(6) == 0x1000000000000,
        pow256(7) == 0x100000000000000,
        pow256(8) == 0x10000000000000000,
{
    reveal_with_fuel(pow256, 9);
}

pub proof fn lemma_parse_tlv_of_tlv(tag: u8, content: Seq<u8>, rest: Seq<u8>)
    requires
        content.len() <= usize::MAX,
    ensures
        tlv(tag, content).len() == 1 + len_field(content.len()).len() + content.len(),
        spec_parse_tlv(tlv(tag, content) + rest) == Ok::<(u8, Seq<u8>, int), DecodeError>((
            tag,
            content,
            tlv(tag, content).len() as int,
        )),
{
    let s = tlv(tag, content) + rest;
    let lf = len_field(content.len());
    lemma_parse_len_of_len_field(content.len(), content + rest);
    assert(s.skip(1) =~= lf + (content + rest));
    assert(s[0] == tag);
    let ll: int = lf.len() as int;
    let l: nat = content.len();
    assert(s.len() >= 1 + ll + l);
    assert(s.subrange(1 + ll, 1 + ll + l) =~= content);
}

// ---------------------------------------------------------------------------
// Base-128 arc groups of object identifiers.
// ---------------------------------------------------------------------------

/// The continuation groups of an arc: every octet carries the high bit.
pub open spec fn b128_groups(n: nat) -> Seq<u8>
    decreases n,
{
    if n == 0 {
        Seq::empty()
    } else {
        b128_groups(n / 128).push((128 + n % 128) as u8)
    }
}

/// One arc in base-128: continuation groups, then the low group without the
/// high bit.
pub open spec fn base128(n: nat) -> Seq<u8> {
    b128_groups(n / 128) + seq![(n % 128) as u8]
}

/// The value of a group string, high bits masked away.
pub open spec fn val_b128(s: Seq<u8>) -> nat
    decreases s.len(),
{
    if s.len() == 0 {
        0
    } else {
        (val_b128(s.drop_last()) * 128 + (s.last() % 128)) as nat
    }
}

/// How many octets belong to the arc starting the string: up to and
/// including the first octet without the high bit.
pub open spec fn arc_end(s: Seq<u8>) -> Result<int, DecodeError>
    decreases s.len(),
{
    if s.len() == 0 {
        Err(DecodeError::Truncated)
    } else if s[0] < 128 {
        Ok(1)
    } else {
        match arc_end(s.skip(1)) {
            Ok(n) => Ok(n + 1),
            Err(e) => Err(e),
        }
    }
}

/// Parse one arc; at most five groups, so every accepted arc is below
/// `pow128(5)`.
pub open spec fn spec_parse_arc(s: Seq<u8>) -> Result<(nat, int), DecodeError> {
    match arc_end(s) {
        Err(e) => Err(e),
        Ok(n) => if n > 5 {
            Err(DecodeError::InvalidLength)
        } else {
            Ok((val_b128(s.subrange(0, n)), n))
        },
    }
}

pub proof fn lemma_arc_end_bounds(s: Seq<u8>)
    ensures
        arc_end(s) matches Ok(n) ==> 1 <= n <= s.len(),
    decreases s.len(),
{
    if s.len() > 0 && s[0] >= 128 {
        lemma_arc_end_bounds(s.skip(1));
    }
}

pub proof fn lemma_b128_groups_high(n: nat)
    ensures
        forall|i: int| 0 <= i < b128_groups(n).len() ==> b128_groups(n)[i] >= 128,
    decreases n,
{
    if n > 0 {
        lemma_b128_groups_high(n / 128);
        let g = b128_groups(n / 128);
        let s = b128_groups(n);
        assert(s =~= g.push((128 + n % 128) as u8));
        assert forall|i: int| 0 <= i < s.len() implies s[i] >= 128 by {
            if i < g.len() {
                assert(s[i] == g[i]);
            } else {
                assert(s[i] == (128 + n % 128) as u8);
            }
        }
    }
}

pub proof fn lemma_b128_groups_len(n: nat, k: nat)
    requires
        n < pow128(k),
    ensures
        b128_groups(n).len() <= k,
    decreases n,
{
    if n > 0 {
        assert(k > 0) by {
            if k == 0 {
                assert(pow128(0) == 1);
            }
        }
        assert(n / 128 < pow128((k - 1) as nat)) by {
            assert(pow128(k) == 128 * pow128((k - 1) as nat));
        }
        lemma_b128_groups_len(n / 128, (k - 1) as nat);
    }
}

pub proof fn lemma_val_b128_of_groups(n: nat)
    ensures
        val_b128(b128_groups(n)) == n,
    decreases n,
{
    if n > 0 {
        lemma_val_b128_of_groups(n / 128);
        assert(b128_groups(n).drop_last() =~= b128_groups(n / 128));
        assert(b128_groups(n).last() == (128 + n % 128) as u8);
        assert(((128 + n % 128) as u8) % 128 == n % 128);
    }
}

pub proof fn lemma_parse_arc_of_base128(n: nat, rest: Seq<u8>)
    requires
        base128(n).len() <= 5,
    ensures
        base128(n).len() >= 1,
        spec_parse_arc(base128(n) + rest) == Ok::<(nat, int), DecodeError>((
            n,
            base128(n).len() as int,
        )),
{
    let g = b128_groups(n / 128);
    let enc = base128(n);
    let s = enc + rest;
    let m: int = enc.len() as int;
    lemma_b128_groups_high(n / 128);
    assert(forall|i: int| 0 <= i < m - 1 ==> s[i] >= 128) by {
        assert(forall|i: int| 0 <= i < m - 1 ==> s[i] == g[i]);
    }
    assert(s[m - 1] == (n % 128) as u8);
    assert(s[m - 1] < 128);
    lemma_arc_end_prefix(s, m);
    assert(s.subrange(0, m) =~= enc);
    assert(val_b128(enc) == n) by {
        lemma_val_b128_of_groups(n / 128);
        assert(enc.drop_last() =~= g);
        assert(enc.last() == (n % 128) as u8);
    }
}

/// If the first `m - 1` octets carry the high bit and octet `m - 1` does
/// not, the first arc ends exactly at `m`.
pub proof fn lemma_arc_end_prefix(s: Seq<u8>, m: int)
    requires
        1 <= m <= s.len(),
        forall|i: int| 0 <= i < m - 1 ==> s[i] >= 128,
        s[m - 1] < 128,
    ensures
        arc_end(s) == Ok::<int, DecodeError>(m),
    decreases m,
{
    if m == 1 {
    } else {
        assert(s[0] >= 128);
        lemma_arc_end_prefix(s.skip(1), m - 1);
    }
}

/// A string of octets that all carry the high bit never completes an arc.
pub proof fn lemma_arc_end_all_high(s: Seq<u8>)
    requires
        forall|i: int| 0 <= i < s.len() ==> s[i] >= 128,
    ensures
        arc_end(s) == Err::<int, DecodeError>(DecodeError::Truncated),
    decreases s.len(),
{
    if s.len() > 0 {
        lemma_arc_end_all_high(s.skip(1));
    }
}

pub proof fn lemma_val_b128_bound(s: Seq<u8>)
    ensures
        val_b128(s) < pow128(s.len()),
    decreases s.len(),
{
    if s.len() > 0 {
        lemma_val_b128_bound(s.drop_last());
    }
}

pub proof fn lemma_pow128_unfold_5()
    ensures
        pow128(1) == 0x80,
        pow128(2) == 0x4000,
        pow128(3) == 0x200000,
        pow128(4) == 0x10000000,
        pow128(5) == 0x800000000,
{
    reveal_with_fuel(pow128, 6);
}

// ---------------------------------------------------------------------------
// Executable encoders.  Each appends its field to an output buffer and is
// proved byte-exact against the spec form above.
// ---------------------------------------------------------------------------

/// Append the minimal big-endian digits of `n`.
pub fn append_be_bytes(n: u64, out: &mut Vec<u8>)
    ensures
        final(out)@ == old(out)@ + be_bytes(n as nat),
    decreases n,
{
    if n == 0 {
        assert(out@ =~= old(out)@ + be_bytes(0));
    } else {
        append_be_bytes(n / 256, out);
        out.push((n % 256) as u8);
        assert(out@ =~= old(out)@ + be_bytes(n as nat)) by {
            assert(be_bytes(n as nat) == be_bytes((n as nat) / 256).push(((n as nat) % 256) as u8));
            assert((n / 256) as nat == (n as nat) / 256);
            assert((n % 256) as nat == (n as nat) % 256);
        }
    }
}

/// Append the unsigned-integer content octets of `n`.
pub fn append_uint_content(n: u64, out: &mut Vec<u8>)
    ensures
        final(out)@ == old(out)@ + uint_content(n as nat),
{
    if n < 128 {
        out.push(n as u8);
        assert(out@ =~= old(out)@ + uint_content(n as nat));
    } else {
        let mut digits: Vec<u8> = Vec::new();
        append_be_bytes(n, &mut digits);
        assert(digits@ == be_bytes(n as nat));
        assert(digits@.len() >= 1) by {
            assert(be_bytes(n as nat).last() == ((n as nat) % 256) as u8);
        }
        if digits[0] >= 128 {
            out.push(0u8);
        }
        out.extend_from_slice(digits.as_slice());
        assert(out@ =~= old(out)@ + uint_content(n as nat));
    }
}

/// Append the signed-integer content octets of `v`.
pub fn append_i32_content(v: i32, out: &mut Vec<u8>)
    ensures
        final(out)@ == old(out)@ + int_content(v as int),
    decreases (if v < 0 {
        -(v as int)
    } else {
        v as int
    }),
{
    if -128 <= v && v < 128 {
        let b: u8 = if v >= 0 {
            v as u8
        } else {
            (v + 256) as u8
        };
        assert(b == ((v as int) % 256) as u8);
        out.push(b);
        assert(out@ =~= old(out)@ + int_content(v as int));
    } else if v >= 128 {
        let u: u32 = v as u32;
        let q: i32 = (u / 256) as i32;
        let low: u8 = (u % 256) as u8;
        proof {
            assert(q as int == (v as int) / 256);
            assert(low as int == (v as int) % 256);
        }
        append_i32_content(q, out);
        out.push(low);
        assert(out@ =~= old(out)@ + int_content(v as int)) by {
            assert(int_content(v as int) == int_content((v as int) / 256).push(
                (((v as int) % 256) as u8),
            ));
        }
    } else {
        // v <= -129: work on w = -v - 1 so that all arithmetic is unsigned.
        let w: u32 = (-(v + 1)) as u32;
        let q: i32 = -((w / 256) as i32) - 1;
        let low: u8 = (255 - (w % 256)) as u8;
        proof {
            let vi: int = v as int;
            let wi: int = w as int;
            assert(vi == -wi - 1);
            assert(wi == 256 * (wi / 256) + wi % 256);
            assert(vi == 256 * (-(wi / 256) - 1) + (255 - wi % 256));
            vstd::arithmetic::div_mod::lemma_fundamental_div_mod_converse(
                vi,
                256,
                -(wi / 256) - 1,
                255 - wi % 256,
            );
            assert(q as int == vi / 256);
            assert(low as int == vi % 256);
        }
        append_i32_content(q, out);
        out.push(low);
        assert(out@ =~= old(out)@ + int_content(v as int)) by {
            assert(int_content(v as int) == int_content((v as int) / 256).push(
                (((v as int) % 256) as u8),
            ));
        }
    }
}

/// Append a definite-length field for a content of `n` octets.
pub fn append_len(n: usize, out: &mut Vec<u8>)
    ensures
        final(out)@ == old(out)@ + len_field(n as nat),
{
    if n < 128 {
        out.push(n as u8);
        assert(out@ =~= old(out)@ + len_field(n as nat));
    } else {
        let mut digits: Vec<u8> = Vec::new();
        append_be_bytes(n as u64, &mut digits);
        proof {
            lemma_pow256_unfold_8();
            lemma_be_bytes_len(n as nat, 8);
            assert(digits@.len() >= 1) by {
                assert(be_bytes(n as nat).last() == ((n as nat) % 256) as u8);
            }
        }
        out.push(128 + digits.len() as u8);
        out.extend_from_slice(digits.as_slice());
        assert(out@ =~= old(out)@ + len_field(n as nat));
    }
}

/// Append one complete frame around already-encoded content octets.
pub fn append_tlv(tag: u8, content: &Vec<u8>, out: &mut Vec<u8>)
    ensures
        final(out)@ == old(out)@ + tlv(tag, content@),
{
    out.push(tag);
    append_len(content.len(), out);
    out.extend_from_slice(content.as_slice());
    assert(out@ =~= old(out)@ + tlv(tag, content@));
}

/// Append the continuation groups of one arc.
pub fn append_b128_groups(n: u64, out: &mut Vec<u8>)
    ensures
        final(out)@ == old(out)@ + b128_groups(n as nat),
    decreases n,
{
    if n == 0 {
        assert(out@ =~= old(out)@ + b128_groups(0));
    } else {
        append_b128_groups(n / 128, out);
        out.push(128 + (n % 128) as u8);
        assert(out@ =~= old(out)@ + b128_groups(n as nat)) by {
            assert(b128_groups(n as nat) == b128_groups((n as nat) / 128).push(
                (128 + (n as nat) % 128) as u8,
            ));
            assert((n / 128) as nat == (n as nat) / 128);
        }
    }
}

/// Append one arc in base-128 form.
pub fn append_base128(n: u64, out: &mut Vec<u8>)
    ensures
        final(out)@ == old(out)@ + base128(n as nat),
{
    append_b128_groups(n / 128, out);
    out.push((n % 128) as u8);
    assert(out@ =~= old(out)@ + base128(n as nat)) by {
        assert((n / 128) as nat == (n as nat) / 128);
    }
}

// ---------------------------------------------------------------------------
// Executable parsers, each proved to agree with its spec parser.
// ---------------------------------------------------------------------------

/// Read an unsigned big-endian value of at most eight octets.
pub fn be_u64_small(c: &[u8]) -> (r: u64)
    requires
        c@.len() <= 8,
    ensures
        r as nat == val_be(c@),
{
    let mut acc: u64 = 0;
    let mut i: usize = 0;
    proof {
        assert(c@.subrange(0, 0) =~= Seq::<u8>::empty());
        lemma_pow256_unfold_8();
    }
    while i < c.len()
        invariant
            0 <= i <= c@.len() <= 8,
            acc as nat == val_be(c@.subrange(0, i as int)),
        decreases c@.len() - i,
    {
        proof {
            lemma_val_be_bound(c@.subrange(0, i as int));
            lemma_pow256_unfold_8();
            lemma_pow256_monotone(i as nat, 7);
        }
        acc = acc * 256 + (c[i] as u64);
        proof {
            assert(c@.subrange(0, i + 1).drop_last() =~= c@.subrange(0, i as int));
            assert(c@.subrange(0, i + 1).last() == c@[i as int]);
        }
        i = i + 1;
    }
    proof {
        assert(c@.subrange(0, c@.len() as int) =~= c@);
    }
    acc
}

pub proof fn lemma_pow256_monotone(a: nat, b: nat)
    requires
        a <= b,
    ensures
        pow256(a) <= pow256(b),
    decreases b,
{
    if a < b {
        lemma_pow256_monotone(a, (b - 1) as nat);
        lemma_pow256_pos((b - 1) as nat);
    }
}

/// Read an unsigned big-endian value of at most nine octets, the ninth
/// admissible only as a zero sign pad.
pub fn be_u64(c: &[u8]) -> (r: Option<u64>)
    requires
        1 <= c@.len() <= 9,
    ensures
        r is Some <==> val_be(c@) <= u64::MAX,
        r matches Some(v) ==> v as nat == val_be(c@),
{
    if c.len() == 9 {
        if c[0] != 0 {
            proof {
                lemma_val_be_lower(c@);
                lemma_pow256_unfold_8();
                assert(val_be(c@) >= c@[0] * pow256(8));
                assert(c@[0] * pow256(8) >= pow256(8)) by (nonlinear_arith)
                    requires
                        c@[0] >= 1,
                        pow256(8) >= 0,
                ;
            }
            None
        } else {
            let rest = vstd::slice::slice_subrange(c, 1, 9);
            let v = be_u64_small(rest);
            proof {
                assert(c@ =~= seq![0u8] + c@.subrange(1, 9));
                lemma_val_be_zero_pad(c@.subrange(1, 9));
            }
            Some(v)
        }
    } else {
        let v = be_u64_small(c);
        proof {
            lemma_val_be_bound(c@);
            lemma_pow256_unfold_8();
            lemma_pow256_monotone(c@.len(), 8);
        }
        Some(v)
    }
}

/// Read a signed big-endian value of one to four octets.
pub fn parse_i32_content(c: &[u8]) -> (r: i32)
    requires
        1 <= c@.len() <= 4,
    ensures
        r as int == sval_be(c@),
{
    let v = be_u64_small(c);
    proof {
        lemma_val_be_bound(c@);
        lemma_pow256_unfold_8();
        lemma_pow256_monotone(c@.len(), 4);
    }
    if c[0] >= 128 {
        let len = c.len();
        let m: i64 = if len == 1 {
            256
        } else if len == 2 {
            65536
        } else if len == 3 {
            16777216
        } else {
            4294967296
        };
        proof {
            assert(m == pow256(c@.len()));
            lemma_val_be_lower(c@);
            let p: int = pow256((c@.len() - 1) as nat) as int;
            lemma_pow256_monotone((c@.len() - 1) as nat, 3);
            assert(p <= 0x1000000);
            assert(val_be(c@) >= c@[0] * p);
            assert(c@[0] * p >= 128 * p) by (nonlinear_arith)
                requires
                    c@[0] >= 128,
                    p >= 0,
            ;
            assert(m == 256 * p);
            assert((v as int) - m >= 128 * p - 256 * p);
            assert((v as int) - m >= -128 * 0x1000000);
        }
        ((v as i64) - m) as i32
    } else {
        proof {
            lemma_val_be_upper(c@);
            let p: int = pow256((c@.len() - 1) as nat) as int;
            lemma_pow256_monotone((c@.len() - 1) as nat, 3);
            assert(p <= 0x1000000);
            assert(val_be(c@) < (c@[0] + 1) * p);
            assert((c@[0] + 1) * p <= 128 * p) by (nonlinear_arith)
                requires
                    c@[0] + 1 <= 128,
                    p >= 0,
            ;
            assert(128 * p <= 128 * 0x1000000);
        }
        v as i32
    }
}

/// Parse a definite-length field.
pub fn parse_len(s: &[u8]) -> (r: Result<(usize, usize), DecodeError>)
    ensures
        r matches Ok((l, n)) ==> spec_parse_len(s@) == Ok::<(nat, int), DecodeError>((
            l as nat,
            n as int,
        )),
        r matches Err(e) ==> spec_parse_len(s@) == Err::<(nat, int), DecodeError>(e),
{
    if s.len() == 0 {
        return Err(DecodeError::Truncated);
    }
    let b0 = s[0];
    if b0 < 128 {
        return Ok((b0 as usize, 1));
    }
    let k = (b0 - 128) as usize;
    if k == 0 || k > 8 {
        return Err(DecodeError::InvalidLength);
    }
    if s.len() < 1 + k {
        return Err(DecodeError::Truncated);
    }
    let digits = vstd::slice::slice_subrange(s, 1, 1 + k);
    let v = be_u64_small(digits);
    if v > usize::MAX as u64 {
        return Err(DecodeError::InvalidLength);
    }
    Ok((v as usize, 1 + k))
}

/// Parse a frame header; yields the tag, where the content starts, its
/// length, and the total octets consumed (`start + length`).
pub fn parse_tlv_header(s: &[u8]) -> (r: Result<(u8, usize, usize), DecodeError>)
    ensures
        r matches Ok((tag, cs, cl)) ==> {
            &&& spec_parse_tlv(s@) == Ok::<(u8, Seq<u8>, int), DecodeError>((
                tag,
                s@.subrange(cs as int, cs + cl),
                cs + cl,
            ))
            &&& cs + cl <= s@.len()
            &&& cs >= 2
        },
        r matches Err(e) ==> spec_parse_tlv(s@) == Err::<(u8, Seq<u8>, int), DecodeError>(e),
{
    if s.len() == 0 {
        return Err(DecodeError::Truncated);
    }
    let tail = vstd::slice::slice_subrange(s, 1, s.len());
    proof {
        assert(tail@ =~= s@.skip(1));
    }
    match parse_len(tail) {
        Err(e) => Err(e),
        Ok((l, ll)) => {
            // Octets consumed by the length field never reach near
            // usize::MAX, so 1 + ll cannot overflow.
            assert(ll <= 9);
            if s.len() - 1 - ll < l {
                return Err(DecodeError::Truncated);
            }
            Ok((s[0], 1 + ll, l))
        },
    }
}

/// Parse one base-128 arc.
pub fn parse_arc(s: &[u8]) -> (r: Result<(u64, usize), DecodeError>)
    ensures
        r matches Ok((v, n)) ==> spec_parse_arc(s@) == Ok::<(nat, int), DecodeError>((
            v as nat,
            n as int,
        )),
        r matches Err(e) ==> spec_parse_arc(s@) == Err::<(nat, int), DecodeError>(e),
        r matches Ok((v, n)) ==> 1 <= n <= s@.len(),
{
    let mut i: usize = 0;
    while i < s.len() && s[i] >= 128
        invariant
            0 <= i <= s@.len(),
            forall|j: int| 0 <= j < i ==> s@[j] >= 128,
        decreases s@.len() - i,
    {
        i = i + 1;
    }
    if i == s.len() {
        proof {
            lemma_arc_end_all_high(s@);
        }
        return Err(DecodeError::Truncated);
    }
    let n = i + 1;
    proof {
        lemma_arc_end_prefix(s@, n as int);
    }
    if n > 5 {
        return Err(DecodeError::InvalidLength);
    }
    let mut acc: u64 = 0;
    let mut j: usize = 0;
    proof {
        assert(s@.subrange(0, 0) =~= Seq::<u8>::empty());
        lemma_pow128_unfold_5();
    }
    while j < n
        invariant
            0 <= j <= n <= 5,
            n <= s@.len(),
            acc as nat == val_b128(s@.subrange(0, j as int)),
        decreases n - j,
    {
        proof {
            lemma_val_b128_bound(s@.subrange(0, j as int));
            lemma_pow128_unfold_5();
            lemma_pow128_monotone(j as nat, 4);
        }
        acc = acc * 128 + ((s[j] % 128) as u64);
        proof {
            assert(s@.subrange(0, j + 1).drop_last() =~= s@.subrange(0, j as int));
            assert(s@.subrange(0, j + 1).last() == s@[j as int]);
        }
        j = j + 1;
    }
    Ok((acc, n))
}

pub proof fn lemma_pow128_monotone(a: nat, b: nat)
    requires
        a <= b,
    ensures
        pow128(a) <= pow128(b),
    decreases b,
{
    if a < b {
        lemma_pow128_monotone(a, (b - 1) as nat);
        lemma_pow128_pos((b - 1) as nat);
    }
}

} // verus!
