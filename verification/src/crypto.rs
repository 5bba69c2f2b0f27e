//! Cryptographic capability tokens for distributed access control.
//!
//! Proof-carrying capabilities as Ed25519-signed tokens. An issuer signs a
//! token containing a principal and a capability; verifiers check the
//! signature with the issuer's public key alone. Grant tokens carry several
//! capabilities with their partitions, so that geometric containment
//! (write implies read) can be checked without a capability registry.
//!
//! Tokens travel in a length-prefixed binary wire format; encoding and
//! decoding are exact inverses on well-formed tokens.

use vstd::prelude::*;
use vstd::utf8::{decode_utf8, encode_utf8, encode_utf8_decode_utf8, decode_utf8_encode_utf8, encode_utf8_valid_utf8, valid_utf8};
use vstd::string::StringSliceAdditionalSpecFns;
use vstd::relations::{sorted_by, total_ordering};
use crate::capability::CapabilityId;
use crate::error::{Result, SchubertError};
use crate::principal::PrincipalId;
use crate::util::owned;
use ed25519_dalek::Signer;
use rand::RngCore;

verus! {

/// Length of an Ed25519 public key in bytes.
pub const ISSUER_KEY_LEN: usize = 32;

/// Length of an Ed25519 signature in bytes.
pub const SIG_LEN: usize = 64;

// ── Wire format ───────────────────────────────────────────────────────

/// A length as two big-endian bytes (taken modulo 2¹⁶).
pub open spec fn be16(x: int) -> Seq<u8> {
    seq![((x / 256) % 256) as u8, (x % 256) as u8]
}

/// The big-endian 16-bit value at `pos`.
pub open spec fn u16_at(b: Seq<u8>, pos: int) -> int {
    b[pos] as int * 256 + b[pos + 1] as int
}

/// The UTF-8 bytes of a string.
pub open spec fn utf8(s: Seq<char>) -> Seq<u8> {
    encode_utf8(s)
}

/// Why a byte string is not a well-formed token.
#[derive(Debug, Clone, Copy, PartialEq, Eq, Structural)]
pub enum WireFault {
    /// A 16-bit length is cut off.
    TruncatedU16,
    /// An 8-bit length is cut off.
    TruncatedU8,
    /// A field is cut off.
    TruncatedField,
    /// A partition is cut off.
    TruncatedPartition,
    /// A text field is not UTF-8.
    NonUtf8,
    /// Bytes follow the signature.
    Trailing,
}

/// The error text of a fault, for single-capability tokens; a non-UTF-8
/// field's text goes on with the decoder's own description.
pub open spec fn token_fault_text(f: WireFault, m: Seq<char>) -> bool {
    match f {
        WireFault::TruncatedU16 => m == "truncated token: expected u16"@,
        WireFault::TruncatedU8 => m == "truncated token: expected u8"@,
        WireFault::TruncatedField => m == "truncated token field"@,
        WireFault::TruncatedPartition => m == "truncated partition in grant token"@,
        WireFault::NonUtf8 => m.len() >= "non-utf8 token field: "@.len() && m.subrange(
            0,
            "non-utf8 token field: "@.len() as int,
        ) == "non-utf8 token field: "@,
        WireFault::Trailing => m == "trailing bytes in token"@,
    }
}

/// The error text of a fault, for grant tokens.
pub open spec fn grant_fault_text(f: WireFault, m: Seq<char>) -> bool {
    match f {
        WireFault::Trailing => m == "trailing bytes in grant token"@,
        _ => token_fault_text(f, m),
    }
}

/// Appends bytes to a buffer.
fn append_bytes(buf: &mut Vec<u8>, bytes: &[u8])
    ensures
        final(buf)@ == old(buf)@ + bytes@,
{
    let ghost start = buf@;
    let mut i: usize = 0;
    while i < bytes.len()
        invariant
            i <= bytes@.len(),
            buf@ == start + bytes@.subrange(0, i as int),
        decreases bytes.len() - i,
    {
        buf.push(bytes[i]);
        assert(buf@ =~= start + bytes@.subrange(0, i + 1));
        i = i + 1;
    }
    assert(bytes@.subrange(0, i as int) =~= bytes@);
}

/// Appends a length as two big-endian bytes, modulo 2¹⁶.
fn append_be16(buf: &mut Vec<u8>, x: usize)
    ensures
        final(buf)@ == old(buf)@ + be16(x as int),
{
    let hi = ((x / 256) % 256) as u8;
    let lo = (x % 256) as u8;
    buf.push(hi);
    buf.push(lo);
    assert(buf@ =~= old(buf)@ + be16(x as int));
}

/// Read a big-endian u16 length at `pos`, advancing past it.
pub fn read_u16(buf: &[u8], pos: &mut usize) -> (r: Result<usize>)
    requires
        *old(pos) <= buf@.len(),
    ensures
        *old(pos) + 2 > buf@.len() ==> (r matches Err(SchubertError::CryptoVerificationFailed(m))
            && m@ == "truncated token: expected u16"@ && *final(pos) == *old(pos)),
        *old(pos) + 2 <= buf@.len() ==> (r matches Ok(v) && v == u16_at(buf@, *old(pos) as int) && *final(pos)
            == *old(pos) + 2),
{
    if buf.len() - *pos < 2 {
        return Err(SchubertError::CryptoVerificationFailed(owned("truncated token: expected u16")));
    }
    let p = *pos;
    let v = (buf[p] as usize) * 256 + (buf[p + 1] as usize);
    *pos = p + 2;
    Ok(v)
}

/// Read a u8 length at `pos`, advancing past it.
pub fn read_u8(buf: &[u8], pos: &mut usize) -> (r: Result<usize>)
    requires
        *old(pos) <= buf@.len(),
    ensures
        *old(pos) + 1 > buf@.len() ==> (r matches Err(SchubertError::CryptoVerificationFailed(m))
            && m@ == "truncated token: expected u8"@ && *final(pos) == *old(pos)),
        *old(pos) + 1 <= buf@.len() ==> (r matches Ok(v) && v == buf@[*old(pos) as int] && *final(pos) == *old(pos)
            + 1),
{
    if *pos >= buf.len() {
        return Err(SchubertError::CryptoVerificationFailed(owned("truncated token: expected u8")));
    }
    let v = buf[*pos] as usize;
    *pos = *pos + 1;
    Ok(v)
}

/// Read `len` bytes at `pos`, advancing past them.
pub fn read_bytes<'a>(buf: &'a [u8], pos: &mut usize, len: usize) -> (r: Result<&'a [u8]>)
    requires
        *old(pos) <= buf@.len(),
    ensures
        *old(pos) + len > buf@.len() ==> (r matches Err(SchubertError::CryptoVerificationFailed(m))
            && m@ == "truncated token field"@ && *final(pos) == *old(pos)),
        *old(pos) + len <= buf@.len() ==> (r matches Ok(s) && s@ == buf@.subrange(
            *old(pos) as int,
            *old(pos) + len,
        ) && *final(pos) == *old(pos) + len),
{
    if len > buf.len() - *pos {
        return Err(SchubertError::CryptoVerificationFailed(owned("truncated token field")));
    }
    let p = *pos;
    let s = vstd::slice::slice_subrange(buf, p, p + len);
    *pos = p + len;
    Ok(s)
}

/// Decodes UTF-8 bytes into a string with `String::from_utf8`, which
/// succeeds exactly on valid UTF-8 and then holds the decoded characters;
/// on failure, the error's text (left unstated).
#[verifier::external_body]
fn string_from_utf8(bytes: Vec<u8>) -> (r: std::result::Result<String, String>)
    ensures
        (r is Ok) == valid_utf8(bytes@),
        r matches Ok(s) ==> s@ == decode_utf8(bytes@),
{
    String::from_utf8(bytes).map_err(|e| e.to_string())
}

/// Read a `len`-byte UTF-8 string at `pos`, advancing past it.
pub fn read_str(buf: &[u8], pos: &mut usize, len: usize) -> (r: Result<String>)
    requires
        *old(pos) <= buf@.len(),
    ensures
        *old(pos) + len > buf@.len() ==> (r matches Err(SchubertError::CryptoVerificationFailed(m))
            && m@ == "truncated token field"@),
        *old(pos) + len <= buf@.len() && !valid_utf8(buf@.subrange(*old(pos) as int, *old(pos) + len))
            ==> (r matches Err(SchubertError::CryptoVerificationFailed(m)) && token_fault_text(
            WireFault::NonUtf8,
            m@,
        )),
        *old(pos) + len <= buf@.len() && valid_utf8(buf@.subrange(*old(pos) as int, *old(pos) + len))
            ==> (r matches Ok(s) && s@ == decode_utf8(buf@.subrange(*old(pos) as int, *old(pos) + len))
            && *final(pos) == *old(pos) + len),
{
    let bytes = read_bytes(buf, pos, len)?;
    let v = vstd::slice::slice_to_vec(bytes);
    match string_from_utf8(v) {
        Ok(s) => Ok(s),
        Err(e) => {
            let mut m = owned("non-utf8 token field: ");
            m.append(e.as_str());
            proof {
                assert(m@.subrange(0, "non-utf8 token field: "@.len() as int) =~= "non-utf8 token field: "@);
            }
            Err(SchubertError::CryptoVerificationFailed(m))
        },
    }
}

// ── Single-capability tokens ──────────────────────────────────────────

/// A cryptographic capability token — a signed assertion that a principal
/// holds a specific capability.
#[derive(Debug, Clone)]
pub struct CapabilityToken {
    /// The principal this token is issued to.
    pub principal: PrincipalId,
    /// The capability granted by this token.
    pub capability: CapabilityId,
    /// The issuer's public key (Ed25519, 32 bytes).
    pub issuer_key: Vec<u8>,
    /// Ed25519 signature over `principal || 0 || capability || 0 || issuer_key`.
    pub signature: Vec<u8>,
}

/// The wire encoding of a token's fields:
/// `u16 BE principal_len | principal | u16 BE capability_len | capability |
/// issuer key | signature`.
pub open spec fn token_wire(p: Seq<char>, c: Seq<char>, key: Seq<u8>, sig: Seq<u8>) -> Seq<u8> {
    be16(utf8(p).len() as int) + utf8(p) + be16(utf8(c).len() as int) + utf8(c) + key + sig
}

/// What decoding a byte string as a token gives: its principal,
/// capability, issuer key and signature, or the first fault met.
pub open spec fn token_decode(b: Seq<u8>) -> std::result::Result<(Seq<char>, Seq<char>, Seq<u8>, Seq<u8>), WireFault> {
    if b.len() < 2 {
        Err(WireFault::TruncatedU16)
    } else {
        let p0 = 2int;
        let p1 = p0 + u16_at(b, 0);
        if p1 > b.len() {
            Err(WireFault::TruncatedField)
        } else if !valid_utf8(b.subrange(p0, p1)) {
            Err(WireFault::NonUtf8)
        } else if p1 + 2 > b.len() {
            Err(WireFault::TruncatedU16)
        } else {
            let c0 = p1 + 2;
            let c1 = c0 + u16_at(b, p1);
            if c1 > b.len() {
                Err(WireFault::TruncatedField)
            } else if !valid_utf8(b.subrange(c0, c1)) {
                Err(WireFault::NonUtf8)
            } else if c1 + 32 + 64 > b.len() {
                Err(WireFault::TruncatedField)
            } else if c1 + 32 + 64 != b.len() {
                Err(WireFault::Trailing)
            } else {
                Ok((
                    decode_utf8(b.subrange(p0, p1)),
                    decode_utf8(b.subrange(c0, c1)),
                    b.subrange(c1, c1 + 32),
                    b.subrange(c1 + 32, c1 + 96),
                ))
            }
        }
    }
}

impl CapabilityToken {
    /// The wire encoding of this token.
    pub open spec fn wire(&self) -> Seq<u8> {
        token_wire(self.principal.0@, self.capability.0@, self.issuer_key@, self.signature@)
    }

    /// Serialize the token to the binary wire format:
    /// `u16 BE principal_len | principal utf-8 | u16 BE capability_len |
    /// capability utf-8 | 32-byte issuer key | 64-byte signature`.
    /// Lengths are written modulo 2¹⁶.
    pub fn to_bytes(token: &Self) -> (r: Vec<u8>)
        ensures
            r@ == token.wire(),
    {
        let p = token.principal.0.as_str().as_bytes();
        let c = token.capability.0.as_str().as_bytes();
        let mut buf: Vec<u8> = Vec::new();
        append_be16(&mut buf, p.len());
        append_bytes(&mut buf, p);
        append_be16(&mut buf, c.len());
        append_bytes(&mut buf, c);
        append_bytes(&mut buf, token.issuer_key.as_slice());
        append_bytes(&mut buf, token.signature.as_slice());
        buf
    }

    /// Deserialize a token from the binary wire format; truncated,
    /// non-UTF-8 or over-long input is rejected.
    pub fn from_bytes(bytes: &[u8]) -> (r: Result<Self>)
        ensures
            match token_decode(bytes@) {
                Ok((p, c, key, sig)) => r matches Ok(t) && t.principal.0@ == p && t.capability.0@ == c
                    && t.issuer_key@ == key && t.signature@ == sig,
                Err(f) => r matches Err(SchubertError::CryptoVerificationFailed(m)) && token_fault_text(f, m@),
            },
    {
        let mut pos: usize = 0;
        let plen = read_u16(bytes, &mut pos)?;
        let principal = read_str(bytes, &mut pos, plen)?;
        let clen = read_u16(bytes, &mut pos)?;
        let capability = read_str(bytes, &mut pos, clen)?;
        let issuer_key = read_bytes(bytes, &mut pos, ISSUER_KEY_LEN)?;
        let signature = read_bytes(bytes, &mut pos, SIG_LEN)?;
        if pos != bytes.len() {
            return Err(SchubertError::CryptoVerificationFailed(owned("trailing bytes in token")));
        }
        Ok(
            CapabilityToken {
                principal: PrincipalId(principal),
                capability: CapabilityId(capability),
                issuer_key: vstd::slice::slice_to_vec(issuer_key),
                signature: vstd::slice::slice_to_vec(signature),
            },
        )
    }
}

proof fn lemma_be16(x: int)
    requires
        0 <= x < 65536,
    ensures
        u16_at(be16(x), 0) == x,
{
    assert((x / 256) % 256 == x / 256) by (nonlinear_arith)
        requires
            0 <= x < 65536,
    ;
    assert((x / 256) * 256 + x % 256 == x) by (nonlinear_arith)
        requires
            0 <= x,
    ;
}

/// Decoding an encoded token gives its fields back, for text fields of at
/// most 65535 UTF-8 bytes, a 32-byte key and a 64-byte signature.
pub proof fn law_token_roundtrip(p: Seq<char>, c: Seq<char>, key: Seq<u8>, sig: Seq<u8>)
    requires
        utf8(p).len() <= 65535,
        utf8(c).len() <= 65535,
        key.len() == 32,
        sig.len() == 64,
    ensures
        token_decode(token_wire(p, c, key, sig)) == std::result::Result::<
            (Seq<char>, Seq<char>, Seq<u8>, Seq<u8>),
            WireFault,
        >::Ok((p, c, key, sig)),
{
    let b = token_wire(p, c, key, sig);
    let pb = utf8(p);
    let cb = utf8(c);
    lemma_be16(pb.len() as int);
    lemma_be16(cb.len() as int);
    encode_utf8_valid_utf8(p);
    encode_utf8_valid_utf8(c);
    encode_utf8_decode_utf8(p);
    encode_utf8_decode_utf8(c);
    let p1: int = 2 + pb.len() as int;
    let c0: int = p1 + 2;
    let c1: int = c0 + cb.len() as int;
    assert(b[0] == be16(pb.len() as int)[0] && b[1] == be16(pb.len() as int)[1]);
    assert(u16_at(b, 0) == pb.len());
    assert(b.subrange(2, p1) =~= pb);
    assert(b[p1] == be16(cb.len() as int)[0] && b[p1 + 1] == be16(cb.len() as int)[1]);
    assert(u16_at(b, p1) == cb.len());
    assert(b.subrange(c0, c1) =~= cb);
    assert(b.subrange(c1, c1 + 32) =~= key);
    assert(b.subrange(c1 + 32, c1 + 96) =~= sig);
}

/// Encoding a decoded token gives the bytes back: the wire format has one
/// encoding per token.
pub proof fn law_token_canonical(b: Seq<u8>)
    requires
        token_decode(b) is Ok,
    ensures
        token_decode(b) matches Ok((p, c, key, sig)) && token_wire(p, c, key, sig) == b,
{
    let p0 = 2int;
    let p1 = p0 + u16_at(b, 0);
    let c0 = p1 + 2;
    let c1 = c0 + u16_at(b, p1);
    let pb = b.subrange(p0, p1);
    let cb = b.subrange(c0, c1);
    decode_utf8_encode_utf8(pb);
    decode_utf8_encode_utf8(cb);
    assert(be16(pb.len() as int) =~= b.subrange(0, 2)) by {
        assert(pb.len() == u16_at(b, 0));
        let x = u16_at(b, 0);
        assert((x / 256) % 256 == b[0] as int && x % 256 == b[1] as int) by (nonlinear_arith)
            requires
                x == b[0] as int * 256 + b[1] as int,
                0 <= b[0] < 256,
                0 <= b[1] < 256,
        ;
    }
    assert(be16(cb.len() as int) =~= b.subrange(p1, p1 + 2)) by {
        let x = u16_at(b, p1);
        assert((x / 256) % 256 == b[p1] as int && x % 256 == b[p1 + 1] as int) by (nonlinear_arith)
            requires
                x == b[p1] as int * 256 + b[p1 + 1] as int,
                0 <= b[p1] < 256,
                0 <= b[p1 + 1] < 256,
        ;
    }
    assert(token_wire(decode_utf8(pb), decode_utf8(cb), b.subrange(c1, c1 + 32), b.subrange(c1 + 32, c1 + 96)) =~= b);
}

// ── Grant tokens ──────────────────────────────────────────────────────

/// A capability entry within a grant token: its identifier and Schubert
/// partition, both signed.
#[derive(Debug, Clone, PartialEq, Eq)]
pub struct GrantCapability {
    /// The capability identifier.
    pub id: CapabilityId,
    /// The Schubert partition defining this capability's geometric condition.
    pub partition: Vec<usize>,
}

/// A multi-capability grant token: a principal, capabilities with their
/// partitions, the issuer's public key and an Ed25519 signature.
#[derive(Debug, Clone, PartialEq, Eq)]
pub struct GrantToken {
    /// The principal this grant is issued to.
    pub principal: PrincipalId,
    /// The granted capabilities with their partitions.
    pub capabilities: Vec<GrantCapability>,
    /// The issuer's public key (Ed25519, 32 bytes).
    pub issuer_key: Vec<u8>,
    /// Ed25519 signature over the canonical encoding of principal,
    /// capabilities, and issuer key.
    pub signature: Vec<u8>,
}

/// The (identifier, partition) of each entry.
pub open spec fn entries_view(caps: Seq<GrantCapability>) -> Seq<(Seq<char>, Seq<usize>)> {
    Seq::new(caps.len(), |i: int| (caps[i].id.0@, caps[i].partition@))
}

/// The parts of a partition as bytes (each modulo 256).
pub open spec fn part_bytes(part: Seq<usize>) -> Seq<u8> {
    Seq::new(part.len(), |i: int| (part[i] % 256) as u8)
}

/// The wire encoding of one entry: `u16 BE id_len | id | u8 part_count |
/// parts`.
pub open spec fn entry_wire(e: (Seq<char>, Seq<usize>)) -> Seq<u8> {
    be16(utf8(e.0).len() as int) + utf8(e.0) + seq![(e.1.len() % 256) as u8] + part_bytes(e.1)
}

/// The wire encoding of a list of entries, in order.
pub open spec fn entries_wire(es: Seq<(Seq<char>, Seq<usize>)>) -> Seq<u8>
    decreases es.len(),
{
    if es.len() == 0 {
        Seq::empty()
    } else {
        entry_wire(es[0]) + entries_wire(es.drop_first())
    }
}

/// The wire encoding of a grant token's fields.
pub open spec fn grant_wire(p: Seq<char>, es: Seq<(Seq<char>, Seq<usize>)>, key: Seq<u8>, sig: Seq<u8>) -> Seq<u8> {
    be16(utf8(p).len() as int) + utf8(p) + be16(es.len() as int) + entries_wire(es) + key + sig
}

/// Decoding one entry at `pos`: the entry and the position after it, or the
/// first fault.
pub open spec fn entry_decode(b: Seq<u8>, pos: int) -> std::result::Result<((Seq<char>, Seq<usize>), int), WireFault> {
    if pos + 2 > b.len() {
        Err(WireFault::TruncatedU16)
    } else {
        let i0 = pos + 2;
        let i1 = i0 + u16_at(b, pos);
        if i1 > b.len() {
            Err(WireFault::TruncatedField)
        } else if !valid_utf8(b.subrange(i0, i1)) {
            Err(WireFault::NonUtf8)
        } else if i1 + 1 > b.len() {
            Err(WireFault::TruncatedU8)
        } else {
            let q0 = i1 + 1;
            let m = b[i1] as int;
            if q0 + m > b.len() {
                Err(WireFault::TruncatedPartition)
            } else {
                Ok(((decode_utf8(b.subrange(i0, i1)), Seq::new(m as nat, |j: int| b[q0 + j] as usize)), q0 + m))
            }
        }
    }
}

/// Decoding `count` entries from `pos`: the entries and the position after
/// them, or the first fault.
pub open spec fn entries_decode(b: Seq<u8>, pos: int, count: nat) -> std::result::Result<(Seq<(Seq<char>, Seq<usize>)>, int), WireFault>
    decreases count,
{
    if count == 0 {
        Ok((Seq::empty(), pos))
    } else {
        match entry_decode(b, pos) {
            Err(f) => Err(f),
            Ok((e, next)) => match entries_decode(b, next, (count - 1) as nat) {
                Err(f) => Err(f),
                Ok((rest, end)) => Ok((seq![e] + rest, end)),
            },
        }
    }
}

/// What decoding a byte string as a grant token gives, or the first fault.
pub open spec fn grant_decode(b: Seq<u8>) -> std::result::Result<(Seq<char>, Seq<(Seq<char>, Seq<usize>)>, Seq<u8>, Seq<u8>), WireFault> {
    if b.len() < 2 {
        Err(WireFault::TruncatedU16)
    } else {
        let p0 = 2int;
        let p1 = p0 + u16_at(b, 0);
        if p1 > b.len() {
            Err(WireFault::TruncatedField)
        } else if !valid_utf8(b.subrange(p0, p1)) {
            Err(WireFault::NonUtf8)
        } else if p1 + 2 > b.len() {
            Err(WireFault::TruncatedU16)
        } else {
            match entries_decode(b, p1 + 2, u16_at(b, p1) as nat) {
                Err(f) => Err(f),
                Ok((es, e)) => if e + 32 + 64 > b.len() {
                    Err(WireFault::TruncatedField)
                } else if e + 32 + 64 != b.len() {
                    Err(WireFault::Trailing)
                } else {
                    Ok((decode_utf8(b.subrange(p0, p1)), es, b.subrange(e, e + 32), b.subrange(e + 32, e + 96)))
                },
            }
        }
    }
}

proof fn lemma_entries_wire_snoc(es: Seq<(Seq<char>, Seq<usize>)>, e: (Seq<char>, Seq<usize>))
    ensures
        entries_wire(es.push(e)) == entries_wire(es) + entry_wire(e),
    decreases es.len(),
{
    if es.len() == 0 {
        assert(es.push(e).drop_first() =~= Seq::<(Seq<char>, Seq<usize>)>::empty());
        assert(es.push(e)[0] == e);
        assert(entries_wire(es.push(e).drop_first()) == Seq::<u8>::empty());
        assert(entries_wire(es.push(e)) =~= entry_wire(e));
    } else {
        lemma_entries_wire_snoc(es.drop_first(), e);
        assert(es.push(e).drop_first() =~= es.drop_first().push(e));
        assert(es.push(e)[0] == es[0]);
        assert(entries_wire(es.push(e)) =~= entries_wire(es) + entry_wire(e));
    }
}

/// Appends the wire encoding of one entry.
fn append_entry(buf: &mut Vec<u8>, cap: &GrantCapability)
    ensures
        final(buf)@ == old(buf)@ + entry_wire((cap.id.0@, cap.partition@)),
{
    let c = cap.id.0.as_str().as_bytes();
    let ghost start = buf@;
    append_be16(buf, c.len());
    append_bytes(buf, c);
    buf.push((cap.partition.len() % 256) as u8);
    let ghost head = buf@;
    let mut i: usize = 0;
    while i < cap.partition.len()
        invariant
            i <= cap.partition@.len(),
            buf@ == head + part_bytes(cap.partition@.subrange(0, i as int)),
        decreases cap.partition.len() - i,
    {
        buf.push((cap.partition[i] % 256) as u8);
        assert(buf@ =~= head + part_bytes(cap.partition@.subrange(0, i + 1)));
        i = i + 1;
    }
    assert(cap.partition@.subrange(0, i as int) =~= cap.partition@);
    assert(buf@ =~= start + entry_wire((cap.id.0@, cap.partition@)));
}

impl GrantToken {
    /// The wire encoding of this grant.
    pub open spec fn wire(&self) -> Seq<u8> {
        grant_wire(self.principal.0@, entries_view(self.capabilities@), self.issuer_key@, self.signature@)
    }

    /// Serialize a grant token to the binary wire format:
    /// `u16 BE principal_len | principal | u16 BE cap_count | for each
    /// capability (u16 BE id_len | id | u8 part_count | parts) | 32-byte
    /// issuer key | 64-byte signature`. Lengths and parts are written modulo
    /// the width of their field.
    pub fn to_bytes(token: &Self) -> (r: Vec<u8>)
        ensures
            r@ == token.wire(),
    {
        let p = token.principal.0.as_str().as_bytes();
        let mut buf: Vec<u8> = Vec::new();
        append_be16(&mut buf, p.len());
        append_bytes(&mut buf, p);
        append_be16(&mut buf, token.capabilities.len());
        let ghost head = buf@;
        let ghost es = entries_view(token.capabilities@);
        let mut i: usize = 0;
        while i < token.capabilities.len()
            invariant
                es == entries_view(token.capabilities@),
                i <= token.capabilities@.len(),
                buf@ == head + entries_wire(es.subrange(0, i as int)),
            decreases token.capabilities.len() - i,
        {
            append_entry(&mut buf, &token.capabilities[i]);
            proof {
                lemma_entries_wire_snoc(es.subrange(0, i as int), es[i as int]);
                assert(es.subrange(0, i as int).push(es[i as int]) =~= es.subrange(0, i + 1));
            }
            i = i + 1;
        }
        assert(es.subrange(0, i as int) =~= es);
        append_bytes(&mut buf, token.issuer_key.as_slice());
        append_bytes(&mut buf, token.signature.as_slice());
        buf
    }

    /// Deserialize a grant token from the binary wire format; truncated,
    /// non-UTF-8 or over-long input is rejected.
    pub fn from_bytes(bytes: &[u8]) -> (r: Result<Self>)
        ensures
            match grant_decode(bytes@) {
                Ok((p, es, key, sig)) => r matches Ok(t) && t.principal.0@ == p && entries_view(t.capabilities@)
                    == es && t.issuer_key@ == key && t.signature@ == sig,
                Err(f) => r matches Err(SchubertError::CryptoVerificationFailed(m)) && grant_fault_text(f, m@),
            },
    {
        let ghost b = bytes@;
        let mut pos: usize = 0;
        let plen = read_u16(bytes, &mut pos)?;
        let principal = read_str(bytes, &mut pos, plen)?;
        let cap_count = read_u16(bytes, &mut pos)?;
        let ghost start = pos as int;
        let mut capabilities: Vec<GrantCapability> = Vec::new();
        let mut i: usize = 0;
        while i < cap_count
            invariant
                b == bytes@,
                pos <= b.len(),
                i <= cap_count,
                cap_count == u16_at(b, start - 2),
                2 <= start,
                start == 2 + plen + 2,
                plen == u16_at(b, 0),
                b.len() >= 2,
                start <= b.len(),
                valid_utf8(b.subrange(2, 2 + plen)),
                principal@ == decode_utf8(b.subrange(2, 2 + plen)),
                entries_decode(b, start, cap_count as nat) == prepend(
                    entries_view(capabilities@),
                    entries_decode(b, pos as int, (cap_count - i) as nat),
                ),
            decreases cap_count - i,
        {
            let ghost at = pos as int;
            let clen = read_u16(bytes, &mut pos)?;
            let cap_id = read_str(bytes, &mut pos, clen)?;
            let m = read_u8(bytes, &mut pos)?;
            let ghost q0 = pos as int;
            let mut partition: Vec<usize> = Vec::new();
            let mut j: usize = 0;
            while j < m
                invariant
                    b == bytes@,
                    j <= m,
                    pos == q0 + j,
                    pos <= b.len(),
                    partition@ == Seq::new(j as nat, |t: int| b[q0 + t] as usize),
                    q0 >= 1,
                    m == b[q0 - 1],
                    entries_decode(b, start, cap_count as nat) == prepend(
                        entries_view(capabilities@),
                        entries_decode(b, at, (cap_count - i) as nat),
                    ),
                    i < cap_count,
                    entry_decode(b, at) matches Ok((e, next)) ==> next == q0 + m,
                    q0 + m > b.len() ==> entry_decode(b, at) == std::result::Result::<((Seq<char>, Seq<usize>), int), WireFault>::Err(
                        WireFault::TruncatedPartition,
                    ),
                    start == 2 + plen + 2,
                    plen == u16_at(b, 0),
                    b.len() >= 2,
                    start <= b.len(),
                    valid_utf8(b.subrange(2, 2 + plen)),
                    cap_count == u16_at(b, start - 2),
                decreases m - j,
            {
                match read_u8(bytes, &mut pos) {
                    Err(_) => {
                        assert(q0 + m > b.len());
                        return Err(
                            SchubertError::CryptoVerificationFailed(owned("truncated partition in grant token")),
                        );
                    },
                    Ok(v) => {
                        partition.push(v);
                        assert(partition@ =~= Seq::new((j + 1) as nat, |t: int| b[q0 + t] as usize));
                    },
                }
                j = j + 1;
            }
            let ghost before = entries_view(capabilities@);
            capabilities.push(GrantCapability { id: CapabilityId(cap_id), partition });
            proof {
                let e = (capabilities@.last().id.0@, capabilities@.last().partition@);
                assert(entry_decode(b, at) == std::result::Result::<((Seq<char>, Seq<usize>), int), WireFault>::Ok((e, pos as int)));
                assert(entries_view(capabilities@) =~= before.push(e));
                let rest = entries_decode(b, pos as int, (cap_count - i - 1) as nat);
                match rest {
                    Ok((rs, end)) => {
                        assert(before + (seq![e] + rs) =~= before.push(e) + rs);
                    },
                    Err(f) => {},
                }
            }
            i = i + 1;
        }
        proof {
            assert(entries_decode(b, pos as int, 0) == std::result::Result::<(Seq<(Seq<char>, Seq<usize>)>, int), WireFault>::Ok((Seq::empty(), pos as int)));
            assert(entries_view(capabilities@) + Seq::<(Seq<char>, Seq<usize>)>::empty() =~= entries_view(capabilities@));
        }
        let issuer_key = read_bytes(bytes, &mut pos, ISSUER_KEY_LEN)?;
        let signature = read_bytes(bytes, &mut pos, SIG_LEN)?;
        if pos != bytes.len() {
            return Err(SchubertError::CryptoVerificationFailed(owned("trailing bytes in grant token")));
        }
        Ok(
            GrantToken {
                principal: PrincipalId(principal),
                capabilities,
                issuer_key: vstd::slice::slice_to_vec(issuer_key),
                signature: vstd::slice::slice_to_vec(signature),
            },
        )
    }
}

/// Decoded entries preceded by entries already read.
pub open spec fn prepend(
    acc: Seq<(Seq<char>, Seq<usize>)>,
    r: std::result::Result<(Seq<(Seq<char>, Seq<usize>)>, int), WireFault>,
) -> std::result::Result<(Seq<(Seq<char>, Seq<usize>)>, int), WireFault> {
    match r {
        Ok((es, end)) => Ok((acc + es, end)),
        Err(f) => Err(f),
    }
}

/// An entry fits the wire format: an identifier of at most 65535 UTF-8
/// bytes, at most 255 parts, each at most 255.
pub open spec fn entry_fits(e: (Seq<char>, Seq<usize>)) -> bool {
    &&& utf8(e.0).len() <= 65535
    &&& e.1.len() <= 255
    &&& forall|j: int| 0 <= j < e.1.len() ==> #[trigger] e.1[j] <= 255
}

proof fn lemma_entry_decode(b: Seq<u8>, pos: int, e: (Seq<char>, Seq<usize>))
    requires
        entry_fits(e),
        0 <= pos,
        pos + entry_wire(e).len() <= b.len(),
        b.subrange(pos, pos + entry_wire(e).len()) == entry_wire(e),
    ensures
        entry_decode(b, pos) == std::result::Result::<((Seq<char>, Seq<usize>), int), WireFault>::Ok(
            (e, pos + entry_wire(e).len()),
        ),
{
    let w = entry_wire(e);
    let ib = utf8(e.0);
    lemma_be16(ib.len() as int);
    encode_utf8_valid_utf8(e.0);
    encode_utf8_decode_utf8(e.0);
    assert(b[pos] == w[0] && b[pos + 1] == w[1]);
    assert(u16_at(b, pos) == ib.len());
    let i0 = pos + 2;
    let i1: int = i0 + ib.len() as int;
    assert(b.subrange(i0, i1) =~= ib) by {
        assert forall|t: int| 0 <= t < ib.len() implies b.subrange(i0, i1)[t] == ib[t] by {
            assert(b[i0 + t] == w[2 + t]);
        }
    }
    assert(b[i1] == w[2 + ib.len() as int]);
    assert(b[i1] as int == e.1.len());
    let q0 = i1 + 1;
    assert(Seq::new(e.1.len(), |j: int| b[q0 + j] as usize) =~= e.1) by {
        assert forall|j: int| 0 <= j < e.1.len() implies b[q0 + j] as usize == e.1[j] by {
            assert(b[q0 + j] == w[3 + ib.len() as int + j]);
            assert(w[3 + ib.len() as int + j] == part_bytes(e.1)[j]);
        }
    }
}

proof fn lemma_entries_decode(b: Seq<u8>, pos: int, es: Seq<(Seq<char>, Seq<usize>)>)
    requires
        forall|i: int| 0 <= i < es.len() ==> entry_fits(#[trigger] es[i]),
        0 <= pos,
        pos + entries_wire(es).len() <= b.len(),
        b.subrange(pos, pos + entries_wire(es).len()) == entries_wire(es),
    ensures
        entries_decode(b, pos, es.len()) == std::result::Result::<(Seq<(Seq<char>, Seq<usize>)>, int), WireFault>::Ok(
            (es, pos + entries_wire(es).len()),
        ),
    decreases es.len(),
{
    if es.len() > 0 {
        let w = entries_wire(es);
        let w0 = entry_wire(es[0]);
        let rest = es.drop_first();
        assert(w == w0 + entries_wire(rest));
        assert(b.subrange(pos, pos + w0.len()) =~= w0) by {
            assert forall|t: int| 0 <= t < w0.len() implies b.subrange(pos, pos + w0.len())[t] == w0[t] by {
                assert(b.subrange(pos, pos + w.len())[t] == w[t]);
            }
        }
        assert(entry_fits(es[0]));
        lemma_entry_decode(b, pos, es[0]);
        let next: int = pos + w0.len() as int;
        assert(b.subrange(next, next + entries_wire(rest).len()) =~= entries_wire(rest)) by {
            assert forall|t: int| 0 <= t < entries_wire(rest).len() implies b.subrange(next, next + entries_wire(rest).len())[t]
                == entries_wire(rest)[t] by {
                assert(b.subrange(pos, pos + w.len())[w0.len() as int + t] == w[w0.len() as int + t]);
            }
        }
        assert forall|i: int| 0 <= i < rest.len() implies entry_fits(#[trigger] rest[i]) by {
            assert(rest[i] == es[i + 1]);
        }
        lemma_entries_decode(b, next, rest);
        assert(seq![es[0]] + rest =~= es);
        assert(w.len() == w0.len() + entries_wire(rest).len());
    } else {
        assert(es =~= Seq::<(Seq<char>, Seq<usize>)>::empty());
        assert(entries_wire(es).len() == 0);
    }
}

/// The two bytes at `pos` are the big-endian encoding of the value they hold.
proof fn lemma_be16_at(b: Seq<u8>, pos: int)
    requires
        0 <= pos,
        pos + 2 <= b.len(),
    ensures
        be16(u16_at(b, pos)) =~= b.subrange(pos, pos + 2),
{
    let x = u16_at(b, pos);
    assert((x / 256) % 256 == b[pos] as int && x % 256 == b[pos + 1] as int) by (nonlinear_arith)
        requires
            x == b[pos] as int * 256 + b[pos + 1] as int,
            0 <= b[pos] < 256,
            0 <= b[pos + 1] < 256,
    ;
}

/// A decoded entry is encoded by exactly the bytes it was decoded from.
proof fn lemma_entry_canonical(b: Seq<u8>, pos: int, e: (Seq<char>, Seq<usize>), next: int)
    requires
        0 <= pos,
        entry_decode(b, pos) == std::result::Result::<((Seq<char>, Seq<usize>), int), WireFault>::Ok((e, next)),
    ensures
        pos <= next <= b.len(),
        b.subrange(pos, next) == entry_wire(e),
{
    let i0 = pos + 2;
    let i1 = i0 + u16_at(b, pos);
    let ib = b.subrange(i0, i1);
    let q0 = i1 + 1;
    let m = b[i1] as int;
    decode_utf8_encode_utf8(ib);
    lemma_be16_at(b, pos);
    assert(utf8(e.0) == ib);
    assert(e.1.len() == m);
    assert(seq![(e.1.len() % 256) as u8] =~= b.subrange(i1, q0));
    assert(part_bytes(e.1) =~= b.subrange(q0, q0 + m));
    assert(entry_wire(e) =~= b.subrange(pos, next));
}

/// Decoded entries are encoded by exactly the bytes they were decoded from.
proof fn lemma_entries_canonical(
    b: Seq<u8>,
    pos: int,
    count: nat,
    es: Seq<(Seq<char>, Seq<usize>)>,
    end: int,
)
    requires
        0 <= pos <= b.len(),
        entries_decode(b, pos, count) == std::result::Result::<(Seq<(Seq<char>, Seq<usize>)>, int), WireFault>::Ok(
            (es, end),
        ),
    ensures
        pos <= end <= b.len(),
        es.len() == count,
        b.subrange(pos, end) == entries_wire(es),
    decreases count,
{
    if count == 0 {
        assert(b.subrange(pos, end) =~= Seq::<u8>::empty());
    } else {
        let (e, next) = entry_decode(b, pos)->Ok_0;
        lemma_entry_canonical(b, pos, e, next);
        let (rest, end2) = entries_decode(b, next, (count - 1) as nat)->Ok_0;
        lemma_entries_canonical(b, next, (count - 1) as nat, rest, end2);
        assert(es == seq![e] + rest);
        assert(es[0] == e);
        assert(es.drop_first() =~= rest);
        assert(b.subrange(pos, end) =~= b.subrange(pos, next) + b.subrange(next, end));
    }
}

/// Encoding a decoded grant gives the bytes back: the grant wire format has
/// one encoding per grant.
pub proof fn law_grant_canonical(b: Seq<u8>)
    requires
        grant_decode(b) is Ok,
    ensures
        grant_decode(b) matches Ok((p, es, key, sig)) && grant_wire(p, es, key, sig) == b,
{
    let p0 = 2int;
    let p1 = p0 + u16_at(b, 0);
    let pb = b.subrange(p0, p1);
    decode_utf8_encode_utf8(pb);
    lemma_be16_at(b, 0);
    lemma_be16_at(b, p1);
    let count = u16_at(b, p1) as nat;
    let (es, e) = entries_decode(b, p1 + 2, count)->Ok_0;
    lemma_entries_canonical(b, p1 + 2, count, es, e);
    assert(grant_wire(decode_utf8(pb), es, b.subrange(e, e + 32), b.subrange(e + 32, e + 96)) =~= b);
}

/// Decoding an encoded grant gives its fields back, when every field fits
/// its width: a principal of at most 65535 UTF-8 bytes, at most 65535
/// entries that fit, a 32-byte key and a 64-byte signature.
pub proof fn law_grant_roundtrip(p: Seq<char>, es: Seq<(Seq<char>, Seq<usize>)>, key: Seq<u8>, sig: Seq<u8>)
    requires
        utf8(p).len() <= 65535,
        es.len() <= 65535,
        forall|i: int| 0 <= i < es.len() ==> entry_fits(#[trigger] es[i]),
        key.len() == 32,
        sig.len() == 64,
    ensures
        grant_decode(grant_wire(p, es, key, sig)) == std::result::Result::<
            (Seq<char>, Seq<(Seq<char>, Seq<usize>)>, Seq<u8>, Seq<u8>),
            WireFault,
        >::Ok((p, es, key, sig)),
{
    let b = grant_wire(p, es, key, sig);
    let pb = utf8(p);
    let ew = entries_wire(es);
    lemma_be16(pb.len() as int);
    lemma_be16(es.len() as int);
    encode_utf8_valid_utf8(p);
    encode_utf8_decode_utf8(p);
    let p1: int = 2 + pb.len() as int;
    let e0: int = p1 + 2;
    let e1: int = e0 + ew.len() as int;
    assert(b[0] == be16(pb.len() as int)[0] && b[1] == be16(pb.len() as int)[1]);
    assert(b.subrange(2, p1) =~= pb);
    assert(b[p1] == be16(es.len() as int)[0] && b[p1 + 1] == be16(es.len() as int)[1]);
    assert(u16_at(b, p1) == es.len());
    assert(b.subrange(e0, e1) =~= ew);
    lemma_entries_decode(b, e0, es);
    assert(b.subrange(e1, e1 + 32) =~= key);
    assert(b.subrange(e1 + 32, e1 + 96) =~= sig);
}

// ── Ed25519 ───────────────────────────────────────────────────────────

/// The Ed25519 public key of a 32-byte seed.
pub uninterp spec fn public_key_of(seed: Seq<u8>) -> Seq<u8>;

/// The Ed25519 signature of a message under a 32-byte seed (signing is
/// deterministic).
pub uninterp spec fn signature_of(seed: Seq<u8>, message: Seq<u8>) -> Seq<u8>;

/// The 32 bytes are the compressed form of a curve point.
pub uninterp spec fn is_curve_point(key: Seq<u8>) -> bool;

/// Strict Ed25519 verification accepts the signature of the message under
/// the public key.
pub uninterp spec fn signature_verifies(key: Seq<u8>, message: Seq<u8>, sig: Seq<u8>) -> bool;

/// The public key of a seed, by `ed25519_dalek::SigningKey::from_bytes`,
/// `verifying_key` and `VerifyingKey::to_bytes`: 32 bytes (named), which
/// decompress to a curve point, as every key derived from a seed does.
#[verifier::external_body]
fn ed25519_public_key(seed: &[u8]) -> (r: Vec<u8>)
    requires
        seed@.len() == 32,
    ensures
        r@ == public_key_of(seed@),
        r@.len() == 32,
        is_curve_point(r@),
{
    let mut s = [0u8; 32];
    s.copy_from_slice(seed);
    ed25519_dalek::SigningKey::from_bytes(&s).verifying_key().to_bytes().to_vec()
}

/// The compressed encoding of the identity point: y = 1, sign bit 0.
pub open spec fn identity_point() -> Seq<u8> {
    seq![1u8] + Seq::new(31, |i: int| 0u8)
}

/// The signature of a message under a seed, by
/// `ed25519_dalek::SigningKey::from_bytes` and `Signer::sign`, as its 64
/// bytes (`Signature::to_bytes`); Ed25519 signing is deterministic, so the
/// signature is named as a function of seed and message.
///
/// The signature verifies strictly under the seed's public key unless its
/// first half R is the identity point. `raw_sign` makes R = r·B with a
/// nonzero multiple of the prime-order base point unless the nonce r
/// (SHA-512 of the key's hash prefix and the message, reduced mod ℓ) is 0,
/// and S = r + k·s reduced mod ℓ, so `verify_strict`'s canonical-S check,
/// its equation [S]B = R + [k]A and its small-order check on A pass (a
/// clamped scalar is never a multiple of ℓ, so A is never of small order);
/// its small-order check on R fails exactly when R is the identity.
#[verifier::external_body]
fn ed25519_sign(seed: &[u8], message: &[u8]) -> (r: Vec<u8>)
    requires
        seed@.len() == 32,
    ensures
        r@ == signature_of(seed@, message@),
        r@.len() == 64,
        r@.subrange(0, 32) != identity_point() ==> signature_verifies(public_key_of(seed@), message@, r@),
{
    let mut s = [0u8; 32];
    s.copy_from_slice(seed);
    ed25519_dalek::SigningKey::from_bytes(&s).sign(message).to_bytes().to_vec()
}

/// Whether 32 bytes are a public key, by
/// `ed25519_dalek::VerifyingKey::from_bytes`, which succeeds exactly when
/// they decompress to a curve point.
#[verifier::external_body]
fn ed25519_point_ok(key: &[u8]) -> (r: bool)
    requires
        key@.len() == 32,
    ensures
        r == is_curve_point(key@),
{
    let mut k = [0u8; 32];
    k.copy_from_slice(key);
    ed25519_dalek::VerifyingKey::from_bytes(&k).is_ok()
}

/// Strict verification of a 64-byte signature, by
/// `ed25519_dalek::VerifyingKey::from_bytes`, `Signature::from_bytes` and
/// `VerifyingKey::verify_strict`; on rejection, the error's text (left
/// unstated).
#[verifier::external_body]
fn ed25519_verify(key: &[u8], message: &[u8], sig: &[u8]) -> (r: std::result::Result<(), String>)
    requires
        key@.len() == 32,
        is_curve_point(key@),
        sig@.len() == 64,
    ensures
        (r is Ok) == signature_verifies(key@, message@, sig@),
{
    let mut k = [0u8; 32];
    k.copy_from_slice(key);
    let mut s = [0u8; 64];
    s.copy_from_slice(sig);
    match ed25519_dalek::VerifyingKey::from_bytes(&k) {
        Ok(vk) => vk.verify_strict(message, &ed25519_dalek::Signature::from_bytes(&s)).map_err(|e| e.to_string()),
        Err(e) => Err(e.to_string()),
    }
}

/// An Ed25519 signing key of `ed25519_dalek`, carried through opaquely.
#[verifier::external_type_specification]
#[verifier::external_body]
pub struct ExSigningKey(ed25519_dalek::SigningKey);

/// The 32-byte secret seed of a signing key, by `SigningKey::to_bytes`,
/// which returns the secret key the signing key was made from. The key is
/// opaque here, so nothing more is stated of the bytes.
#[verifier::external_body]
fn signing_key_seed(key: &ed25519_dalek::SigningKey) -> (r: [u8; 32]) {
    key.to_bytes()
}

/// 32 random bytes from the operating system's CSPRNG
/// (`rand::rngs::OsRng`); nothing is stated of them.
#[verifier::external_body]
fn random_seed() -> (r: [u8; 32]) {
    let mut seed = [0u8; 32];
    rand::rngs::OsRng.fill_bytes(&mut seed);
    seed
}

/// A 32-byte array holding the bytes of a slice, exactly when the slice
/// has 32 bytes.
fn seed_array(bytes: &[u8]) -> (r: Option<[u8; 32]>)
    ensures
        (r is Some) == (bytes@.len() == 32),
        r matches Some(a) ==> a@ == bytes@,
{
    if bytes.len() != 32 {
        return None;
    }
    let mut a: [u8; 32] = [0u8; 32];
    let mut i: usize = 0;
    while i < 32
        invariant
            bytes@.len() == 32,
            i <= 32,
            a@.len() == 32,
            forall|t: int| 0 <= t < i ==> a@[t] == bytes@[t],
        decreases 32 - i,
    {
        a[i] = bytes[i];
        i = i + 1;
    }
    assert(a@ =~= bytes@);
    Some(a)
}

/// The message a single-capability token signs:
/// `principal || 0 || capability || 0 || issuer_key`.
pub open spec fn token_message(p: Seq<char>, c: Seq<char>, key: Seq<u8>) -> Seq<u8> {
    utf8(p) + seq![0u8] + utf8(c) + seq![0u8] + key
}

/// Byte-wise equality of two byte strings.
fn bytes_eq(a: &[u8], b: &[u8]) -> (r: bool)
    ensures
        r == (a@ == b@),
{
    if a.len() != b.len() {
        return false;
    }
    let mut i: usize = 0;
    while i < a.len()
        invariant
            a@.len() == b@.len(),
            i <= a@.len(),
            forall|j: int| 0 <= j < i ==> a@[j] == b@[j],
        decreases a.len() - i,
    {
        if a[i] != b[i] {
            return false;
        }
        i = i + 1;
    }
    assert(a@ =~= b@);
    true
}

/// The message of a single-capability token.
fn token_message_bytes(principal: &str, capability: &str, key: &[u8]) -> (r: Vec<u8>)
    ensures
        r@ == token_message(principal@, capability@, key@),
{
    let mut m: Vec<u8> = Vec::new();
    append_bytes(&mut m, principal.as_bytes());
    m.push(0);
    append_bytes(&mut m, capability.as_bytes());
    m.push(0);
    append_bytes(&mut m, key);
    assert(m@ =~= token_message(principal@, capability@, key@));
    m
}

/// An issuer of cryptographic capability tokens, holding the 32-byte
/// Ed25519 seed of its signing key.
#[derive(Debug)]
pub struct CapabilityIssuer {
    seed: [u8; 32],
}

impl CapabilityIssuer {
    /// The issuer's seed.
    pub closed spec fn seed_bytes(&self) -> Seq<u8> {
        self.seed@
    }

    /// Generate a new issuer with a random key pair.
    pub fn generate() -> (r: Self)
        ensures
            r.seed_bytes().len() == 32,
    {
        CapabilityIssuer::from_seed(random_seed())
    }

    /// Create an issuer from an existing signing key: the issuer holds the
    /// key's seed, from which the key is made again when it signs.
    pub fn from_key(signing_key: ed25519_dalek::SigningKey) -> (r: Self)
        ensures
            r.seed_bytes().len() == 32,
    {
        CapabilityIssuer::from_seed(signing_key_seed(&signing_key))
    }

    /// Create an issuer from a 32-byte Ed25519 seed — the way to persist and
    /// restore an issuer identity.
    pub fn from_seed(seed: [u8; 32]) -> (r: Self)
        ensures
            r.seed_bytes() == seed@,
            r.seed_bytes().len() == 32,
    {
        CapabilityIssuer { seed }
    }

    /// The public key for distribution to verifiers.
    pub fn public_key(&self) -> (r: Vec<u8>)
        ensures
            r@ == public_key_of(self.seed_bytes()),
            r@.len() == 32,
            is_curve_point(r@),
    {
        ed25519_public_key(vstd::array::array_as_slice(&self.seed))
    }

    /// The public key as a 64-character lowercase hex string.
    pub fn public_key_hex(&self) -> (r: String)
        ensures
            r@ == hex_text(public_key_of(self.seed_bytes())),
            r@.len() == 64,
    {
        let key = self.public_key();
        hex_string(key.as_slice())
    }

    /// Issue a capability token to a principal: the issuer signs
    /// `principal || 0 || capability || 0 || public_key`.
    pub fn issue(&self, principal: &str, capability: &str) -> (r: Result<CapabilityToken>)
        ensures
            r matches Ok(t) && issued(self.seed_bytes(), principal@, capability@, t),
    {
        let key = self.public_key();
        let message = token_message_bytes(principal, capability, key.as_slice());
        let signature = ed25519_sign(vstd::array::array_as_slice(&self.seed), message.as_slice());
        Ok(
            CapabilityToken {
                principal: PrincipalId::new(principal),
                capability: CapabilityId::new(capability),
                issuer_key: key,
                signature,
            },
        )
    }

    /// Issue one token per (principal, capability) pair, in order.
    pub fn issue_batch(&self, grants: &[(&str, &str)]) -> (r: Result<Vec<CapabilityToken>>)
        ensures
            r matches Ok(ts) && ts@.len() == grants@.len() && forall|i: int|
                0 <= i < grants@.len() ==> issued(self.seed_bytes(), grants@[i].0@, grants@[i].1@, #[trigger] ts@[i]),
    {
        let mut out: Vec<CapabilityToken> = Vec::new();
        let mut i: usize = 0;
        while i < grants.len()
            invariant
                i <= grants@.len(),
                out@.len() == i,
                forall|j: int| 0 <= j < i ==> issued(self.seed_bytes(), grants@[j].0@, grants@[j].1@, #[trigger] out@[j]),
            decreases grants.len() - i,
        {
            let (p, c) = grants[i];
            match self.issue(p, c) {
                Ok(t) => out.push(t),
                Err(e) => return Err(e),
            }
            i = i + 1;
        }
        Ok(out)
    }
}

/// Token `t` is what the issuer with this seed issues for the principal and
/// capability.
pub open spec fn issued(seed: Seq<u8>, p: Seq<char>, c: Seq<char>, t: CapabilityToken) -> bool {
    &&& t.principal.0@ == p
    &&& t.capability.0@ == c
    &&& t.issuer_key@ == public_key_of(seed)
    &&& t.signature@ == signature_of(seed, token_message(p, c, public_key_of(seed)))
    &&& t.signature@.len() == 64
    &&& t.signature@.subrange(0, 32) != identity_point() ==> signature_verifies(
        public_key_of(seed),
        token_message(p, c, public_key_of(seed)),
        t.signature@,
    )
}

/// The lowercase hex digit of a nibble.
pub open spec fn hex_digit(d: int) -> char {
    if d < 10 { ((d + 48) as u8) as char } else { ((d - 10 + 97) as u8) as char }
}

/// Lowercase hex text of bytes, two digits per byte.
pub open spec fn hex_text(b: Seq<u8>) -> Seq<char>
    decreases b.len(),
{
    if b.len() == 0 {
        Seq::empty()
    } else {
        hex_text(b.drop_last()) + seq![hex_digit(b.last() as int / 16), hex_digit(b.last() as int % 16)]
    }
}

fn hex_digit_str(d: u8) -> (r: &'static str)
    requires
        d < 16,
    ensures
        r@ == seq![hex_digit(d as int)],
{
    proof {
        reveal_strlit("0");
        reveal_strlit("1");
        reveal_strlit("2");
        reveal_strlit("3");
        reveal_strlit("4");
        reveal_strlit("5");
        reveal_strlit("6");
        reveal_strlit("7");
        reveal_strlit("8");
        reveal_strlit("9");
        reveal_strlit("a");
        reveal_strlit("b");
        reveal_strlit("c");
        reveal_strlit("d");
        reveal_strlit("e");
        reveal_strlit("f");
    }
    if d == 0 { "0" }
    else if d == 1 { "1" }
    else if d == 2 { "2" }
    else if d == 3 { "3" }
    else if d == 4 { "4" }
    else if d == 5 { "5" }
    else if d == 6 { "6" }
    else if d == 7 { "7" }
    else if d == 8 { "8" }
    else if d == 9 { "9" }
    else if d == 10 { "a" }
    else if d == 11 { "b" }
    else if d == 12 { "c" }
    else if d == 13 { "d" }
    else if d == 14 { "e" }
    else { "f" }
}

/// Lowercase hex text of bytes.
fn hex_string(b: &[u8]) -> (r: String)
    ensures
        r@ == hex_text(b@),
        r@.len() == 2 * b@.len(),
{
    let mut s = String::new();
    let mut i: usize = 0;
    while i < b.len()
        invariant
            i <= b@.len(),
            s@ == hex_text(b@.subrange(0, i as int)),
            s@.len() == 2 * i,
        decreases b.len() - i,
    {
        let hi = hex_digit_str(b[i] / 16);
        let lo = hex_digit_str(b[i] % 16);
        s.append(hi);
        s.append(lo);
        proof {
            let sub = b@.subrange(0, i + 1);
            assert(sub.drop_last() =~= b@.subrange(0, i as int));
            assert(sub.last() == b@[i as int]);
            assert(s@ =~= hex_text(sub));
        }
        i = i + 1;
    }
    assert(b@.subrange(0, i as int) =~= b@);
    s
}

/// A verifier of single-capability tokens, holding the issuer's 32-byte
/// public key.
#[derive(Debug)]
pub struct CapabilityVerifier {
    key: Vec<u8>,
}

/// Whether the first 32 bytes of a key are a public key.
fn key_prefix_ok(public_key: &Vec<u8>) -> (r: bool)
    ensures
        r == (public_key@.len() >= 32 && is_curve_point(public_key@.subrange(0, 32))),
{
    if public_key.len() < 32 {
        return false;
    }
    let prefix = vstd::slice::slice_subrange(public_key.as_slice(), 0, 32);
    ed25519_point_ok(prefix)
}

/// The first 32 bytes of a key.
fn key_prefix(public_key: &Vec<u8>) -> (r: Vec<u8>)
    requires
        public_key@.len() >= 32,
    ensures
        r@ == public_key@.subrange(0, 32),
{
    vstd::slice::slice_to_vec(vstd::slice::slice_subrange(public_key.as_slice(), 0, 32))
}

/// What verifying a token under `key` returns: a mismatched issuer key or a
/// signature that is not 64 bytes is rejected with its message, otherwise
/// strict Ed25519 verification of the signed message decides.
pub open spec fn token_verdict(key: Seq<u8>, t: CapabilityToken, r: Result<()>) -> bool {
    if t.issuer_key@ != key {
        r matches Err(SchubertError::CryptoVerificationFailed(m)) && m@ == "token issuer key does not match verifier key"@
    } else if t.signature@.len() != 64 {
        r matches Err(SchubertError::CryptoVerificationFailed(m)) && m@ == "invalid signature length"@
    } else {
        &&& (r is Ok) == signature_verifies(key, token_message(t.principal.0@, t.capability.0@, t.issuer_key@), t.signature@)
        &&& r matches Err(e) ==> (e matches SchubertError::CryptoVerificationFailed(m) && m@.len() >= 15
            && m@.subrange(0, 15) == "bad signature: "@)
    }
}

impl CapabilityVerifier {
    #[verifier::type_invariant]
    spec fn inv(self) -> bool {
        self.key@.len() == 32 && is_curve_point(self.key@)
    }

    /// The issuer public key this verifier checks against.
    pub closed spec fn key_bytes(&self) -> Seq<u8> {
        self.key@
    }

    /// Create a verifier from the issuer's public key bytes (their first 32
    /// bytes, which must be a public key).
    pub fn new(public_key: Vec<u8>) -> (r: Self)
        requires
            public_key@.len() >= 32,
            is_curve_point(public_key@.subrange(0, 32)),
        ensures
            r.key_bytes() == public_key@.subrange(0, 32),
    {
        CapabilityVerifier { key: key_prefix(&public_key) }
    }

    /// Create a verifier, or `None` when the key is shorter than 32 bytes or
    /// its first 32 bytes are not a public key.
    pub fn try_new(public_key: Vec<u8>) -> (r: Option<Self>)
        ensures
            (r is Some) == (public_key@.len() >= 32 && is_curve_point(public_key@.subrange(0, 32))),
            r matches Some(v) ==> v.key_bytes() == public_key@.subrange(0, 32),
    {
        if key_prefix_ok(&public_key) {
            Some(CapabilityVerifier::new(public_key))
        } else {
            None
        }
    }

    /// Verify a token's signature.
    pub fn verify(&self, token: &CapabilityToken) -> (r: Result<()>)
        ensures
            token_verdict(self.key_bytes(), *token, r),
    {
        proof {
            use_type_invariant(self);
        }
        if !bytes_eq(token.issuer_key.as_slice(), self.key.as_slice()) {
            return Err(
                SchubertError::CryptoVerificationFailed(owned("token issuer key does not match verifier key")),
            );
        }
        if token.signature.len() != 64 {
            return Err(SchubertError::CryptoVerificationFailed(owned("invalid signature length")));
        }
        let message = token_message_bytes(
            token.principal.0.as_str(),
            token.capability.0.as_str(),
            token.issuer_key.as_slice(),
        );
        match ed25519_verify(self.key.as_slice(), message.as_slice(), token.signature.as_slice()) {
            Ok(()) => Ok(()),
            Err(e) => {
                let mut m = owned("bad signature: ");
                m.append(e.as_str());
                proof {
                    reveal_strlit("bad signature: ");
                    assert(m@.subrange(0, 15) =~= "bad signature: "@);
                }
                Err(SchubertError::CryptoVerificationFailed(m))
            },
        }
    }

    /// Verify a token and extract its principal and capability.
    pub fn verify_and_extract<'a>(&self, token: &'a CapabilityToken) -> (r: Result<(&'a PrincipalId, &'a CapabilityId)>)
        ensures
            r is Ok <==> token_verdict(self.key_bytes(), *token, Ok(())),
            r matches Ok((p, c)) ==> *p == token.principal && *c == token.capability,
    {
        match self.verify(token) {
            Ok(()) => Ok((&token.principal, &token.capability)),
            Err(e) => Err(e),
        }
    }

    /// Verify several tokens, in order.
    pub fn verify_batch(&self, tokens: &[CapabilityToken]) -> (r: Vec<Result<()>>)
        ensures
            r@.len() == tokens@.len(),
            forall|i: int| 0 <= i < tokens@.len() ==> token_verdict(self.key_bytes(), tokens@[i], #[trigger] r@[i]),
    {
        let mut out: Vec<Result<()>> = Vec::new();
        let mut i: usize = 0;
        while i < tokens.len()
            invariant
                i <= tokens@.len(),
                out@.len() == i,
                forall|j: int| 0 <= j < i ==> token_verdict(self.key_bytes(), tokens@[j], #[trigger] out@[j]),
            decreases tokens.len() - i,
        {
            out.push(self.verify(&tokens[i]));
            i = i + 1;
        }
        out
    }
}

// ── Geometric containment ─────────────────────────────────────────────

/// The part of a partition at `i`, 0 beyond its length.
pub open spec fn part_at(p: Seq<usize>, i: int) -> int {
    if 0 <= i < p.len() { p[i] as int } else { 0 }
}

/// `a ≤ b` component-wise, the shorter padded with zeros.
pub open spec fn partition_le(a: Seq<usize>, b: Seq<usize>) -> bool {
    forall|i: int| 0 <= i < a.len() || 0 <= i < b.len() ==> #[trigger] part_at(a, i) <= part_at(b, i)
}

/// Returns `true` if `a ≤ b` component-wise, padding shorter sequences with zeros.
pub fn partitions_le(a: &[usize], b: &[usize]) -> (r: bool)
    ensures
        r == partition_le(a@, b@),
{
    let max_len = if a.len() >= b.len() { a.len() } else { b.len() };
    let mut i: usize = 0;
    while i < max_len
        invariant
            max_len == if a@.len() >= b@.len() { a@.len() } else { b@.len() },
            i <= max_len,
            forall|j: int| 0 <= j < i ==> #[trigger] part_at(a@, j) <= part_at(b@, j),
        decreases max_len - i,
    {
        let av = if i < a.len() { a[i] } else { 0 };
        let bv = if i < b.len() { b[i] } else { 0 };
        if av > bv {
            assert(part_at(a@, i as int) > part_at(b@, i as int));
            return false;
        }
        i = i + 1;
    }
    true
}

/// Containment is reflexive: every partition implies itself.
pub proof fn law_partition_le_reflexive(a: Seq<usize>)
    ensures
        partition_le(a, a),
{
}

/// Containment is transitive.
pub proof fn law_partition_le_transitive(a: Seq<usize>, b: Seq<usize>, c: Seq<usize>)
    requires
        partition_le(a, b),
        partition_le(b, c),
    ensures
        partition_le(a, c),
{
    assert forall|i: int| 0 <= i < a.len() || 0 <= i < c.len() implies #[trigger] part_at(a, i) <= part_at(c, i) by {
        if 0 <= i < b.len() || 0 <= i < a.len() {
            assert(part_at(a, i) <= part_at(b, i));
        }
        if 0 <= i < b.len() || 0 <= i < c.len() {
            assert(part_at(b, i) <= part_at(c, i));
        }
    }
}

/// Write implies read: a single part contains every smaller single part,
/// and the empty partition is contained in everything.
pub proof fn law_smaller_part_contained(x: usize, y: usize, b: Seq<usize>)
    requires
        x <= y,
    ensures
        partition_le(seq![x], seq![y]),
        partition_le(Seq::<usize>::empty(), b),
{
    assert forall|i: int| 0 <= i < b.len() implies #[trigger] part_at(Seq::<usize>::empty(), i) <= part_at(b, i) by {}
}

// ── Canonical order of grant entries ──────────────────────────────────

/// Lexicographic order on integer sequences (a prefix comes first).
pub open spec fn lex_le(a: Seq<int>, b: Seq<int>) -> bool
    decreases a.len(),
{
    if a.len() == 0 {
        true
    } else if b.len() == 0 {
        false
    } else if a[0] != b[0] {
        a[0] < b[0]
    } else {
        lex_le(a.drop_first(), b.drop_first())
    }
}

/// The parts of a partition as integers.
pub open spec fn ints_of_parts(s: Seq<usize>) -> Seq<int> {
    Seq::new(s.len(), |i: int| s[i] as int)
}

/// Bytes as integers.
pub open spec fn ints_of_bytes(s: Seq<u8>) -> Seq<int> {
    Seq::new(s.len(), |i: int| s[i] as int)
}

/// The canonical order of grant entries: by partition (lexicographically),
/// then by the UTF-8 bytes of the identifier.
pub open spec fn entry_le(x: (Seq<char>, Seq<usize>), y: (Seq<char>, Seq<usize>)) -> bool {
    if ints_of_parts(x.1) == ints_of_parts(y.1) {
        lex_le(ints_of_bytes(utf8(x.0)), ints_of_bytes(utf8(y.0)))
    } else {
        lex_le(ints_of_parts(x.1), ints_of_parts(y.1))
    }
}

/// The canonical order as a relation.
pub open spec fn entry_order() -> spec_fn((Seq<char>, Seq<usize>), (Seq<char>, Seq<usize>)) -> bool {
    |x: (Seq<char>, Seq<usize>), y: (Seq<char>, Seq<usize>)| entry_le(x, y)
}

proof fn lemma_lex_props(a: Seq<int>, b: Seq<int>, c: Seq<int>)
    ensures
        lex_le(a, a),
        lex_le(a, b) || lex_le(b, a),
        lex_le(a, b) && lex_le(b, a) ==> a == b,
        lex_le(a, b) && lex_le(b, c) ==> lex_le(a, c),
    decreases a.len(),
{
    if a.len() > 0 && b.len() > 0 && c.len() > 0 {
        lemma_lex_props(a.drop_first(), b.drop_first(), c.drop_first());
        if a[0] == b[0] && lex_le(a, b) && lex_le(b, a) {
            assert(a =~= seq![a[0]] + a.drop_first());
            assert(b =~= seq![b[0]] + b.drop_first());
        }
    } else if a.len() > 0 && b.len() > 0 {
        lemma_lex_props(a.drop_first(), b.drop_first(), Seq::empty());
        if a[0] == b[0] && lex_le(a, b) && lex_le(b, a) {
            assert(a =~= seq![a[0]] + a.drop_first());
            assert(b =~= seq![b[0]] + b.drop_first());
        }
    } else if a.len() > 0 {
        lemma_lex_props(a.drop_first(), Seq::empty(), Seq::empty());
    } else {
        if lex_le(b, a) {
            assert(b =~= a);
        }
    }
}

proof fn lemma_ints_injective(a: Seq<usize>, b: Seq<usize>, x: Seq<u8>, y: Seq<u8>)
    ensures
        ints_of_parts(a) == ints_of_parts(b) ==> a == b,
        ints_of_bytes(x) == ints_of_bytes(y) ==> x == y,
{
    if ints_of_parts(a) == ints_of_parts(b) {
        assert(a.len() == ints_of_parts(a).len() && b.len() == ints_of_parts(b).len());
        assert forall|i: int| 0 <= i < a.len() implies a[i] == b[i] by {
            assert(ints_of_parts(a)[i] == a[i] as int);
            assert(ints_of_parts(b)[i] == b[i] as int);
        }
        assert(a =~= b);
    }
    if ints_of_bytes(x) == ints_of_bytes(y) {
        assert(x.len() == ints_of_bytes(x).len() && y.len() == ints_of_bytes(y).len());
        assert forall|i: int| 0 <= i < x.len() implies x[i] == y[i] by {
            assert(ints_of_bytes(x)[i] == x[i] as int);
            assert(ints_of_bytes(y)[i] == y[i] as int);
        }
        assert(x =~= y);
    }
}

/// The canonical order of grant entries is a total order.
pub proof fn law_entry_order_total()
    ensures
        total_ordering(entry_order()),
{
    let r = entry_order();
    assert forall|x: (Seq<char>, Seq<usize>)| #[trigger] r(x, x) by {
        lemma_lex_props(ints_of_bytes(utf8(x.0)), ints_of_bytes(utf8(x.0)), ints_of_bytes(utf8(x.0)));
    }
    assert forall|x: (Seq<char>, Seq<usize>), y: (Seq<char>, Seq<usize>)| #[trigger] r(x, y) && #[trigger] r(y, x) implies x == y by {
        let (px, py) = (ints_of_parts(x.1), ints_of_parts(y.1));
        let (bx, by) = (ints_of_bytes(utf8(x.0)), ints_of_bytes(utf8(y.0)));
        lemma_lex_props(px, py, px);
        lemma_lex_props(bx, by, bx);
        lemma_ints_injective(x.1, y.1, utf8(x.0), utf8(y.0));
        encode_utf8_decode_utf8(x.0);
        encode_utf8_decode_utf8(y.0);
    }
    assert forall|x: (Seq<char>, Seq<usize>), y: (Seq<char>, Seq<usize>), z: (Seq<char>, Seq<usize>)|
        #[trigger] r(x, y) && #[trigger] r(y, z) implies r(x, z) by {
        let (px, py, pz) = (ints_of_parts(x.1), ints_of_parts(y.1), ints_of_parts(z.1));
        let (bx, by, bz) = (ints_of_bytes(utf8(x.0)), ints_of_bytes(utf8(y.0)), ints_of_bytes(utf8(z.0)));
        lemma_lex_props(px, py, pz);
        lemma_lex_props(py, pz, px);
        lemma_lex_props(pz, px, py);
        lemma_lex_props(bx, by, bz);
    }
    assert forall|x: (Seq<char>, Seq<usize>), y: (Seq<char>, Seq<usize>)| #[trigger] r(x, y) || #[trigger] r(y, x) by {
        lemma_lex_props(ints_of_parts(x.1), ints_of_parts(y.1), ints_of_parts(x.1));
        lemma_lex_props(ints_of_bytes(utf8(x.0)), ints_of_bytes(utf8(y.0)), ints_of_bytes(utf8(x.0)));
    }
}

/// Lexicographic comparison from a common prefix of length `i`.
proof fn lemma_lex_from(a: Seq<int>, b: Seq<int>, i: int)
    requires
        0 <= i <= a.len(),
        i <= b.len(),
        forall|j: int| 0 <= j < i ==> a[j] == b[j],
    ensures
        lex_le(a, b) == lex_le(a.subrange(i, a.len() as int), b.subrange(i, b.len() as int)),
    decreases i,
{
    if i > 0 {
        lemma_lex_from(a.drop_first(), b.drop_first(), i - 1);
        assert(a.drop_first().subrange(i - 1, a.len() - 1) =~= a.subrange(i, a.len() as int));
        assert(b.drop_first().subrange(i - 1, b.len() - 1) =~= b.subrange(i, b.len() as int));
    } else {
        assert(a.subrange(0, a.len() as int) =~= a);
        assert(b.subrange(0, b.len() as int) =~= b);
    }
}

/// Lexicographic comparison of two partitions.
fn parts_lex_le(a: &[usize], b: &[usize]) -> (r: bool)
    ensures
        r == lex_le(ints_of_parts(a@), ints_of_parts(b@)),
{
    let mut i: usize = 0;
    while i < a.len() && i < b.len() && a[i] == b[i]
        invariant
            i <= a@.len(),
            i <= b@.len(),
            forall|j: int| 0 <= j < i ==> a@[j] == b@[j],
        decreases a.len() - i,
    {
        i = i + 1;
    }
    proof {
        let (x, y) = (ints_of_parts(a@), ints_of_parts(b@));
        lemma_lex_from(x, y, i as int);
        let (xs, ys) = (x.subrange(i as int, x.len() as int), y.subrange(i as int, y.len() as int));
        if i < a.len() && i < b.len() {
            assert(xs[0] == a@[i as int] && ys[0] == b@[i as int]);
        }
    }
    if i == a.len() {
        true
    } else if i == b.len() {
        false
    } else {
        a[i] < b[i]
    }
}

/// Lexicographic comparison of two byte strings.
fn bytes_lex_le(a: &[u8], b: &[u8]) -> (r: bool)
    ensures
        r == lex_le(ints_of_bytes(a@), ints_of_bytes(b@)),
{
    let mut i: usize = 0;
    while i < a.len() && i < b.len() && a[i] == b[i]
        invariant
            i <= a@.len(),
            i <= b@.len(),
            forall|j: int| 0 <= j < i ==> a@[j] == b@[j],
        decreases a.len() - i,
    {
        i = i + 1;
    }
    proof {
        let (x, y) = (ints_of_bytes(a@), ints_of_bytes(b@));
        lemma_lex_from(x, y, i as int);
        let (xs, ys) = (x.subrange(i as int, x.len() as int), y.subrange(i as int, y.len() as int));
        if i < a.len() && i < b.len() {
            assert(xs[0] == a@[i as int] && ys[0] == b@[i as int]);
        }
    }
    if i == a.len() {
        true
    } else if i == b.len() {
        false
    } else {
        a[i] < b[i]
    }
}

/// Whether two partitions are equal.
fn parts_eq(a: &[usize], b: &[usize]) -> (r: bool)
    ensures
        r == (ints_of_parts(a@) == ints_of_parts(b@)),
{
    if a.len() != b.len() {
        proof {
            if ints_of_parts(a@) == ints_of_parts(b@) {
                assert(ints_of_parts(a@).len() == ints_of_parts(b@).len());
            }
        }
        return false;
    }
    let mut i: usize = 0;
    while i < a.len()
        invariant
            a@.len() == b@.len(),
            i <= a@.len(),
            forall|j: int| 0 <= j < i ==> a@[j] == b@[j],
        decreases a.len() - i,
    {
        if a[i] != b[i] {
            proof {
                if ints_of_parts(a@) == ints_of_parts(b@) {
                    assert(ints_of_parts(a@)[i as int] == ints_of_parts(b@)[i as int]);
                }
            }
            return false;
        }
        i = i + 1;
    }
    assert(ints_of_parts(a@) =~= ints_of_parts(b@));
    true
}

/// Whether entry `a` comes no later than entry `b` in the canonical order.
fn entry_precedes(a: &GrantCapability, b: &GrantCapability) -> (r: bool)
    ensures
        r == entry_le((a.id.0@, a.partition@), (b.id.0@, b.partition@)),
{
    if parts_eq(a.partition.as_slice(), b.partition.as_slice()) {
        bytes_lex_le(a.id.0.as_str().as_bytes(), b.id.0.as_str().as_bytes())
    } else {
        parts_lex_le(a.partition.as_slice(), b.partition.as_slice())
    }
}

/// The (identifier, partition) of each requested capability.
pub open spec fn requested_view(caps: Seq<(CapabilityId, Vec<usize>)>) -> Seq<(Seq<char>, Seq<usize>)> {
    Seq::new(caps.len(), |i: int| (caps[i].0.0@, caps[i].1@))
}

/// The requested capabilities in canonical order.
fn canonical_entries(caps: &[(CapabilityId, Vec<usize>)]) -> (r: Vec<GrantCapability>)
    ensures
        sorted_by(entries_view(r@), entry_order()),
        entries_view(r@).to_multiset() == requested_view(caps@).to_multiset(),
{
    proof {
        law_entry_order_total();
    }
    let ghost req = requested_view(caps@);
    let mut out: Vec<GrantCapability> = Vec::new();
    let mut i: usize = 0;
    proof {
        assert(entries_view(out@) =~= Seq::<(Seq<char>, Seq<usize>)>::empty());
        assert(req.subrange(0, 0) =~= Seq::<(Seq<char>, Seq<usize>)>::empty());
    }
    while i < caps.len()
        invariant
            req == requested_view(caps@),
            total_ordering(entry_order()),
            i <= caps@.len(),
            sorted_by(entries_view(out@), entry_order()),
            entries_view(out@).to_multiset() == req.subrange(0, i as int).to_multiset(),
        decreases caps.len() - i,
    {
        let e = GrantCapability {
            id: CapabilityId(crate::util::copy_string(&caps[i].0.0)),
            partition: crate::util::copy_sizes(&caps[i].1),
        };
        let ghost ev = (e.id.0@, e.partition@);
        let ghost before = entries_view(out@);
        let mut j: usize = 0;
        while j < out.len() && entry_precedes(&out[j], &e)
            invariant
                before == entries_view(out@),
                ev == (e.id.0@, e.partition@),
                j <= out@.len(),
                forall|t: int| 0 <= t < j ==> entry_le(#[trigger] before[t], ev),
            decreases out.len() - j,
        {
            j = j + 1;
        }
        proof {
            if j < out.len() {
                assert(!entry_le(before[j as int], ev));
                assert(entry_order()(before[j as int], ev) || entry_order()(ev, before[j as int]));
            }
        }
        out.insert(j, e);
        proof {
            let after = entries_view(out@);
            assert(after =~= before.insert(j as int, ev));
            let r = entry_order();
            assert forall|a: int, b: int| 0 <= a < b < after.len() implies #[trigger] r(after[a], after[b]) by {
                if b < j {
                    assert(r(before[a], before[b]));
                } else if b == j {
                    assert(entry_le(before[a], ev));
                } else if a < j {
                    assert(entry_le(before[a], ev));
                    assert(r(ev, before[j as int]));
                    if j < b - 1 {
                        assert(r(before[j as int], before[b - 1]));
                    }
                    assert(r(before[a], before[b - 1]));
                } else if a == j {
                    assert(r(ev, before[j as int]));
                    if j < b - 1 {
                        assert(r(before[j as int], before[b - 1]));
                    }
                } else {
                    assert(r(before[a - 1], before[b - 1]));
                }
            }
            vstd::seq_lib::to_multiset_insert(before, j as int, ev);
            let s0 = req.subrange(0, i as int);
            assert(req.subrange(0, i + 1) =~= s0.push(ev));
            vstd::seq_lib::to_multiset_build(s0, ev);
        }
        i = i + 1;
    }
    assert(req.subrange(0, i as int) =~= req);
    out
}

// ── Grant issue and verification ──────────────────────────────────────

/// The signed encoding of one grant entry: `id || 0 || part_count || parts`.
pub open spec fn entry_message(e: (Seq<char>, Seq<usize>)) -> Seq<u8> {
    utf8(e.0) + seq![0u8] + seq![(e.1.len() % 256) as u8] + part_bytes(e.1)
}

/// The signed encoding of a list of entries, in order.
pub open spec fn entries_message(es: Seq<(Seq<char>, Seq<usize>)>) -> Seq<u8>
    decreases es.len(),
{
    if es.len() == 0 {
        Seq::empty()
    } else {
        entries_message(es.drop_last()) + entry_message(es.last())
    }
}

/// The message a grant token signs:
/// `principal || 0 || entries || 0 || issuer_key`.
pub open spec fn grant_message(p: Seq<char>, es: Seq<(Seq<char>, Seq<usize>)>, key: Seq<u8>) -> Seq<u8> {
    utf8(p) + seq![0u8] + entries_message(es) + seq![0u8] + key
}

/// The message of a grant.
fn grant_message_bytes(principal: &str, caps: &Vec<GrantCapability>, key: &[u8]) -> (r: Vec<u8>)
    ensures
        r@ == grant_message(principal@, entries_view(caps@), key@),
{
    let mut m: Vec<u8> = Vec::new();
    append_bytes(&mut m, principal.as_bytes());
    m.push(0);
    let ghost head = m@;
    let ghost es = entries_view(caps@);
    let mut i: usize = 0;
    while i < caps.len()
        invariant
            es == entries_view(caps@),
            i <= caps@.len(),
            m@ == head + entries_message(es.subrange(0, i as int)),
        decreases caps.len() - i,
    {
        let ghost before = m@;
        append_bytes(&mut m, caps[i].id.0.as_str().as_bytes());
        m.push(0);
        m.push((caps[i].partition.len() % 256) as u8);
        let mut j: usize = 0;
        let ghost mid = m@;
        while j < caps[i].partition.len()
            invariant
                i < caps@.len(),
                j <= caps@[i as int].partition@.len(),
                m@ == mid + part_bytes(caps@[i as int].partition@.subrange(0, j as int)),
            decreases caps@[i as int].partition@.len() - j,
        {
            m.push((caps[i].partition[j] % 256) as u8);
            assert(m@ =~= mid + part_bytes(caps@[i as int].partition@.subrange(0, j + 1)));
            j = j + 1;
        }
        proof {
            assert(caps@[i as int].partition@.subrange(0, j as int) =~= caps@[i as int].partition@);
            let sub = es.subrange(0, i + 1);
            assert(sub.drop_last() =~= es.subrange(0, i as int));
            assert(sub.last() == es[i as int]);
            assert(m@ =~= head + entries_message(sub));
        }
        i = i + 1;
    }
    assert(es.subrange(0, i as int) =~= es);
    m.push(0);
    append_bytes(&mut m, key);
    assert(m@ =~= grant_message(principal@, es, key@));
    m
}

/// Token `t` is what the issuer with this seed issues for the principal and
/// the requested capabilities: the capabilities in canonical order, signed.
pub open spec fn grant_issued(seed: Seq<u8>, p: Seq<char>, requested: Seq<(Seq<char>, Seq<usize>)>, t: GrantToken) -> bool {
    &&& t.principal.0@ == p
    &&& sorted_by(entries_view(t.capabilities@), entry_order())
    &&& entries_view(t.capabilities@).to_multiset() == requested.to_multiset()
    &&& t.issuer_key@ == public_key_of(seed)
    &&& t.signature@ == signature_of(seed, grant_message(p, entries_view(t.capabilities@), public_key_of(seed)))
    &&& t.signature@.len() == 64
    &&& t.signature@.subrange(0, 32) != identity_point() ==> signature_verifies(
        public_key_of(seed),
        grant_message(p, entries_view(t.capabilities@), public_key_of(seed)),
        t.signature@,
    )
}

impl CapabilityIssuer {
    /// Issue a grant token carrying several capabilities, each with its
    /// partition. The capabilities are put in canonical order (by partition,
    /// then by identifier) before signing, so grants that list the same
    /// capabilities in any order produce the same token.
    pub fn issue_grant(&self, principal: &str, capabilities: &[(CapabilityId, Vec<usize>)]) -> (r: Result<GrantToken>)
        ensures
            r matches Ok(t) && grant_issued(self.seed_bytes(), principal@, requested_view(capabilities@), t),
    {
        let key = self.public_key();
        let entries = canonical_entries(capabilities);
        let message = grant_message_bytes(principal, &entries, key.as_slice());
        let signature = ed25519_sign(vstd::array::array_as_slice(&self.seed), message.as_slice());
        Ok(GrantToken { principal: PrincipalId::new(principal), capabilities: entries, issuer_key: key, signature })
    }
}

/// Canonical order makes grants order-independent: issuing a grant for any
/// rearrangement of the same capabilities gives the same capabilities, in
/// the same order, and the same signature.
pub proof fn law_grant_order_independent(
    seed: Seq<u8>,
    p: Seq<char>,
    req1: Seq<(Seq<char>, Seq<usize>)>,
    req2: Seq<(Seq<char>, Seq<usize>)>,
    t1: GrantToken,
    t2: GrantToken,
)
    requires
        req1.to_multiset() == req2.to_multiset(),
        grant_issued(seed, p, req1, t1),
        grant_issued(seed, p, req2, t2),
    ensures
        entries_view(t1.capabilities@) == entries_view(t2.capabilities@),
        t1.issuer_key@ == t2.issuer_key@,
        t1.signature@ == t2.signature@,
{
    law_entry_order_total();
    vstd::seq_lib::lemma_sorted_unique(entries_view(t1.capabilities@), entries_view(t2.capabilities@), entry_order());
}

/// A verifier of grant tokens, holding the issuer's 32-byte public key; it
/// checks signatures and geometric containment.
#[derive(Debug)]
pub struct GrantVerifier {
    key: Vec<u8>,
}

/// What verifying a grant under `key` returns: a mismatched issuer key or a
/// signature that is not 64 bytes is rejected with its message, otherwise
/// strict Ed25519 verification of the signed message decides.
pub open spec fn grant_verdict(key: Seq<u8>, g: GrantToken, r: Result<()>) -> bool {
    if g.issuer_key@ != key {
        r matches Err(SchubertError::CryptoVerificationFailed(m)) && m@ == "grant issuer key does not match verifier key"@
    } else if g.signature@.len() != 64 {
        r matches Err(SchubertError::CryptoVerificationFailed(m)) && m@ == "invalid grant signature length"@
    } else {
        &&& (r is Ok) == signature_verifies(
            key,
            grant_message(g.principal.0@, entries_view(g.capabilities@), g.issuer_key@),
            g.signature@,
        )
        &&& r matches Err(e) ==> (e matches SchubertError::CryptoVerificationFailed(m) && m@.len() >= 21
            && m@.subrange(0, 21) == "bad grant signature: "@)
    }
}

/// Some granted capability's partition contains the given one.
pub open spec fn grant_implies(g: GrantToken, cap_partition: Seq<usize>) -> bool {
    exists|i: int| 0 <= i < g.capabilities@.len() && partition_le(cap_partition, #[trigger] g.capabilities@[i].partition@)
}

impl GrantVerifier {
    #[verifier::type_invariant]
    spec fn inv(self) -> bool {
        self.key@.len() == 32 && is_curve_point(self.key@)
    }

    /// The issuer public key this verifier checks against.
    pub closed spec fn key_bytes(&self) -> Seq<u8> {
        self.key@
    }

    /// Create a verifier from the issuer's public key bytes (their first 32
    /// bytes, which must be a public key).
    pub fn new(public_key: Vec<u8>) -> (r: Self)
        requires
            public_key@.len() >= 32,
            is_curve_point(public_key@.subrange(0, 32)),
        ensures
            r.key_bytes() == public_key@.subrange(0, 32),
    {
        GrantVerifier { key: key_prefix(&public_key) }
    }

    /// Create a verifier, or `None` when the key is shorter than 32 bytes or
    /// its first 32 bytes are not a public key.
    pub fn try_new(public_key: Vec<u8>) -> (r: Option<Self>)
        ensures
            (r is Some) == (public_key@.len() >= 32 && is_curve_point(public_key@.subrange(0, 32))),
            r matches Some(v) ==> v.key_bytes() == public_key@.subrange(0, 32),
    {
        if key_prefix_ok(&public_key) {
            Some(GrantVerifier::new(public_key))
        } else {
            None
        }
    }

    /// Verify a grant token's Ed25519 signature.
    pub fn verify(&self, grant: &GrantToken) -> (r: Result<()>)
        ensures
            grant_verdict(self.key_bytes(), *grant, r),
    {
        proof {
            use_type_invariant(self);
        }
        if !bytes_eq(grant.issuer_key.as_slice(), self.key.as_slice()) {
            return Err(
                SchubertError::CryptoVerificationFailed(owned("grant issuer key does not match verifier key")),
            );
        }
        let message = grant_message_bytes(grant.principal.0.as_str(), &grant.capabilities, grant.issuer_key.as_slice());
        if grant.signature.len() != 64 {
            return Err(SchubertError::CryptoVerificationFailed(owned("invalid grant signature length")));
        }
        match ed25519_verify(self.key.as_slice(), message.as_slice(), grant.signature.as_slice()) {
            Ok(()) => Ok(()),
            Err(e) => {
                let mut m = owned("bad grant signature: ");
                m.append(e.as_str());
                proof {
                    reveal_strlit("bad grant signature: ");
                    assert(m@.subrange(0, 21) =~= "bad grant signature: "@);
                }
                Err(SchubertError::CryptoVerificationFailed(m))
            },
        }
    }

    /// Geometric containment: whether some granted partition contains
    /// `cap_partition` component-wise (write implies read, admin implies
    /// all).
    pub fn may(&self, grant: &GrantToken, cap_partition: &[usize]) -> (r: bool)
        ensures
            r == grant_implies(*grant, cap_partition@),
    {
        let mut i: usize = 0;
        while i < grant.capabilities.len()
            invariant
                i <= grant.capabilities@.len(),
                forall|j: int| 0 <= j < i ==> !partition_le(cap_partition@, #[trigger] grant.capabilities@[j].partition@),
            decreases grant.capabilities.len() - i,
        {
            if partitions_le(cap_partition, grant.capabilities[i].partition.as_slice()) {
                return true;
            }
            i = i + 1;
        }
        false
    }
}

/// Containment is monotone in the grant: a grant that implies a partition
/// implies every partition contained in it.
pub proof fn law_may_monotone(g: GrantToken, a: Seq<usize>, b: Seq<usize>)
    requires
        partition_le(a, b),
        grant_implies(g, b),
    ensures
        grant_implies(g, a),
{
    let i = choose|i: int| 0 <= i < g.capabilities@.len() && partition_le(b, #[trigger] g.capabilities@[i].partition@);
    law_partition_le_transitive(a, b, g.capabilities@[i].partition@);
}

// ── Key persistence ───────────────────────────────────────────────────

/// Ed25519 seed persistence: a seed is exactly 32 bytes. Reading and writing
/// key files is done by the application around this library.
pub struct KeyStore;

impl KeyStore {
    /// A seed from the bytes of a key file, which must be exactly 32 bytes.
    pub fn seed_from_bytes(bytes: &[u8]) -> (r: Result<[u8; 32]>)
        ensures
            (r is Ok) == (bytes@.len() == 32),
            r matches Ok(seed) ==> seed@ == bytes@,
            r matches Err(e) ==> (e matches SchubertError::CryptoVerificationFailed(m)
                && m@ == "key file must be exactly 32 bytes"@),
    {
        match seed_array(bytes) {
            Some(seed) => Ok(seed),
            None => Err(SchubertError::CryptoVerificationFailed(owned("key file must be exactly 32 bytes"))),
        }
    }

    /// Generate a fresh random 32-byte seed using the OS CSPRNG.
    pub fn generate_seed() -> (r: [u8; 32]) {
        random_seed()
    }
}


/// A token issued with a seed verifies under that seed's public key (unless
/// its signature's R is the identity point, which happens only when the
/// signing nonce is 0 mod ℓ).
pub proof fn law_issued_token_verifies(seed: Seq<u8>, p: Seq<char>, c: Seq<char>, t: CapabilityToken, r: Result<()>)
    requires
        issued(seed, p, c, t),
        token_verdict(public_key_of(seed), t, r),
        t.signature@.subrange(0, 32) != identity_point(),
    ensures
        r is Ok,
{
}

/// A grant issued with a seed verifies under that seed's public key (unless
/// its signature's R is the identity point, which happens only when the
/// signing nonce is 0 mod ℓ).
pub proof fn law_issued_grant_verifies(
    seed: Seq<u8>,
    p: Seq<char>,
    requested: Seq<(Seq<char>, Seq<usize>)>,
    g: GrantToken,
    r: Result<()>,
)
    requires
        grant_issued(seed, p, requested, g),
        grant_verdict(public_key_of(seed), g, r),
        g.signature@.subrange(0, 32) != identity_point(),
    ensures
        r is Ok,
{
}
} // verus!
