//! The MDSplus UDP event datagram:
//! `be32(name_len) ++ name ++ be32(payload_len) ++ payload`.

use vstd::prelude::*;
use vstd::slice::slice_subrange;
use vstd::utf8::{decode_utf8, encode_utf8, valid_utf8};

verus! {

/// 2^32: the number of values of a 32-bit length field.
pub open spec fn two_pow_32() -> nat {
    0x1_0000_0000nat
}

/// The value of the big-endian 32-bit number held in the first four bytes of `b`.
#[verifier::opaque]
pub open spec fn be32_value(b: Seq<u8>) -> nat
    recommends
        b.len() >= 4,
{
    (b[0] as nat) * 0x100_0000 + (b[1] as nat) * 0x1_0000 + (b[2] as nat) * 0x100 + (b[3] as nat)
}

/// The four big-endian bytes of `v` (taken modulo 2^32).
#[verifier::opaque]
pub open spec fn be32_bytes(v: nat) -> Seq<u8> {
    seq![
        ((v / 0x100_0000) % 0x100) as u8,
        ((v / 0x1_0000) % 0x100) as u8,
        ((v / 0x100) % 0x100) as u8,
        (v % 0x100) as u8,
    ]
}

/// Why a datagram is not a well-formed event.
#[derive(Debug, Clone, Copy, PartialEq, Eq, Structural)]
pub enum WireError {
    /// Fewer than the 8 bytes of the two length fields.
    TooShort,
    /// The name length points past the place of the payload length field.
    MissingPayloadLength,
    /// The datagram is not exactly as long as its two length fields say.
    LengthMismatch,
}

/// What a decoded datagram carries.
#[derive(Debug, Clone)]
pub struct DecodedUdpEvent {
    pub event_name: String,
    pub payload_len: u32,
}

/// The name bytes and payload length carried by a well-formed datagram, or why it is not one.
pub open spec fn spec_decode(d: Seq<u8>) -> Result<(Seq<u8>, u32), WireError> {
    if d.len() < 8 {
        Err(WireError::TooShort)
    } else {
        let n = be32_value(d);
        if d.len() < n + 8 {
            Err(WireError::MissingPayloadLength)
        } else {
            let p = be32_value(d.subrange(4 + n as int, 8 + n as int));
            if d.len() != n + 8 + p {
                Err(WireError::LengthMismatch)
            } else {
                Ok((d.subrange(4, 4 + n as int), p as u32))
            }
        }
    }
}

/// The datagram that carries the name bytes `name` and the payload `payload`.
/// Each length field holds its length modulo 2^32.
pub open spec fn spec_encode(name: Seq<u8>, payload: Seq<u8>) -> Seq<u8> {
    be32_bytes(name.len() % two_pow_32()) + name + be32_bytes(payload.len() % two_pow_32())
        + payload
}

/// The text that `String::from_utf8_lossy` makes of a byte sequence.
pub uninterp spec fn utf8_lossy(bytes: Seq<u8>) -> Seq<char>;

/// Calls std's `String::from_utf8_lossy` and takes ownership of the text.
/// Claimed: the result is `utf8_lossy` of the bytes, and where the bytes are valid
/// UTF-8 it is exactly their decoding (std documents that valid input is returned as is).
/// What replaces invalid sequences is left unsaid beyond the name.
#[verifier::external_body]
fn string_from_utf8_lossy(bytes: &[u8]) -> (s: String)
    ensures
        s@ == utf8_lossy(bytes@),
        valid_utf8(bytes@) ==> s@ == decode_utf8(bytes@),
{
    String::from_utf8_lossy(bytes).into_owned()
}

/// Reads the big-endian 32-bit number at `at`.
fn read_be32(d: &[u8], at: usize) -> (v: u32)
    requires
        at + 4 <= d@.len(),
    ensures
        v as nat == be32_value(d@.subrange(at as int, at + 4)),
{
    proof {
        reveal(be32_value);
    }
    let b0 = d[at] as u32;
    let b1 = d[at + 1] as u32;
    let b2 = d[at + 2] as u32;
    let b3 = d[at + 3] as u32;
    b0 * 0x100_0000 + b1 * 0x1_0000 + b2 * 0x100 + b3
}

/// Appends the four big-endian bytes of `v` to `out`.
fn push_be32(out: &mut Vec<u8>, v: u32)
    ensures
        final(out)@ == old(out)@ + be32_bytes(v as nat),
{
    out.push((v / 0x100_0000) as u8);
    out.push(((v / 0x1_0000) % 0x100) as u8);
    out.push(((v / 0x100) % 0x100) as u8);
    out.push((v % 0x100) as u8);
    proof {
        reveal(be32_bytes);
        assert((v / 0x100_0000) % 0x100 == v / 0x100_0000);
        assert(final(out)@ =~= old(out)@ + be32_bytes(v as nat));
    }
}

/// The payload length that a datagram's second length field holds, or why it cannot be read.
/// Unlike `spec_decode`, the total length is not checked.
pub open spec fn spec_payload_len(d: Seq<u8>) -> Result<u32, WireError> {
    if d.len() < 8 {
        Err(WireError::TooShort)
    } else {
        let n = be32_value(d);
        if d.len() < n + 8 {
            Err(WireError::MissingPayloadLength)
        } else {
            Ok(be32_value(d.subrange(4 + n as int, 8 + n as int)) as u32)
        }
    }
}

/// Decodes a datagram into its event name and payload length.
/// The name is the UTF-8 text of the name bytes, invalid sequences replaced.
pub fn decode_udp_event(datagram: &[u8]) -> (r: Result<DecodedUdpEvent, WireError>)
    ensures
        match spec_decode(datagram@) {
            Ok((name, payload_len)) => r matches Ok(ev) && ev.payload_len == payload_len
                && ev.event_name@ == utf8_lossy(name) && (valid_utf8(name)
                ==> ev.event_name@ == decode_utf8(name)),
            Err(e) => r matches Err(e2) && e2 == e,
        },
{
    let len = datagram.len();
    if len < 8 {
        return Err(WireError::TooShort);
    }
    let name_len = read_be32(datagram, 0);
    proof {
        lemma_be32_value_prefix(datagram@, datagram@.subrange(0, 4));
    }
    let after_name: u64 = 4 + name_len as u64;
    if (len as u64) < after_name + 4 {
        return Err(WireError::MissingPayloadLength);
    }
    let after_name = after_name as usize;
    let payload_len = read_be32(datagram, after_name);
    let expected: u64 = after_name as u64 + 4 + payload_len as u64;
    if len as u64 != expected {
        return Err(WireError::LengthMismatch);
    }
    let name_bytes = slice_subrange(datagram, 4, after_name);
    let event_name = string_from_utf8_lossy(name_bytes);
    Ok(DecodedUdpEvent { event_name, payload_len })
}

/// Reads the payload length field of a datagram without checking its total length.
pub fn parse_payload_len(datagram: &[u8]) -> (r: Result<u32, WireError>)
    ensures
        r == spec_payload_len(datagram@),
{
    let len = datagram.len();
    if len < 8 {
        return Err(WireError::TooShort);
    }
    let name_len = read_be32(datagram, 0);
    proof {
        lemma_be32_value_prefix(datagram@, datagram@.subrange(0, 4));
    }
    let idx: u64 = 4 + name_len as u64;
    if (len as u64) < idx + 4 {
        return Err(WireError::MissingPayloadLength);
    }
    Ok(read_be32(datagram, idx as usize))
}

/// Appends every byte of `src` to `out`.
fn push_all(out: &mut Vec<u8>, src: &[u8])
    ensures
        final(out)@ == old(out)@ + src@,
{
    let n = src.len();
    for i in 0..n
        invariant
            n == src@.len(),
            out@ == old(out)@ + src@.take(i as int),
    {
        out.push(src[i]);
        assert(src@.take(i + 1) =~= src@.take(i as int).push(src@[i as int]));
    }
    assert(src@.take(n as int) =~= src@);
}

/// The length of `n` modulo 2^32.
fn low32(n: usize) -> (v: u32)
    ensures
        v as nat == n as nat % two_pow_32(),
{
    (n as u64 % 0x1_0000_0000u64) as u32
}

/// Encodes an event name (as UTF-8) and a payload into a datagram.
pub fn encode_udp_event(event_name: &str, payload: &[u8]) -> (out: Vec<u8>)
    requires
        encode_utf8(event_name@).len() + payload@.len() + 8 <= usize::MAX,
    ensures
        out@ == spec_encode(encode_utf8(event_name@), payload@),
{
    let name_bytes = event_name.as_bytes();
    let mut out: Vec<u8> = Vec::with_capacity(8 + name_bytes.len() + payload.len());
    push_be32(&mut out, low32(name_bytes.len()));
    push_all(&mut out, name_bytes);
    push_be32(&mut out, low32(payload.len()));
    push_all(&mut out, payload);
    out
}

/// Reading back the four big-endian bytes of a 32-bit value gives the value.
proof fn lemma_be32_value_of_bytes(v: nat)
    requires
        v < two_pow_32(),
    ensures
        be32_value(be32_bytes(v)) == v,
{
    reveal(be32_bytes);
    reveal(be32_value);
    let b = be32_bytes(v);
    assert(b[0] as nat == v / 0x100_0000) by (nonlinear_arith)
        requires v < 0x1_0000_0000nat, b[0] as nat == (v / 0x100_0000) % 0x100;
    assert(b[1] as nat == (v / 0x1_0000) % 0x100);
    assert(b[2] as nat == (v / 0x100) % 0x100);
    assert(b[3] as nat == v % 0x100);
    assert(v == (v / 0x100_0000) * 0x100_0000 + ((v / 0x1_0000) % 0x100) * 0x1_0000
        + ((v / 0x100) % 0x100) * 0x100 + v % 0x100) by (nonlinear_arith)
        requires v < 0x1_0000_0000nat;
}

/// Writing the value of four bytes big-endian gives the same four bytes back.
proof fn lemma_be32_bytes_of_value(b: Seq<u8>)
    requires
        b.len() == 4,
    ensures
        be32_value(b) < two_pow_32(),
        be32_bytes(be32_value(b)) == b,
{
    reveal(be32_bytes);
    reveal(be32_value);
    let v = be32_value(b);
    let (b0, b1, b2, b3) = (b[0] as nat, b[1] as nat, b[2] as nat, b[3] as nat);
    assert(v < two_pow_32()) by (nonlinear_arith)
        requires v == b0 * 0x100_0000 + b1 * 0x1_0000 + b2 * 0x100 + b3,
            b0 < 256, b1 < 256, b2 < 256, b3 < 256;
    assert((v / 0x100_0000) % 0x100 == b0 && (v / 0x1_0000) % 0x100 == b1
        && (v / 0x100) % 0x100 == b2 && v % 0x100 == b3) by (nonlinear_arith)
        requires v == b0 * 0x100_0000 + b1 * 0x1_0000 + b2 * 0x100 + b3,
            b0 < 256, b1 < 256, b2 < 256, b3 < 256;
    assert(be32_bytes(v) =~= b);
}

/// The value read depends only on the first four bytes.
proof fn lemma_be32_value_prefix(a: Seq<u8>, b: Seq<u8>)
    requires
        a.len() >= 4,
        b.len() >= 4,
        a[0] == b[0] && a[1] == b[1] && a[2] == b[2] && a[3] == b[3],
    ensures
        be32_value(a) == be32_value(b),
{
    reveal(be32_value);
}

/// The four bytes written are four.
proof fn lemma_be32_bytes_len(v: nat)
    ensures
        be32_bytes(v).len() == 4,
{
    reveal(be32_bytes);
}

/// Decoding the encoding of a name and a payload whose lengths fit the 32-bit length
/// fields gives back the name bytes and the payload length.
pub proof fn lemma_decode_encode(name: Seq<u8>, payload: Seq<u8>)
    requires
        name.len() < two_pow_32(),
        payload.len() < two_pow_32(),
    ensures
        spec_decode(spec_encode(name, payload)) == Ok::<(Seq<u8>, u32), WireError>(
            (name, payload.len() as u32),
        ),
{
    let d = spec_encode(name, payload);
    let n = name.len();
    let p = payload.len();
    let hn = be32_bytes(n);
    let hp = be32_bytes(p);
    lemma_be32_value_of_bytes(n);
    lemma_be32_value_of_bytes(p);
    assert(n % two_pow_32() == n);
    assert(p % two_pow_32() == p);
    lemma_be32_bytes_len(n);
    lemma_be32_bytes_len(p);
    assert(d == hn + name + hp + payload);
    assert(d.len() == n + p + 8);
    assert(d[0] == hn[0] && d[1] == hn[1] && d[2] == hn[2] && d[3] == hn[3]);
    lemma_be32_value_prefix(d, hn);
    assert(be32_value(d) == n);
    let tail = d.subrange(4 + n as int, 8 + n as int);
    assert(tail =~= hp);
    assert(be32_value(tail) == p);
    assert(d.subrange(4, 4 + n as int) =~= name);
}

/// A well-formed datagram is exactly the encoding of what it decodes to:
/// its name bytes and the payload that follows the second length field.
pub proof fn lemma_encode_decode(d: Seq<u8>)
    requires
        spec_decode(d) is Ok,
    ensures
        ({
            let (name, payload_len) = spec_decode(d)->Ok_0;
            spec_encode(name, d.skip(d.len() - payload_len)) == d
        }),
{
    let n = be32_value(d);
    lemma_be32_bytes_of_value(d.take(4));
    lemma_be32_value_prefix(d, d.take(4));
    assert(be32_value(d.take(4)) == n);
    let field = d.subrange(4 + n as int, 8 + n as int);
    lemma_be32_bytes_of_value(field);
    let p = be32_value(field);
    let name = d.subrange(4, 4 + n as int);
    let payload = d.skip(d.len() - p);
    lemma_be32_bytes_len(n);
    lemma_be32_bytes_len(p);
    assert(name.len() % two_pow_32() == n);
    assert(payload.len() % two_pow_32() == p);
    assert(spec_encode(name, payload) =~= d);
}

/// The big-endian number of four bytes, written out.
proof fn lemma_be32_value_explicit(b: Seq<u8>)
    requires
        b.len() >= 4,
    ensures
        be32_value(b) == (b[0] as nat) * 0x100_0000 + (b[1] as nat) * 0x1_0000 + (b[2] as nat)
            * 0x100 + (b[3] as nat),
{
    reveal(be32_value);
}

/// Decoding, written out over the bytes: with `n` the big-endian number of bytes 0..4 and
/// `p` that of bytes `4+n..8+n`, a datagram shorter than 8 bytes is too short; one shorter
/// than `n + 8` lacks the payload length; one whose length is not `n + 8 + p` has a
/// mismatching length; any other decodes to the name bytes `4..4+n` and payload length `p`.
pub proof fn lemma_decode_explicit(d: Seq<u8>)
    ensures
        d.len() < 8 ==> spec_decode(d) == Err::<(Seq<u8>, u32), WireError>(WireError::TooShort),
        d.len() >= 8 ==> ({
            let n: int = d[0] as int * 0x100_0000 + d[1] as int * 0x1_0000 + d[2] as int * 0x100
                + d[3] as int;
            if d.len() < n + 8 {
                spec_decode(d) == Err::<(Seq<u8>, u32), WireError>(WireError::MissingPayloadLength)
            } else {
                let p: int = d[4 + n] as int * 0x100_0000 + d[5 + n] as int * 0x1_0000 + d[6 + n] as int
                    * 0x100 + d[7 + n] as int;
                if d.len() != n + 8 + p {
                    spec_decode(d) == Err::<(Seq<u8>, u32), WireError>(WireError::LengthMismatch)
                } else {
                    spec_decode(d) == Ok::<(Seq<u8>, u32), WireError>((d.subrange(4, 4 + n), p as u32))
                }
            }
        }),
{
    if d.len() >= 8 {
        lemma_be32_value_explicit(d);
        let n = be32_value(d);
        if d.len() >= n + 8 {
            let f = d.subrange(4 + n as int, 8 + n as int);
            lemma_be32_value_explicit(f);
        }
    }
}

/// The four bytes of a length field, written out: the value's bytes from the most
/// significant down.
pub proof fn lemma_be32_bytes_explicit(v: nat)
    ensures
        be32_bytes(v) == seq![
            ((v / 0x100_0000) % 0x100) as u8,
            ((v / 0x1_0000) % 0x100) as u8,
            ((v / 0x100) % 0x100) as u8,
            (v % 0x100) as u8,
        ],
{
    reveal(be32_bytes);
}

/// The text round trip: the encoding of a text names valid UTF-8 that decodes to the
/// text, and decoding a datagram made from it gives back those bytes and the payload
/// length, so `decode_udp_event` returns the text itself as the event name.
pub proof fn lemma_text_roundtrip(name: Seq<char>, payload: Seq<u8>)
    requires
        encode_utf8(name).len() < two_pow_32(),
        payload.len() < two_pow_32(),
    ensures
        spec_decode(spec_encode(encode_utf8(name), payload)) == Ok::<(Seq<u8>, u32), WireError>(
            (encode_utf8(name), payload.len() as u32),
        ),
        valid_utf8(encode_utf8(name)),
        decode_utf8(encode_utf8(name)) == name,
{
    lemma_decode_encode(encode_utf8(name), payload);
    vstd::utf8::encode_utf8_valid_utf8(name);
    vstd::utf8::encode_utf8_decode_utf8(name);
}

} // verus!
