//! Serialization primitives of the wire format: variable-byte integers,
//! length-prefixed UTF-8 strings and property lists.

use vstd::prelude::*;
use vstd::string::StringSliceAdditionalSpecFns;
use vstd::utf8::valid_utf8;

use crate::error::{ErrorPlaceHolder, MqttError, ProtocolError};

verus! {

/// The largest value a variable-byte integer can hold (four digits).
pub const VBI_MAX: usize = 268435455;

/// `128` to the power `k`.
pub open spec fn pow128(k: nat) -> nat
    decreases k,
{
    if k == 0 {
        1
    } else {
        128 * pow128((k - 1) as nat)
    }
}

/// The value of the base-128 digits in `s`, least significant first; the
/// continuation bit of each byte is not part of its digit.
pub open spec fn vbi_value(s: Seq<u8>) -> nat
    decreases s.len(),
{
    if s.len() == 0 {
        0
    } else {
        (s[0] % 128) as nat + 128 * vbi_value(s.drop_first())
    }
}

/// The canonical encoding of `v`: one digit per byte, least significant
/// first, the continuation bit set on every byte but the last.
pub open spec fn vbi_bytes(v: nat) -> Seq<u8>
    decreases v,
{
    if v < 128 {
        seq![v as u8]
    } else {
        seq![(v % 128 + 128) as u8] + vbi_bytes(v / 128)
    }
}

/// Where the variable-byte integer that starts at `pos` ends, counting from
/// its `i`-th byte on: its length if a byte without continuation bit comes
/// within four bytes and inside `b`.
pub open spec fn vbi_span(b: Seq<u8>, pos: int, i: nat) -> Option<nat>
    decreases 4 - i,
{
    if i >= 4 || pos < 0 || pos + i >= b.len() {
        None
    } else if b[pos + i] < 128 {
        Some(i + 1)
    } else {
        vbi_span(b, pos, i + 1)
    }
}

/// The variable-byte integer at `pos`: its value and its length in bytes.
pub open spec fn parse_vbi(b: Seq<u8>, pos: int) -> Option<(nat, nat)> {
    match vbi_span(b, pos, 0) {
        Some(k) => Some((vbi_value(b.subrange(pos, pos + k)), k)),
        None => None,
    }
}

/// `b` with the bytes from `at` on replaced by `s`.
pub open spec fn splice(b: Seq<u8>, at: int, s: Seq<u8>) -> Seq<u8> {
    b.subrange(0, at) + s + b.subrange(at + s.len(), b.len() as int)
}

proof fn lemma_vbi_value_push(s: Seq<u8>, x: u8)
    ensures
        vbi_value(s.push(x)) == vbi_value(s) + (x % 128) as nat * pow128(s.len()),
    decreases s.len(),
{
    if s.len() == 0 {
        assert(s.push(x).drop_first() =~= Seq::<u8>::empty());
        assert(vbi_value(Seq::<u8>::empty()) == 0);
        assert(pow128(0) == 1);
        assert(vbi_value(s.push(x)) == (s.push(x)[0] % 128) as nat + 128 * vbi_value(
            s.push(x).drop_first(),
        ));
    } else {
        let t = s.drop_first();
        assert(s.push(x).drop_first() =~= t.push(x));
        assert(s.push(x)[0] == s[0]);
        lemma_vbi_value_push(t, x);
        let d = (x % 128) as nat;
        let p = pow128(t.len());
        assert(pow128(s.len()) == 128 * p);
        assert(vbi_value(s.push(x)) == (s.push(x)[0] % 128) as nat + 128 * vbi_value(
            s.push(x).drop_first(),
        ));
        assert(128 * (vbi_value(t) + d * p) == 128 * vbi_value(t) + d * (128 * p))
            by (nonlinear_arith);
    }
}

proof fn lemma_pow128_small()
    ensures
        pow128(0) == 1,
        pow128(1) == 128,
        pow128(2) == 16384,
        pow128(3) == 2097152,
        pow128(4) == 268435456,
{
    reveal_with_fuel(pow128, 5);
}

proof fn lemma_vbi_value_bound(s: Seq<u8>)
    ensures
        vbi_value(s) < pow128(s.len()),
    decreases s.len(),
{
    if s.len() > 0 {
        lemma_vbi_value_bound(s.drop_first());
        let d = (s[0] % 128) as nat;
        let p = pow128(s.drop_first().len());
        let w = vbi_value(s.drop_first());
        assert(d + 128 * w < 128 * p) by (nonlinear_arith)
            requires
                d < 128,
                w < p,
        ;
    }
}

proof fn lemma_vbi_span_bound(b: Seq<u8>, pos: int, i: nat)
    ensures
        vbi_span(b, pos, i) matches Some(k) ==> i < k <= 4 && pos + k <= b.len() && pos >= 0,
    decreases 4 - i,
{
    if !(i >= 4 || pos < 0 || pos + i >= b.len()) && b[pos + i] >= 128 {
        lemma_vbi_span_bound(b, pos, i + 1);
    }
}

/// A variable-byte integer that can be read takes one to four bytes and
/// holds at most `VBI_MAX`.
pub proof fn lemma_parse_vbi_bounds(b: Seq<u8>, pos: int)
    ensures
        parse_vbi(b, pos) matches Some((v, k)) ==> v <= VBI_MAX && 1 <= k <= 4 && pos + k
            <= b.len() && pos >= 0,
{
    lemma_vbi_span_bound(b, pos, 0);
    if let Some(k) = vbi_span(b, pos, 0) {
        let s = b.subrange(pos, pos + k);
        lemma_vbi_value_bound(s);
        lemma_pow128_small();
        assert(pow128(k) <= pow128(4)) by {
            reveal_with_fuel(pow128, 5);
        }
    }
}

/// Encoding a value and reading the digits back gives the value.
pub proof fn lemma_vbi_value_of_bytes(v: nat)
    ensures
        vbi_value(vbi_bytes(v)) == v,
    decreases v,
{
    if v >= 128 {
        let s = vbi_bytes(v);
        assert(s.drop_first() =~= vbi_bytes(v / 128));
        lemma_vbi_value_of_bytes(v / 128);
        assert(((v % 128 + 128) as u8) % 128 == v % 128);
    } else {
        assert(vbi_bytes(v).drop_first() =~= Seq::<u8>::empty());
        assert(vbi_value(Seq::<u8>::empty()) == 0);
    }
}

/// The canonical encoding takes one byte for each started group of seven bits.
pub proof fn lemma_vbi_bytes_len(v: nat)
    ensures
        vbi_bytes(v).len() == if v < 128 {
            1int
        } else if v < 16384 {
            2int
        } else if v < 2097152 {
            3int
        } else if v < 268435456 {
            4int
        } else {
            vbi_bytes(v).len() as int
        },
        vbi_bytes(v).len() >= 1,
        v <= VBI_MAX ==> vbi_bytes(v).len() <= 4,
    decreases v,
{
    if v >= 128 {
        lemma_vbi_bytes_len(v / 128);
    }
}

proof fn lemma_vbi_span_of_bytes(b: Seq<u8>, pos: int, i: nat, v: nat)
    requires
        pos >= 0,
        i + vbi_bytes(v).len() <= 4,
        pos + i + vbi_bytes(v).len() <= b.len(),
        b.subrange(pos + i, pos + i + vbi_bytes(v).len()) == vbi_bytes(v),
    ensures
        vbi_span(b, pos, i) == Some((i + vbi_bytes(v).len()) as nat),
    decreases v,
{
    let s = vbi_bytes(v);
    assert(b[pos + i] == s[0]);
    if v >= 128 {
        let t = vbi_bytes(v / 128);
        assert(b.subrange(pos + i + 1, pos + i + 1 + t.len()) =~= t) by {
            assert forall|j: int| 0 <= j < t.len() implies b[pos + i + 1 + j] == t[j] by {
                assert(b.subrange(pos + i, pos + i + s.len())[j + 1] == s[j + 1]);
            }
        }
        lemma_vbi_span_of_bytes(b, pos, i + 1, v / 128);
    }
}

/// Reading a variable-byte integer from its canonical encoding gives the
/// value back, with the length of the encoding.
pub proof fn lemma_parse_vbi_of_bytes(b: Seq<u8>, pos: int, v: nat)
    requires
        v <= VBI_MAX,
        0 <= pos,
        pos + vbi_bytes(v).len() <= b.len(),
        b.subrange(pos, pos + vbi_bytes(v).len()) == vbi_bytes(v),
    ensures
        parse_vbi(b, pos) == Some((v, vbi_bytes(v).len())),
{
    lemma_vbi_bytes_len(v);
    lemma_vbi_span_of_bytes(b, pos, 0, v);
    lemma_vbi_value_of_bytes(v);
}

/// Four bytes that all carry the continuation bit never end a
/// variable-byte integer: reading one there is malformed.
pub proof fn lemma_vbi_fifth_byte_malformed(b: Seq<u8>, pos: int)
    requires
        0 <= pos,
        pos + 4 <= b.len(),
        forall|i: int| 0 <= i < 4 ==> #[trigger] b[pos + i] >= 128,
    ensures
        parse_vbi(b, pos) is None,
{
    assert(b[pos + 0] >= 128);
    assert(b[pos + 1] >= 128);
    assert(b[pos + 2] >= 128);
    assert(b[pos + 3] >= 128);
    assert(vbi_span(b, pos, 4) is None);
    assert(vbi_span(b, pos, 3) is None);
    assert(vbi_span(b, pos, 2) is None);
    assert(vbi_span(b, pos, 1) is None);
}

/// Reads a variable-byte integer at `*cursor` and moves the cursor past it.
/// A missing terminating byte within four bytes, or the end of `buf`, makes
/// it a malformed packet; the cursor then stays.
pub fn read_variable_byte_integer(cursor: &mut usize, buf: &[u8]) -> (r: Result<
    usize,
    MqttError<ErrorPlaceHolder>,
>)
    ensures
        match parse_vbi(buf@, *old(cursor) as int) {
            Some((v, k)) => r == Ok::<usize, MqttError<ErrorPlaceHolder>>(v as usize)
                && *final(cursor) == *old(cursor) + k,
            None => r == Err::<usize, MqttError<ErrorPlaceHolder>>(
                MqttError::Protocol(ProtocolError::MalformedPacket),
            ) && *final(cursor) == *old(cursor),
        },
{
    let start = *cursor;
    let ghost b = buf@;
    let mut multiplier: usize = 1;
    let mut value: usize = 0;
    let mut i: usize = 0;
    proof {
        lemma_pow128_small();
        if start <= b.len() {
            assert(b.subrange(start as int, start as int) =~= Seq::<u8>::empty());
        }
    }
    loop
        invariant
            i < 4,
            *cursor == start,
            *old(cursor) == start,
            b == buf@,
            multiplier == pow128(i as nat),
            multiplier <= 2097152,
            value < multiplier,
            start + i <= b.len() ==> value == vbi_value(b.subrange(start as int, start + i)),
            vbi_span(b, start as int, 0) == vbi_span(b, start as int, i as nat),
        decreases 4 - i,
    {
        if start >= buf.len() || buf.len() - start <= i {
            return Err(MqttError::Protocol(ProtocolError::MalformedPacket));
        }
        let encoded_byte = buf[start + i];
        proof {
            lemma_pow128_small();
            assert(b.subrange(start as int, start + i + 1) =~= b.subrange(
                start as int,
                start + i,
            ).push(encoded_byte));
            lemma_vbi_value_push(b.subrange(start as int, start + i), encoded_byte);
            assert(encoded_byte & 127 == encoded_byte % 128) by (bit_vector);
            assert((encoded_byte & 128 == 0) == (encoded_byte < 128)) by (bit_vector);
            assert(value + (encoded_byte % 128) as nat * multiplier < 128 * multiplier)
                by (nonlinear_arith)
                requires
                    value < multiplier,
                    encoded_byte % 128 < 128,
            ;
        }
        value = value + (encoded_byte & 127) as usize * multiplier;
        if (encoded_byte & 128) == 0 {
            *cursor = start + i + 1;
            return Ok(value);
        }
        multiplier = multiplier * 128;
        i = i + 1;
        if i >= 4 {
            return Err(MqttError::Protocol(ProtocolError::MalformedPacket));
        }
    }
}


pub(crate) fn vbi_encoded_len(val: usize) -> (n: usize)
    requires
        val <= VBI_MAX,
    ensures
        n == vbi_bytes(val as nat).len(),
        1 <= n <= 4,
{
    proof {
        lemma_vbi_bytes_len(val as nat);
    }
    if val < 128 {
        1
    } else if val < 16384 {
        2
    } else if val < 2097152 {
        3
    } else {
        4
    }
}

/// Writes the canonical encoding of `val` at `at`.
fn put_vbi(buf: &mut [u8], at: usize, val: usize)
    requires
        val <= VBI_MAX,
        at + vbi_bytes(val as nat).len() <= old(buf)@.len(),
    ensures
        final(buf)@ == splice(old(buf)@, at as int, vbi_bytes(val as nat)),
{
    let ghost full = vbi_bytes(val as nat);
    let ghost orig = buf@;
    let n = vbi_encoded_len(val);
    let blen = buf.len();
    let mut v: usize = val;
    let mut k: usize = 0;
    while k < n
        invariant
            k <= n,
            blen == orig.len(),
            n == full.len(),
            at + n <= orig.len(),
            buf@.len() == orig.len(),
            k < n ==> vbi_bytes(v as nat) == full.subrange(k as int, n as int),
            buf@ == orig.subrange(0, at as int) + full.subrange(0, k as int) + orig.subrange(
                at + k,
                orig.len() as int,
            ),
        decreases n - k,
    {
        let digit = (v % 128) as u8;
        let next = v / 128;
        let byte = if next > 0 {
            digit | 128
        } else {
            digit
        };
        proof {
            assert(digit < 128 ==> digit | 128 == digit + 128) by (bit_vector);
            let rest = vbi_bytes(v as nat);
            assert(byte == rest[0]);
            assert(full[k as int] == rest[0]);
            if next > 0 {
                assert(rest.drop_first() =~= vbi_bytes(next as nat));
                assert(vbi_bytes(next as nat) =~= full.subrange(k + 1, n as int));
            } else {
                assert(rest.len() == 1);
            }
        }
        buf[at + k] = byte;
        k = k + 1;
        v = next;
        assert(buf@ =~= orig.subrange(0, at as int) + full.subrange(0, k as int) + orig.subrange(
            at + k,
            orig.len() as int,
        ));
    }
    assert(full.subrange(0, n as int) =~= full);
}

/// Writes the canonical encoding of `val` at `*cursor` and moves the cursor
/// past it. A value above `VBI_MAX` is too large; an encoding that does not
/// fit in `buf` leaves the buffer too small. On error nothing is written and
/// the cursor stays.
pub fn write_variable_byte_integer(cursor: &mut usize, buf: &mut [u8], val: usize) -> (r: Result<
    (),
    MqttError<ErrorPlaceHolder>,
>)
    ensures
        val > VBI_MAX ==> r == Err::<(), MqttError<ErrorPlaceHolder>>(
            MqttError::Protocol(ProtocolError::PayloadTooLarge),
        ),
        val <= VBI_MAX && *old(cursor) + vbi_bytes(val as nat).len() > old(buf)@.len() ==> r
            == Err::<(), MqttError<ErrorPlaceHolder>>(MqttError::BufferTooSmall),
        val <= VBI_MAX && *old(cursor) + vbi_bytes(val as nat).len() <= old(buf)@.len() ==> r
            is Ok,
        r is Ok ==> final(buf)@ == splice(old(buf)@, *old(cursor) as int, vbi_bytes(val as nat))
            && *final(cursor) == *old(cursor) + vbi_bytes(val as nat).len(),
        r is Err ==> final(buf)@ == old(buf)@ && *final(cursor) == *old(cursor),
{
    if val > VBI_MAX {
        return Err(MqttError::Protocol(ProtocolError::PayloadTooLarge));
    }
    let n = vbi_encoded_len(val);
    let at = *cursor;
    if at > buf.len() || buf.len() - at < n {
        return Err(MqttError::BufferTooSmall);
    }
    put_vbi(buf, at, val);
    *cursor = at + n;
    Ok(())
}

/// Writes the canonical encoding of `val` at the start of `buf` and returns
/// its length in bytes. Fails as `write_variable_byte_integer` does.
pub fn write_variable_byte_integer_len(buf: &mut [u8], val: usize) -> (r: Result<
    usize,
    MqttError<ErrorPlaceHolder>,
>)
    ensures
        val > VBI_MAX ==> r == Err::<usize, MqttError<ErrorPlaceHolder>>(
            MqttError::Protocol(ProtocolError::PayloadTooLarge),
        ),
        val <= VBI_MAX && vbi_bytes(val as nat).len() > old(buf)@.len() ==> r == Err::<
            usize,
            MqttError<ErrorPlaceHolder>,
        >(MqttError::BufferTooSmall),
        val <= VBI_MAX && vbi_bytes(val as nat).len() <= old(buf)@.len() ==> r == Ok::<
            usize,
            MqttError<ErrorPlaceHolder>,
        >(vbi_bytes(val as nat).len() as usize),
        r is Ok ==> final(buf)@ == splice(old(buf)@, 0, vbi_bytes(val as nat)),
        r is Err ==> final(buf)@ == old(buf)@,
{
    if val > VBI_MAX {
        return Err(MqttError::Protocol(ProtocolError::PayloadTooLarge));
    }
    let n = vbi_encoded_len(val);
    if buf.len() < n {
        return Err(MqttError::BufferTooSmall);
    }
    put_vbi(buf, 0, val);
    Ok(n)
}

/// The largest length a string field can state.
pub const MAX_STRING_LEN: usize = 65535;

/// `v` as two bytes, most significant first.
pub open spec fn be16(v: nat) -> Seq<u8> {
    seq![(v / 256) as u8, (v % 256) as u8]
}

/// The two-byte big-endian integer at `pos`.
pub open spec fn be16_at(b: Seq<u8>, pos: int) -> nat {
    (b[pos] as nat) * 256 + (b[pos + 1] as nat)
}

/// A string field: the length of the bytes in two bytes, then the bytes.
pub open spec fn string_field(s: Seq<u8>) -> Seq<u8> {
    be16(s.len()) + s
}

/// The string field at `pos`: its bytes and the position after it. It is
/// malformed where the length or the bytes run past `b`, and an invalid
/// string where the bytes are not UTF-8.
pub open spec fn parse_string(b: Seq<u8>, pos: int) -> Result<(Seq<u8>, int), ProtocolError> {
    if pos < 0 || pos + 2 > b.len() {
        Err(ProtocolError::MalformedPacket)
    } else if pos + 2 + be16_at(b, pos) > b.len() {
        Err(ProtocolError::MalformedPacket)
    } else if !valid_utf8(b.subrange(pos + 2, pos + 2 + be16_at(b, pos))) {
        Err(ProtocolError::InvalidUtf8String)
    } else {
        Ok((b.subrange(pos + 2, pos + 2 + be16_at(b, pos)), pos + 2 + be16_at(b, pos)))
    }
}

/// Reading a string field back from its encoding gives the string and the
/// position after the field.
pub proof fn lemma_parse_string_field(b: Seq<u8>, pos: int, s: Seq<u8>)
    requires
        s.len() <= MAX_STRING_LEN,
        valid_utf8(s),
        0 <= pos,
        pos + 2 + s.len() <= b.len(),
        b.subrange(pos, pos + 2 + s.len()) == string_field(s),
    ensures
        parse_string(b, pos) == Ok::<(Seq<u8>, int), ProtocolError>((s, pos + 2 + s.len())),
{
    let f = string_field(s);
    assert(b[pos] == f[0]);
    assert(b[pos + 1] == f[1]);
    assert(be16_at(b, pos) == s.len());
    assert(b.subrange(pos + 2, pos + 2 + s.len()) =~= s) by {
        assert forall|j: int| 0 <= j < s.len() implies b[pos + 2 + j] == s[j] by {
            assert(b.subrange(pos, pos + 2 + s.len())[j + 2] == f[j + 2]);
        }
    }
}

/// Relies on `core::str::from_utf8`: it accepts exactly the byte sequences
/// that are valid UTF-8, and the string it then returns holds those bytes.
#[verifier::external_body]
fn str_from_utf8<'a>(b: &'a [u8]) -> (r: Option<&'a str>)
    ensures
        r is Some <==> valid_utf8(b@),
        r is Some ==> r->Some_0.spec_bytes() == b@,
{
    core::str::from_utf8(b).ok()
}

/// Reads the string field at `*cursor` and moves the cursor past it; the
/// string borrows from `buf`. On error the cursor stays.
pub fn read_utf8_string<'a>(cursor: &mut usize, buf: &'a [u8]) -> (r: Result<
    &'a str,
    MqttError<ErrorPlaceHolder>,
>)
    ensures
        match parse_string(buf@, *old(cursor) as int) {
            Ok((s, p)) => r is Ok && r->Ok_0.spec_bytes() == s && *final(cursor) == p,
            Err(e) => r == Err::<&'a str, MqttError<ErrorPlaceHolder>>(MqttError::Protocol(e))
                && *final(cursor) == *old(cursor),
        },
{
    let c = *cursor;
    if c > buf.len() || buf.len() - c < 2 {
        return Err(MqttError::Protocol(ProtocolError::MalformedPacket));
    }
    let len = (buf[c] as usize) * 256 + (buf[c + 1] as usize);
    if buf.len() - c - 2 < len {
        return Err(MqttError::Protocol(ProtocolError::MalformedPacket));
    }
    let bytes = &buf[c + 2..c + 2 + len];
    match str_from_utf8(bytes) {
        Some(s) => {
            *cursor = c + 2 + len;
            Ok(s)
        },
        None => Err(MqttError::Protocol(ProtocolError::InvalidUtf8String)),
    }
}

/// Copies `src` into `buf` at `at`.
pub(crate) fn put_bytes(buf: &mut [u8], at: usize, src: &[u8])
    requires
        at + src@.len() <= old(buf)@.len(),
    ensures
        final(buf)@ == splice(old(buf)@, at as int, src@),
{
    let ghost orig = buf@;
    let blen = buf.len();
    let mut k: usize = 0;
    while k < src.len()
        invariant
            k <= src@.len(),
            blen == orig.len(),
            buf@.len() == orig.len(),
            at + src@.len() <= orig.len(),
            buf@ == orig.subrange(0, at as int) + src@.subrange(0, k as int) + orig.subrange(
                at + k,
                orig.len() as int,
            ),
        decreases src@.len() - k,
    {
        buf[at + k] = src[k];
        k = k + 1;
        assert(buf@ =~= orig.subrange(0, at as int) + src@.subrange(0, k as int) + orig.subrange(
            at + k,
            orig.len() as int,
        ));
    }
    assert(src@.subrange(0, k as int) =~= src@);
}

/// Writes `v` as two big-endian bytes at `at`.
pub(crate) fn put_u16(buf: &mut [u8], at: usize, v: u16)
    requires
        at + 2 <= old(buf)@.len(),
    ensures
        final(buf)@ == splice(old(buf)@, at as int, be16(v as nat)),
{
    let ghost orig = buf@;
    buf[at] = (v / 256) as u8;
    buf[at + 1] = (v % 256) as u8;
    assert(buf@ =~= splice(orig, at as int, be16(v as nat)));
}

/// Writes the string field of `s` at `at`.
pub(crate) fn put_string(buf: &mut [u8], at: usize, s: &str)
    requires
        s.spec_bytes().len() <= MAX_STRING_LEN,
        at + 2 + s.spec_bytes().len() <= old(buf)@.len(),
    ensures
        final(buf)@ == splice(old(buf)@, at as int, string_field(s.spec_bytes())),
{
    let ghost orig = buf@;
    let _ = buf.len();
    let bytes = s.as_bytes();
    put_u16(buf, at, bytes.len() as u16);
    put_bytes(buf, at + 2, bytes);
    assert(buf@ =~= splice(orig, at as int, string_field(s.spec_bytes())));
}

/// Writes the string field of `s` at the start of `buf` and returns its
/// length, two more than the string's. A string longer than
/// `MAX_STRING_LEN` bytes is too large, whatever the buffer; a field that
/// does not fit leaves the buffer too small. On error nothing is written.
pub fn write_utf8_string(buf: &mut [u8], s: &str) -> (r: Result<usize, MqttError<ErrorPlaceHolder>>)
    ensures
        s.spec_bytes().len() > MAX_STRING_LEN ==> r == Err::<usize, MqttError<ErrorPlaceHolder>>(
            MqttError::Protocol(ProtocolError::PayloadTooLarge),
        ),
        s.spec_bytes().len() <= MAX_STRING_LEN && 2 + s.spec_bytes().len() > old(buf)@.len() ==> r
            == Err::<usize, MqttError<ErrorPlaceHolder>>(MqttError::BufferTooSmall),
        s.spec_bytes().len() <= MAX_STRING_LEN && 2 + s.spec_bytes().len() <= old(buf)@.len() ==> r
            == Ok::<usize, MqttError<ErrorPlaceHolder>>((2 + s.spec_bytes().len()) as usize),
        r is Ok ==> final(buf)@ == splice(old(buf)@, 0, string_field(s.spec_bytes())),
        r is Err ==> final(buf)@ == old(buf)@,
{
    let len = s.as_bytes().len();
    if len > MAX_STRING_LEN {
        return Err(MqttError::Protocol(ProtocolError::PayloadTooLarge));
    }
    if buf.len() < 2 || buf.len() - 2 < len {
        return Err(MqttError::BufferTooSmall);
    }
    put_string(buf, 0, s);
    Ok(2 + len)
}


/// A property of an MQTT 5 packet: an identifier and its data, borrowed from
/// the buffer it was read from.
#[derive(Debug, Clone, Copy, PartialEq, Eq)]
pub struct Property<'a> {
    pub id: u8,
    pub data: &'a [u8],
}

/// What a property holds.
pub ghost struct PropertyView {
    pub id: u8,
    pub data: Seq<u8>,
}

impl<'a> View for Property<'a> {
    type V = PropertyView;

    open spec fn view(&self) -> PropertyView {
        PropertyView { id: self.id, data: self.data@ }
    }
}

/// The views of a sequence of properties.
pub open spec fn props_view<'a>(ps: Seq<Property<'a>>) -> Seq<PropertyView> {
    ps.map_values(|p: Property<'a>| p@)
}

/// The most properties a decoded packet holds.
pub const MAX_PROPERTIES: usize = 8;

/// The properties one after the other, each its identifier then its data.
pub open spec fn props_body(ps: Seq<PropertyView>) -> Seq<u8>
    decreases ps.len(),
{
    if ps.len() == 0 {
        seq![]
    } else {
        props_body(ps.drop_last()) + seq![ps.last().id] + ps.last().data
    }
}

/// A property list on the wire: its length in bytes as a variable-byte
/// integer, then the properties.
pub open spec fn properties_field(ps: Seq<PropertyView>) -> Seq<u8> {
    vbi_bytes(props_body(ps).len()) + props_body(ps)
}

/// A property list in the form this codec reads: each property is its
/// identifier and one byte of data.
pub open spec fn readable_properties(ps: Seq<PropertyView>) -> bool {
    &&& ps.len() <= MAX_PROPERTIES
    &&& forall|i: int| 0 <= i < ps.len() ==> (#[trigger] ps[i]).data.len() == 1
}

/// The property list at `pos`, read as pairs of an identifier and one byte of
/// data, and the position after it. It is malformed where its length cannot
/// be read, runs past `b` or is odd; more than `MAX_PROPERTIES` pairs are too
/// many.
pub open spec fn parse_properties(b: Seq<u8>, pos: int) -> Result<
    (Seq<PropertyView>, int),
    ProtocolError,
> {
    match parse_vbi(b, pos) {
        None => Err(ProtocolError::MalformedPacket),
        Some((len, k)) => {
            let start = pos + k;
            if start + len > b.len() || len % 2 != 0 {
                Err(ProtocolError::MalformedPacket)
            } else if len / 2 > MAX_PROPERTIES {
                Err(ProtocolError::TooManyProperties)
            } else {
                Ok(
                    (
                        Seq::new(
                            len / 2,
                            |i: int| PropertyView { id: b[start + 2 * i], data: seq![b[start + 2 * i + 1]] },
                        ),
                        start + len,
                    ),
                )
            }
        },
    }
}

proof fn lemma_props_body_pairs(ps: Seq<PropertyView>)
    requires
        forall|i: int| 0 <= i < ps.len() ==> (#[trigger] ps[i]).data.len() == 1,
    ensures
        props_body(ps).len() == 2 * ps.len(),
        forall|i: int|
            0 <= i < ps.len() ==> props_body(ps)[2 * i] == (#[trigger] ps[i]).id && props_body(ps)[2
                * i + 1] == ps[i].data[0],
    decreases ps.len(),
{
    if ps.len() > 0 {
        let init = ps.drop_last();
        assert forall|i: int| 0 <= i < init.len() implies (#[trigger] init[i]).data.len() == 1 by {
            assert(init[i] == ps[i]);
        }
        lemma_props_body_pairs(init);
        assert forall|i: int| 0 <= i < ps.len() implies props_body(ps)[2 * i] == (
        #[trigger] ps[i]).id && props_body(ps)[2 * i + 1] == ps[i].data[0] by {
            if i < ps.len() - 1 {
                assert(init[i] == ps[i]);
            }
        }
    }
}

/// Reading a property list back from its encoding gives the properties and
/// the position after the list.
pub proof fn lemma_parse_properties_field(b: Seq<u8>, pos: int, ps: Seq<PropertyView>)
    requires
        readable_properties(ps),
        0 <= pos,
        pos + properties_field(ps).len() <= b.len(),
        b.subrange(pos, pos + properties_field(ps).len()) == properties_field(ps),
    ensures
        parse_properties(b, pos) == Ok::<(Seq<PropertyView>, int), ProtocolError>(
            (ps, pos + properties_field(ps).len()),
        ),
{
    let body = props_body(ps);
    let f = properties_field(ps);
    lemma_props_body_pairs(ps);
    let v = vbi_bytes(body.len());
    lemma_vbi_bytes_len(body.len());
    assert(b.subrange(pos, pos + v.len()) =~= v) by {
        assert forall|j: int| 0 <= j < v.len() implies b[pos + j] == v[j] by {
            assert(b.subrange(pos, pos + f.len())[j] == f[j]);
        }
    }
    lemma_parse_vbi_of_bytes(b, pos, body.len());
    let start = pos + v.len();
    assert forall|j: int| 0 <= j < body.len() implies b[start + j] == body[j] by {
        assert(b.subrange(pos, pos + f.len())[v.len() + j] == f[v.len() + j]);
    }
    let parsed = Seq::new(
        body.len() / 2,
        |i: int| PropertyView { id: b[start + 2 * i], data: seq![b[start + 2 * i + 1]] },
    );
    assert(parsed =~= ps) by {
        assert forall|i: int| 0 <= i < ps.len() implies parsed[i] == ps[i] by {
            assert(b[start + 2 * i] == body[2 * i]);
            assert(b[start + 2 * i + 1] == body[2 * i + 1]);
            assert(seq![ps[i].data[0]] =~= ps[i].data);
        }
    }
}

/// Reads a property list at `*cursor` and moves the cursor past it; each
/// property's data borrows one byte from `buf`. On error the cursor stays.
pub fn read_properties<'a>(cursor: &mut usize, buf: &'a [u8]) -> (r: Result<
    Vec<Property<'a>>,
    MqttError<ErrorPlaceHolder>,
>)
    ensures
        match parse_properties(buf@, *old(cursor) as int) {
            Ok((ps, p)) => r is Ok && props_view(r->Ok_0@) == ps && *final(cursor) == p,
            Err(e) => r == Err::<Vec<Property<'a>>, MqttError<ErrorPlaceHolder>>(
                MqttError::Protocol(e),
            ) && *final(cursor) == *old(cursor),
        },
{
    let c = *cursor;
    let mut p = c;
    proof {
        lemma_parse_vbi_bounds(buf@, c as int);
    }
    let plen = match read_variable_byte_integer(&mut p, buf) {
        Ok(n) => n,
        Err(e) => {
            return Err(e);
        },
    };
    if p > buf.len() || buf.len() - p < plen || plen % 2 != 0 {
        return Err(MqttError::Protocol(ProtocolError::MalformedPacket));
    }
    if plen / 2 > MAX_PROPERTIES {
        return Err(MqttError::Protocol(ProtocolError::TooManyProperties));
    }
    let start = p;
    let end = p + plen;
    let ghost b = buf@;
    let ghost want = Seq::new(
        plen as nat / 2,
        |i: int| PropertyView { id: b[start + 2 * i], data: seq![b[start + 2 * i + 1]] },
    );
    let mut properties: Vec<Property<'a>> = Vec::new();
    let mut i: usize = 0;
    while i < plen / 2
        invariant
            b == buf@,
            end == start + plen,
            end <= b.len(),
            plen % 2 == 0,
            want == Seq::new(
                plen as nat / 2,
                |j: int| PropertyView { id: b[start + 2 * j], data: seq![b[start + 2 * j + 1]] },
            ),
            i <= plen / 2,
            props_view(properties@) == want.subrange(0, i as int),
        decreases plen / 2 - i,
    {
        let at = start + 2 * i;
        let data = &buf[at + 1..at + 2];
        proof {
            assert(data@ =~= seq![b[at + 1]]);
        }
        let prop = Property { id: buf[at], data };
        let ghost before = properties@;
        assert(want[i as int].id == b[at as int]);
        assert(want[i as int].data == seq![b[at + 1]]);
        assert(prop@ == want[i as int]);
        properties.push(prop);
        assert(properties@ == before.push(prop));
        assert(props_view(properties@) =~= props_view(before).push(prop@));
        assert(want.subrange(0, i + 1) =~= want.subrange(0, i as int).push(want[i as int]));
        i = i + 1;
        assert(props_view(properties@) =~= want.subrange(0, i as int));
    }
    assert(want.subrange(0, i as int) =~= want);
    *cursor = end;
    Ok(properties)
}

proof fn lemma_props_body_push(ps: Seq<PropertyView>, i: int)
    requires
        0 <= i < ps.len(),
    ensures
        props_body(ps.take(i + 1)) == props_body(ps.take(i)) + seq![ps[i].id] + ps[i].data,
{
    assert(ps.take(i + 1).drop_last() =~= ps.take(i));
}

/// The length of the property list's body, if it is at most `VBI_MAX`.
pub(crate) fn props_body_len<'a>(properties: &[Property<'a>]) -> (r: Option<usize>)
    ensures
        props_body(props_view(properties@)).len() > VBI_MAX ==> r is None,
        props_body(props_view(properties@)).len() <= VBI_MAX ==> r == Some(
            props_body(props_view(properties@)).len() as usize,
        ),
{
    let ghost ps = props_view(properties@);
    let mut total: usize = 0;
    let mut i: usize = 0;
    while i < properties.len()
        invariant
            i <= properties@.len(),
            ps == props_view(properties@),
            total == props_body(ps.take(i as int)).len(),
            total <= VBI_MAX,
        decreases properties@.len() - i,
    {
        proof {
            lemma_props_body_push(ps, i as int);
        }
        let n = properties[i].data.len();
        if n >= VBI_MAX - total {
            proof {
                lemma_props_body_prefix_len(ps, i as int + 1);
            }
            return None;
        }
        total = total + 1 + n;
        i = i + 1;
    }
    assert(ps.take(i as int) =~= ps);
    Some(total)
}

/// Writes the property list of `properties` at `*cursor` and moves the
/// cursor past it. A list longer than `VBI_MAX` bytes is too large; one that
/// does not fit leaves the buffer too small. On error nothing is written and
/// the cursor stays.
pub fn write_properties<'a>(cursor: &mut usize, buf: &mut [u8], properties: &[Property<'a>]) -> (r:
    Result<(), MqttError<ErrorPlaceHolder>>)
    ensures
        props_body(props_view(properties@)).len() > VBI_MAX ==> r == Err::<
            (),
            MqttError<ErrorPlaceHolder>,
        >(MqttError::Protocol(ProtocolError::PayloadTooLarge)),
        props_body(props_view(properties@)).len() <= VBI_MAX && *old(cursor) + properties_field(
            props_view(properties@),
        ).len() > old(buf)@.len() ==> r == Err::<(), MqttError<ErrorPlaceHolder>>(
            MqttError::BufferTooSmall,
        ),
        props_body(props_view(properties@)).len() <= VBI_MAX && *old(cursor) + properties_field(
            props_view(properties@),
        ).len() <= old(buf)@.len() ==> r is Ok,
        r is Ok ==> final(buf)@ == splice(
            old(buf)@,
            *old(cursor) as int,
            properties_field(props_view(properties@)),
        ) && *final(cursor) == *old(cursor) + properties_field(props_view(properties@)).len(),
        r is Err ==> final(buf)@ == old(buf)@ && *final(cursor) == *old(cursor),
{
    let ghost ps = props_view(properties@);
    let total = match props_body_len(properties) {
        Some(n) => n,
        None => {
            return Err(MqttError::Protocol(ProtocolError::PayloadTooLarge));
        },
    };
    let field_len = vbi_encoded_len(total) + total;
    let at = *cursor;
    if at > buf.len() || buf.len() - at < field_len {
        return Err(MqttError::BufferTooSmall);
    }
    let ghost orig = buf@;
    put_vbi(buf, at, total);
    let mut q = at + vbi_encoded_len(total);
    let mut k: usize = 0;
    assert(ps.take(0) =~= Seq::<PropertyView>::empty());
    assert(buf@ =~= splice(orig, at as int, vbi_bytes(total as nat) + props_body(ps.take(0))));
    while k < properties.len()
        invariant
            k <= properties@.len(),
            ps == props_view(properties@),
            total == props_body(ps).len(),
            at + field_len <= orig.len(),
            field_len == vbi_bytes(total as nat).len() + total,
            q == at + vbi_bytes(total as nat).len() + props_body(ps.take(k as int)).len(),
            props_body(ps.take(k as int)).len() <= total,
            buf@ == splice(orig, at as int, vbi_bytes(total as nat) + props_body(ps.take(k as int))),
        decreases properties@.len() - k,
    {
        proof {
            lemma_props_body_push(ps, k as int);
            lemma_props_body_prefix_len(ps, k as int + 1);
        }
        let prop = &properties[k];
        buf[q] = prop.id;
        put_bytes(buf, q + 1, prop.data);
        q = q + 1 + prop.data.len();
        k = k + 1;
        assert(buf@ =~= splice(
            orig,
            at as int,
            vbi_bytes(total as nat) + props_body(ps.take(k as int)),
        ));
    }
    assert(ps.take(k as int) =~= ps);
    *cursor = q;
    Ok(())
}

proof fn lemma_props_body_prefix_len(ps: Seq<PropertyView>, i: int)
    requires
        0 <= i <= ps.len(),
    ensures
        props_body(ps.take(i)).len() <= props_body(ps).len(),
    decreases ps.len() - i,
{
    if i < ps.len() {
        lemma_props_body_push(ps, i);
        lemma_props_body_prefix_len(ps, i + 1);
    } else {
        assert(ps.take(i) =~= ps);
    }
}

} // verus!
