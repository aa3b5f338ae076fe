//! Control packets and their wire codec.
//!
//! Encoders write a packet's content five bytes into the buffer, after the
//! fixed header byte and room for the longest remaining length; once the
//! content length is known they write it and shift the content left over the
//! gap. Decoders read from the buffer without copying: strings, payloads and
//! property data borrow from it. Decoding is total: a packet that runs short
//! is malformed, never an out-of-bounds access.

use vstd::prelude::*;
use vstd::string::StringSliceAdditionalSpecFns;
use vstd::utf8::valid_utf8;

use crate::error::{ErrorPlaceHolder, MqttError, ProtocolError};
use crate::transport::TransportError;
use crate::util::{
    be16, be16_at, lemma_parse_properties_field, lemma_parse_string_field,
    lemma_parse_vbi_bounds, lemma_parse_vbi_of_bytes, lemma_vbi_bytes_len, parse_properties,
    parse_string, parse_vbi, properties_field, props_body, props_view, read_properties,
    read_utf8_string, read_variable_byte_integer, readable_properties, splice, string_field,
    vbi_bytes, write_properties, PropertyView, MAX_STRING_LEN, VBI_MAX,
};

pub use crate::util::Property;

verus! {

/// The error of the codec: it never involves a transport.
pub type CodecError = MqttError<ErrorPlaceHolder>;

/// Quality of service: how often a message is delivered. The levels are
/// ordered, the stricter later.
#[derive(Debug, Clone, Copy, PartialEq, Eq, Structural, PartialOrd)]
pub enum QoS {
    AtMostOnce,
    AtLeastOnce,
    ExactlyOnce,
}

/// The numeric level of a QoS.
pub open spec fn qos_level(q: QoS) -> u8 {
    match q {
        QoS::AtMostOnce => 0,
        QoS::AtLeastOnce => 1,
        QoS::ExactlyOnce => 2,
    }
}

/// The QoS of a level below three.
pub open spec fn qos_of_level(l: u8) -> QoS {
    if l == 0 {
        QoS::AtMostOnce
    } else if l == 1 {
        QoS::AtLeastOnce
    } else {
        QoS::ExactlyOnce
    }
}

impl QoS {
    /// The numeric level of this QoS.
    pub fn level(self) -> (r: u8)
        ensures
            r == qos_level(self),
    {
        match self {
            QoS::AtMostOnce => 0,
            QoS::AtLeastOnce => 1,
            QoS::ExactlyOnce => 2,
        }
    }
}

/// The protocol version a packet is encoded for.
#[derive(Debug, Clone, Copy, PartialEq, Eq, Structural)]
pub enum MqttVersion {
    /// Version 3.1.1, protocol level 4.
    V311,
    /// Version 5, protocol level 5; packets carry property lists.
    V5,
}

/// A packet that can be written to a buffer.
pub trait EncodePacket {
    /// The packet's bytes on the wire.
    spec fn wire(&self, version: MqttVersion) -> Seq<u8>;

    /// Whether the fields contradict each other, so that no packet can
    /// carry them.
    spec fn ill_formed(&self) -> bool;

    /// Whether a field is too large for the wire format.
    spec fn too_large(&self, version: MqttVersion) -> bool;

    /// How many bytes of buffer the encoder needs.
    spec fn room(&self, version: MqttVersion) -> nat;

    /// Writes the packet at the start of `buf` and returns its length. Fields
    /// that contradict each other make a malformed packet; then a field too
    /// large for the format fails, then a buffer with less than `room` bytes.
    /// On error `buf` is left as it was.
    fn encode(&self, buf: &mut [u8], version: MqttVersion) -> (r: Result<usize, CodecError>)
        ensures
            self.ill_formed() ==> r == Err::<usize, CodecError>(
                MqttError::Protocol(ProtocolError::MalformedPacket),
            ),
            !self.ill_formed() && self.too_large(version) ==> r == Err::<usize, CodecError>(
                MqttError::Protocol(ProtocolError::PayloadTooLarge),
            ),
            !self.ill_formed() && !self.too_large(version) && old(buf)@.len() < self.room(version)
                ==> r == Err::<usize, CodecError>(MqttError::BufferTooSmall),
            !self.ill_formed() && !self.too_large(version) && old(buf)@.len() >= self.room(version)
                ==> r == Ok::<
                usize,
                CodecError,
            >(self.wire(version).len() as usize),
            r is Ok ==> self.wire(version).len() <= old(buf)@.len() && final(buf)@.len() == old(
                buf,
            )@.len() && final(buf)@.subrange(0, self.wire(version).len() as int) == self.wire(
                version,
            ),
            r is Err ==> final(buf)@ == old(buf)@,
    ;
}

/// A packet that can be read from a buffer, borrowing from it.
pub trait DecodePacket<'a>: Sized + View {
    /// What the bytes `b` hold, read as this kind of packet.
    spec fn parse(b: Seq<u8>, version: MqttVersion) -> Result<Self::V, ProtocolError>;

    /// Reads the packet at the start of `buf`.
    fn decode(buf: &'a [u8], version: MqttVersion) -> (r: Result<Self, CodecError>)
        ensures
            match Self::parse(buf@, version) {
                Ok(w) => r is Ok && r->Ok_0@ == w,
                Err(e) => r == Err::<Self, CodecError>(MqttError::Protocol(e)),
            },
    ;
}

// ---------------------------------------------------------------------------
// Framing

/// A packet on the wire: the fixed header byte, the content length as a
/// variable-byte integer, then the content.
#[verifier::opaque]
pub open spec fn framed(header: u8, content: Seq<u8>) -> Seq<u8> {
    seq![header] + vbi_bytes(content.len()) + content
}

/// Where the content of the packet in `b` starts and ends, as its remaining
/// length gives them. Malformed where the length cannot be read or the
/// content runs past `b`.
pub open spec fn parse_frame(b: Seq<u8>) -> Result<(int, int), ProtocolError> {
    match parse_vbi(b, 1) {
        None => Err(ProtocolError::MalformedPacket),
        Some((len, k)) => if 1 + k + len > b.len() {
            Err(ProtocolError::MalformedPacket)
        } else {
            Ok(((1 + k) as int, (1 + k + len) as int))
        },
    }
}

/// The byte at `pos`, and the position after it.
pub open spec fn parse_u8(b: Seq<u8>, pos: int) -> Result<(u8, int), ProtocolError> {
    if 0 <= pos < b.len() {
        Ok((b[pos], pos + 1))
    } else {
        Err(ProtocolError::MalformedPacket)
    }
}

/// The two-byte big-endian integer at `pos`, and the position after it.
pub open spec fn parse_u16(b: Seq<u8>, pos: int) -> Result<(u16, int), ProtocolError> {
    if 0 <= pos && pos + 2 <= b.len() {
        Ok((be16_at(b, pos) as u16, pos + 2))
    } else {
        Err(ProtocolError::MalformedPacket)
    }
}

/// The property list at `pos` for version 5; none, and nothing read, for
/// version 3.1.1.
pub open spec fn parse_version_properties(b: Seq<u8>, pos: int, version: MqttVersion) -> Result<
    (Seq<PropertyView>, int),
    ProtocolError,
> {
    if version == MqttVersion::V5 {
        parse_properties(b, pos)
    } else {
        Ok((seq![], pos))
    }
}

/// The property list of `ps` for version 5; nothing for version 3.1.1.
pub open spec fn version_properties(ps: Seq<PropertyView>, version: MqttVersion) -> Seq<u8> {
    if version == MqttVersion::V5 {
        properties_field(ps)
    } else {
        seq![]
    }
}

fn read_u8(cursor: &mut usize, buf: &[u8]) -> (r: Result<u8, CodecError>)
    ensures
        match parse_u8(buf@, *old(cursor) as int) {
            Ok((x, p)) => r == Ok::<u8, CodecError>(x) && *final(cursor) == p,
            Err(e) => r == Err::<u8, CodecError>(MqttError::Protocol(e)) && *final(cursor) == *old(
                cursor,
            ),
        },
{
    let c = *cursor;
    if c >= buf.len() {
        return Err(MqttError::Protocol(ProtocolError::MalformedPacket));
    }
    *cursor = c + 1;
    Ok(buf[c])
}

fn read_u16(cursor: &mut usize, buf: &[u8]) -> (r: Result<u16, CodecError>)
    ensures
        match parse_u16(buf@, *old(cursor) as int) {
            Ok((x, p)) => r == Ok::<u16, CodecError>(x) && *final(cursor) == p,
            Err(e) => r == Err::<u16, CodecError>(MqttError::Protocol(e)) && *final(cursor)
                == *old(cursor),
        },
{
    let c = *cursor;
    if c > buf.len() || buf.len() - c < 2 {
        return Err(MqttError::Protocol(ProtocolError::MalformedPacket));
    }
    *cursor = c + 2;
    Ok((buf[c] as u16) * 256 + (buf[c + 1] as u16))
}

fn read_version_properties<'a>(cursor: &mut usize, buf: &'a [u8], version: MqttVersion) -> (r:
    Result<Vec<Property<'a>>, CodecError>)
    ensures
        match parse_version_properties(buf@, *old(cursor) as int, version) {
            Ok((ps, p)) => r is Ok && props_view(r->Ok_0@) == ps && *final(cursor) == p,
            Err(e) => r == Err::<Vec<Property<'a>>, CodecError>(MqttError::Protocol(e))
                && *final(cursor) == *old(cursor),
        },
{
    if version == MqttVersion::V5 {
        read_properties(cursor, buf)
    } else {
        let v: Vec<Property<'a>> = Vec::new();
        assert(props_view(v@) =~= seq![]);
        Ok(v)
    }
}

/// Reads the remaining length and gives the content's start and end.
fn read_frame(buf: &[u8]) -> (r: Result<(usize, usize), CodecError>)
    ensures
        match parse_frame(buf@) {
            Ok((s, e)) => r is Ok && r->Ok_0.0 == s && r->Ok_0.1 == e && 1 <= s <= e <= buf@.len(),
            Err(e) => r == Err::<(usize, usize), CodecError>(MqttError::Protocol(e)),
        },
{
    proof {
        lemma_parse_vbi_bounds(buf@, 1);
    }
    let mut cursor: usize = 1;
    let len = match read_variable_byte_integer(&mut cursor, buf) {
        Ok(n) => n,
        Err(e) => {
            return Err(e);
        },
    };
    if buf.len() - cursor < len {
        return Err(MqttError::Protocol(ProtocolError::MalformedPacket));
    }
    Ok((cursor, cursor + len))
}

/// Moves `n` bytes from `src` down to `dst`.
fn shift_left(buf: &mut [u8], dst: usize, src: usize, n: usize)
    requires
        dst <= src,
        src + n <= old(buf)@.len(),
    ensures
        final(buf)@.len() == old(buf)@.len(),
        final(buf)@.subrange(0, dst as int) == old(buf)@.subrange(0, dst as int),
        final(buf)@.subrange(dst as int, dst + n) == old(buf)@.subrange(src as int, src + n),
{
    let ghost orig = buf@;
    let blen = buf.len();
    let mut i: usize = 0;
    while i < n
        invariant
            dst <= src,
            src + n <= orig.len(),
            blen == orig.len(),
            buf@.len() == orig.len(),
            i <= n,
            buf@.subrange(0, dst as int) == orig.subrange(0, dst as int),
            buf@.subrange(dst as int, dst + i) == orig.subrange(src as int, src + i),
            buf@.subrange(src + i, src + n) == orig.subrange(src + i, src + n),
        decreases n - i,
    {
        let x = buf[src + i];
        proof {
            assert(x == buf@.subrange(src + i, src + n)[0]);
        }
        let ghost pre = buf@;
        buf[dst + i] = x;
        proof {
            assert forall|j: int| src + i + 1 <= j < src + n implies buf@[j] == orig[j] by {
                assert(pre.subrange(src + i, src + n)[j - src - i] == orig.subrange(
                    src + i,
                    src + n,
                )[j - src - i]);
            }
            assert(buf@.subrange(0, dst as int) =~= orig.subrange(0, dst as int));
            assert(buf@.subrange(dst as int, dst + i + 1) =~= orig.subrange(src as int, src + i + 1));
            assert(buf@.subrange(src + i + 1, src + n) =~= orig.subrange(src + i + 1, src + n));
        }
        i = i + 1;
    }
}

/// Turns the `content_len` bytes written from offset 5 into a framed packet
/// at the start of `buf`, and returns its length.
fn finish_frame(buf: &mut [u8], header: u8, content_len: usize) -> (n: usize)
    requires
        content_len <= VBI_MAX,
        5 + content_len <= old(buf)@.len(),
    ensures
        final(buf)@.len() == old(buf)@.len(),
        n == framed(header, old(buf)@.subrange(5, 5 + content_len)).len(),
        final(buf)@.subrange(0, n as int) == framed(
            header,
            old(buf)@.subrange(5, 5 + content_len),
        ),
{
    let ghost orig = buf@;
    let ghost content = orig.subrange(5, 5 + content_len);
    reveal(framed);
    buf[0] = header;
    let mut cursor: usize = 1;
    proof {
        lemma_vbi_bytes_len(content_len as nat);
    }
    let _ = crate::util::write_variable_byte_integer(&mut cursor, buf, content_len);
    let ghost mid = buf@;
    assert(mid.subrange(5, 5 + content_len) =~= content);
    shift_left(buf, cursor, 5, content_len);
    proof {
        assert(buf@.subrange(0, cursor as int) =~= mid.subrange(0, cursor as int));
        assert(buf@.subrange(0, cursor + content_len) =~= buf@.subrange(0, cursor as int)
            + buf@.subrange(cursor as int, cursor + content_len));
        assert(framed(header, content) =~= buf@.subrange(0, cursor + content_len));
    }
    cursor + content_len
}

/// Writing a piece at the end of what was written so far extends it.
proof fn lemma_extend(b: Seq<u8>, start: int, cur: int, written: Seq<u8>, piece: Seq<u8>)
    requires
        0 <= start <= cur,
        cur + piece.len() <= b.len(),
        b.subrange(start, cur) == written,
    ensures
        splice(b, cur, piece).len() == b.len(),
        splice(b, cur, piece).subrange(start, cur + piece.len()) == written + piece,
{
    assert(splice(b, cur, piece).subrange(start, cur + piece.len()) =~= written + piece);
}


// ---------------------------------------------------------------------------
// PUBLISH

/// A PUBLISH packet: a message on a topic. It carries a packet identifier
/// exactly when its QoS is above `AtMostOnce`.
#[derive(Debug)]
pub struct Publish<'a> {
    pub topic: &'a str,
    pub qos: QoS,
    pub payload: &'a [u8],
    pub packet_id: Option<u16>,
    pub properties: Vec<Property<'a>>,
}

/// What a PUBLISH packet holds; the topic as its UTF-8 bytes.
pub ghost struct PublishView {
    pub topic: Seq<u8>,
    pub qos: QoS,
    pub payload: Seq<u8>,
    pub packet_id: Option<u16>,
    pub properties: Seq<PropertyView>,
}

impl<'a> View for Publish<'a> {
    type V = PublishView;

    open spec fn view(&self) -> PublishView {
        PublishView {
            topic: self.topic.spec_bytes(),
            qos: self.qos,
            payload: self.payload@,
            packet_id: self.packet_id,
            properties: props_view(self.properties@),
        }
    }
}

/// The fixed header byte of a PUBLISH: type 3, the QoS in bits 1 and 2.
pub open spec fn publish_header(q: QoS) -> u8 {
    (0x30 + 2 * qos_level(q)) as u8
}

/// The packet identifier field: present when the QoS is above `AtMostOnce`
/// and there is an identifier to write.
pub open spec fn publish_id_field(p: PublishView) -> Seq<u8> {
    if p.qos != QoS::AtMostOnce && p.packet_id is Some {
        be16(p.packet_id->Some_0 as nat)
    } else {
        seq![]
    }
}

/// The content of a PUBLISH: topic, identifier, properties (version 5) and
/// payload.
pub open spec fn publish_content(p: PublishView, version: MqttVersion) -> Seq<u8> {
    string_field(p.topic) + publish_id_field(p) + version_properties(p.properties, version)
        + p.payload
}

/// Whether a PUBLISH has a field the wire format cannot hold.
pub open spec fn publish_too_large(p: PublishView, version: MqttVersion) -> bool {
    ||| p.topic.len() > MAX_STRING_LEN
    ||| (version == MqttVersion::V5 && props_body(p.properties).len() > VBI_MAX)
    ||| publish_content(p, version).len() > VBI_MAX
}

/// The PUBLISH packet in `b`. Malformed where the QoS bits are 3, and where
/// a field runs past the remaining length; the payload is the rest of the
/// content.
pub open spec fn parse_publish(b: Seq<u8>, version: MqttVersion) -> Result<PublishView, ProtocolError> {
    if b.len() == 0 || (b[0] / 2) % 4 == 3 {
        Err(ProtocolError::MalformedPacket)
    } else {
        match parse_frame(b) {
            Err(e) => Err(e),
            Ok((start, end)) => parse_publish_content(
                b.subrange(0, end),
                start,
                qos_of_level(((b[0] / 2) % 4) as u8),
                version,
            ),
        }
    }
}

/// The packet identifier at `pos` where the QoS asks for one, and the
/// position after it.
pub open spec fn parse_packet_id(b: Seq<u8>, pos: int, qos: QoS) -> Result<
    (Option<u16>, int),
    ProtocolError,
> {
    if qos == QoS::AtMostOnce {
        Ok((None, pos))
    } else {
        match parse_u16(b, pos) {
            Ok((x, p)) => Ok((Some(x), p)),
            Err(e) => Err(e),
        }
    }
}

/// The fields of a PUBLISH in `body` from `start` on; the payload runs to the
/// end of `body`.
pub open spec fn parse_publish_content(
    body: Seq<u8>,
    start: int,
    qos: QoS,
    version: MqttVersion,
) -> Result<PublishView, ProtocolError> {
    match parse_string(body, start) {
        Err(e) => Err(e),
        Ok((topic, pos1)) => match parse_packet_id(body, pos1, qos) {
            Err(e) => Err(e),
            Ok((packet_id, pos2)) => match parse_version_properties(body, pos2, version) {
                Err(e) => Err(e),
                Ok((properties, pos3)) => Ok(
                    PublishView {
                        topic,
                        qos,
                        payload: body.subrange(pos3, body.len() as int),
                        packet_id,
                        properties,
                    },
                ),
            },
        },
    }
}

/// The length of the version's property list for `properties`, if its body
/// is at most `VBI_MAX` bytes.
fn version_properties_len<'a>(properties: &Vec<Property<'a>>, version: MqttVersion) -> (r: Option<
    usize,
>)
    ensures
        version == MqttVersion::V5 && props_body(props_view(properties@)).len() > VBI_MAX ==> r is None,
        !(version == MqttVersion::V5 && props_body(props_view(properties@)).len() > VBI_MAX) ==> r
            is Some && r->Some_0 == version_properties(props_view(properties@), version).len(),
{
    if version == MqttVersion::V5 {
        match crate::util::props_body_len(properties.as_slice()) {
            Some(n) => {
                proof {
                    lemma_vbi_bytes_len(n as nat);
                }
                Some(crate::util::vbi_encoded_len(n) + n)
            },
            None => None,
        }
    } else {
        Some(0)
    }
}

/// Writes the version's property list at `at`.
fn put_version_properties<'a>(
    buf: &mut [u8],
    at: usize,
    properties: &Vec<Property<'a>>,
    version: MqttVersion,
)
    requires
        version == MqttVersion::V5 ==> props_body(props_view(properties@)).len() <= VBI_MAX,
        at + version_properties(props_view(properties@), version).len() <= old(buf)@.len(),
    ensures
        final(buf)@ == splice(old(buf)@, at as int, version_properties(props_view(properties@), version)),
{
    if version == MqttVersion::V5 {
        let mut cursor = at;
        let _ = write_properties(&mut cursor, buf, properties.as_slice());
    } else {
        assert(splice(buf@, at as int, seq![]) =~= buf@);
    }
}

impl<'a> EncodePacket for Publish<'a> {
    open spec fn wire(&self, version: MqttVersion) -> Seq<u8> {
        framed(publish_header(self.qos), publish_content(self@, version))
    }

    /// A QoS above `AtMostOnce` needs an identifier to write; at
    /// `AtMostOnce` an identifier is not written.
    open spec fn ill_formed(&self) -> bool {
        self.qos != QoS::AtMostOnce && self.packet_id is None
    }

    open spec fn too_large(&self, version: MqttVersion) -> bool {
        publish_too_large(self@, version)
    }

    open spec fn room(&self, version: MqttVersion) -> nat {
        5 + publish_content(self@, version).len()
    }

    fn encode(&self, buf: &mut [u8], version: MqttVersion) -> (r: Result<usize, CodecError>) {
        let ghost p = self@;
        if self.qos != QoS::AtMostOnce && self.packet_id.is_none() {
            return Err(MqttError::Protocol(ProtocolError::MalformedPacket));
        }
        let tlen = self.topic.as_bytes().len();
        if tlen > MAX_STRING_LEN {
            return Err(MqttError::Protocol(ProtocolError::PayloadTooLarge));
        }
        let with_id = self.qos != QoS::AtMostOnce && self.packet_id.is_some();
        let id_len: usize = if with_id {
            2
        } else {
            0
        };
        let props_len = match version_properties_len(&self.properties, version) {
            Some(n) => n,
            None => {
                return Err(MqttError::Protocol(ProtocolError::PayloadTooLarge));
            },
        };
        let plen = self.payload.len();
        assert(string_field(p.topic).len() == 2 + tlen);
        assert(publish_id_field(p).len() == id_len);
        assert(version_properties(p.properties, version).len() == props_len);
        assert(publish_content(p, version).len() == 2 + tlen + id_len + props_len + plen);
        if props_len > VBI_MAX || plen > VBI_MAX || 2 + tlen + id_len + props_len > VBI_MAX - plen {
            return Err(MqttError::Protocol(ProtocolError::PayloadTooLarge));
        }
        let content_len = 2 + tlen + id_len + props_len + plen;
        if buf.len() < 5 || buf.len() - 5 < content_len {
            return Err(MqttError::BufferTooSmall);
        }
        self.put_content(buf, version, with_id);
        let header = 0x30u8 | (self.qos.level() << 1);
        proof {
            let l = qos_level(self.qos);
            assert(l <= 2 ==> 0x30u8 | (l << 1) == 0x30 + 2 * l) by (bit_vector);
        }
        assert(header == publish_header(self.qos));
        proof {
            lemma_vbi_bytes_len(content_len as nat);
        }
        let n = finish_frame(buf, header, content_len);
        proof {
            lemma_framed_len(header, publish_content(self@, version));
        }
        Ok(n)
    }
}

impl<'a> Publish<'a> {
    /// Writes the content from offset 5.
    fn put_content(&self, buf: &mut [u8], version: MqttVersion, with_id: bool)
        requires
            !publish_too_large(self@, version),
            with_id == (self.qos != QoS::AtMostOnce && self.packet_id is Some),
            5 + publish_content(self@, version).len() <= old(buf)@.len(),
        ensures
            final(buf)@.len() == old(buf)@.len(),
            final(buf)@.subrange(5, 5 + publish_content(self@, version).len() as int) == publish_content(
                self@,
                version,
            ),
    {
        let ghost p = self@;
        let ghost s1 = string_field(p.topic);
        let ghost s2 = publish_id_field(p);
        let ghost s3 = version_properties(p.properties, version);
        assert(buf@.subrange(5, 5) =~= seq![]);
        let mut cur: usize = 5;
        proof {
            lemma_extend(buf@, 5, 5, seq![], s1);
        }
        crate::util::put_string(buf, cur, self.topic);
        cur = cur + 2 + self.topic.as_bytes().len();
        assert(seq![] + s1 =~= s1);
        if with_id {
            let id = match self.packet_id {
                Some(x) => x,
                None => 0,
            };
            proof {
                lemma_extend(buf@, 5, cur as int, s1, s2);
            }
            crate::util::put_u16(buf, cur, id);
            cur = cur + 2;
        } else {
            assert(s1 + s2 =~= s1);
        }
        proof {
            lemma_extend(buf@, 5, cur as int, s1 + s2, s3);
        }
        let props_len = match version_properties_len(&self.properties, version) {
            Some(n) => n,
            None => 0,
        };
        put_version_properties(buf, cur, &self.properties, version);
        cur = cur + props_len;
        proof {
            lemma_extend(buf@, 5, cur as int, s1 + s2 + s3, p.payload);
        }
        crate::util::put_bytes(buf, cur, self.payload);
    }
}

impl<'a> DecodePacket<'a> for Publish<'a> {
    open spec fn parse(b: Seq<u8>, version: MqttVersion) -> Result<PublishView, ProtocolError> {
        parse_publish(b, version)
    }

    fn decode(buf: &'a [u8], version: MqttVersion) -> (r: Result<Self, CodecError>) {
        if buf.len() == 0 {
            return Err(MqttError::Protocol(ProtocolError::MalformedPacket));
        }
        let bits = (buf[0] >> 1) & 0x03;
        proof {
            let h = buf[0];
            assert((h >> 1) & 0x03 == (h / 2) % 4) by (bit_vector);
        }
        let qos = match bits {
            0 => QoS::AtMostOnce,
            1 => QoS::AtLeastOnce,
            2 => QoS::ExactlyOnce,
            _ => {
                return Err(MqttError::Protocol(ProtocolError::MalformedPacket));
            },
        };
        let (start, end) = match read_frame(buf) {
            Ok(f) => f,
            Err(e) => {
                return Err(e);
            },
        };
        let body = &buf[0..end];
        let mut cursor = start;
        let topic = match read_utf8_string(&mut cursor, body) {
            Ok(t) => t,
            Err(e) => {
                return Err(e);
            },
        };
        let packet_id = if bits == 0 {
            None
        } else {
            match read_u16(&mut cursor, body) {
                Ok(x) => Some(x),
                Err(e) => {
                    return Err(e);
                },
            }
        };
        let properties = match read_version_properties(&mut cursor, body, version) {
            Ok(ps) => ps,
            Err(e) => {
                return Err(e);
            },
        };
        let payload = &body[cursor..end];
        Ok(Publish { topic, qos, payload, packet_id, properties })
    }
}


/// A part of a concatenation, taken back out.
proof fn lemma_part(pre: Seq<u8>, x: Seq<u8>, post: Seq<u8>)
    ensures
        (pre + x + post).subrange(pre.len() as int, (pre.len() + x.len()) as int) == x,
        (pre + x + post).subrange(pre.len() as int, (pre + x + post).len() as int) == x + post,
{
    assert((pre + x + post).subrange(pre.len() as int, (pre.len() + x.len()) as int) =~= x);
    assert((pre + x + post).subrange(pre.len() as int, (pre + x + post).len() as int) =~= x + post);
}

proof fn lemma_framed_len(header: u8, content: Seq<u8>)
    ensures
        framed(header, content).len() == 1 + vbi_bytes(content.len()).len() + content.len(),
{
    reveal(framed);
}

/// Reading the frame of a framed packet finds its content.
proof fn lemma_parse_framed(header: u8, content: Seq<u8>)
    requires
        content.len() <= VBI_MAX,
    ensures
        parse_frame(framed(header, content)) == Ok::<(int, int), ProtocolError>(
            ((1 + vbi_bytes(content.len()).len()) as int, framed(header, content).len() as int),
        ),
        framed(header, content).subrange(0, framed(header, content).len() as int) == framed(
            header,
            content,
        ),
        framed(header, content)[0] == header,
        framed(header, content).subrange(
            (1 + vbi_bytes(content.len()).len()) as int,
            framed(header, content).len() as int,
        ) == content,
{
    reveal(framed);
    let w = framed(header, content);
    let v = vbi_bytes(content.len());
    lemma_part(seq![header], v, content);
    lemma_parse_vbi_of_bytes(w, 1, content.len());
    lemma_part(seq![header] + v, content, seq![]);
    assert(seq![header] + v + content + seq![] =~= w);
    assert(w.subrange(0, w.len() as int) =~= w);
}

proof fn lemma_publish_header(q: QoS)
    ensures
        (publish_header(q) / 2) % 4 == qos_level(q),
        qos_of_level(((publish_header(q) / 2) % 4) as u8) == q,
        publish_header(q) / 16 == 3,
{
}

proof fn lemma_publish_parsed(b: Seq<u8>, start: int, p: PublishView, version: MqttVersion)
    requires
        b.len() > 0,
        (b[0] / 2) % 4 == qos_level(p.qos),
        qos_of_level(((b[0] / 2) % 4) as u8) == p.qos,
        parse_frame(b) == Ok::<(int, int), ProtocolError>((start, b.len() as int)),
        b.subrange(0, b.len() as int) == b,
        parse_publish_content(b, start, p.qos, version) == Ok::<PublishView, ProtocolError>(p),
    ensures
        parse_publish(b, version) == Ok::<PublishView, ProtocolError>(p),
{
}

proof fn lemma_publish_content_parsed(
    w: Seq<u8>,
    start: int,
    pos1: int,
    pos2: int,
    pos3: int,
    p: PublishView,
    version: MqttVersion,
)
    requires
        parse_string(w, start) == Ok::<(Seq<u8>, int), ProtocolError>((p.topic, pos1)),
        parse_packet_id(w, pos1, p.qos) == Ok::<(Option<u16>, int), ProtocolError>(
            (p.packet_id, pos2),
        ),
        parse_version_properties(w, pos2, version) == Ok::<(Seq<PropertyView>, int), ProtocolError>(
            (p.properties, pos3),
        ),
        w.subrange(pos3, w.len() as int) == p.payload,
    ensures
        parse_publish_content(w, start, p.qos, version) == Ok::<PublishView, ProtocolError>(p),
{
}

/// A piece of `w` from `start` on, where that part of `w` is `c`.
proof fn lemma_piece(w: Seq<u8>, start: int, c: Seq<u8>, x: int, y: int)
    requires
        0 <= start <= w.len(),
        w.subrange(start, w.len() as int) == c,
        0 <= x <= y <= c.len(),
    ensures
        w.subrange(start + x, start + y) == c.subrange(x, y),
{
    assert(w.subrange(start + x, start + y) =~= c.subrange(x, y)) by {
        assert forall|j: int| 0 <= j < y - x implies #[trigger] w.subrange(start + x, start + y)[j]
            == c.subrange(x, y)[j] by {
            assert(w.subrange(start, w.len() as int)[x + j] == w[start + x + j]);
        }
    }
}

/// Reading the fields of a PUBLISH back from its content gives them back.
proof fn lemma_publish_fields(w: Seq<u8>, start: int, p: PublishView, version: MqttVersion)
    requires
        0 <= start <= w.len(),
        w.subrange(start, w.len() as int) == publish_content(p, version),
        p.topic.len() <= MAX_STRING_LEN,
        (p.packet_id is Some) == (p.qos != QoS::AtMostOnce),
        valid_utf8(p.topic),
        version == MqttVersion::V5 ==> readable_properties(p.properties),
        version == MqttVersion::V311 ==> p.properties.len() == 0,
    ensures
        parse_publish_content(w, start, p.qos, version) == Ok::<PublishView, ProtocolError>(p),
{
    let c = publish_content(p, version);
    let s1 = string_field(p.topic);
    let s2 = publish_id_field(p);
    let s3 = version_properties(p.properties, version);
    let e1 = s1.len() as int;
    let e2 = e1 + s2.len();
    let e3 = e2 + s3.len();
    assert(c.subrange(0, e1) =~= s1);
    assert(c.subrange(e1, e2) =~= s2);
    assert(c.subrange(e2, e3) =~= s3);
    assert(c.subrange(e3, c.len() as int) =~= p.payload);
    lemma_piece(w, start, c, 0, e1);
    lemma_piece(w, start, c, e1, e2);
    lemma_piece(w, start, c, e2, e3);
    lemma_piece(w, start, c, e3, c.len() as int);
    lemma_parse_string_field(w, start, p.topic);
    let pos1 = start + e1;
    let pos2 = start + e2;
    let pos3 = start + e3;
    assert(parse_packet_id(w, pos1, p.qos) == Ok::<(Option<u16>, int), ProtocolError>(
        (p.packet_id, pos2),
    )) by {
        if p.qos != QoS::AtMostOnce {
            assert(w[pos1] == w.subrange(pos1, pos2)[0]);
            assert(w[pos1 + 1] == w.subrange(pos1, pos2)[1]);
        } else {
            assert(s2 =~= seq![]);
        }
    }
    assert(parse_version_properties(w, pos2, version) == Ok::<
        (Seq<PropertyView>, int),
        ProtocolError,
    >((p.properties, pos3))) by {
        if version == MqttVersion::V5 {
            lemma_parse_properties_field(w, pos2, p.properties);
        } else {
            assert(p.properties =~= seq![]);
        }
    }
    assert(w.len() == start + c.len());
    lemma_publish_content_parsed(w, start, pos1, pos2, pos3, p, version);
}

/// Decoding what a PUBLISH encodes to gives it back, when its identifier is
/// present exactly for a QoS above `AtMostOnce`, its topic is UTF-8, and its
/// properties are in the form the codec reads (none for version 3.1.1).
pub proof fn lemma_publish_round_trip(p: PublishView, version: MqttVersion)
    requires
        !publish_too_large(p, version),
        (p.packet_id is Some) == (p.qos != QoS::AtMostOnce),
        valid_utf8(p.topic),
        version == MqttVersion::V5 ==> readable_properties(p.properties),
        version == MqttVersion::V311 ==> p.properties.len() == 0,
    ensures
        parse_publish(framed(publish_header(p.qos), publish_content(p, version)), version) == Ok::<
            PublishView,
            ProtocolError,
        >(p),
{
    let h = publish_header(p.qos);
    let c = publish_content(p, version);
    let w = framed(h, c);
    lemma_parse_framed(h, c);
    lemma_framed_len(h, c);
    lemma_publish_header(p.qos);
    let start = (1 + vbi_bytes(c.len()).len()) as int;
    lemma_publish_fields(w, start, p, version);
    lemma_publish_parsed(w, start, p, version);
}

// ---------------------------------------------------------------------------
// CONNECT

/// A CONNECT packet: the client's request to open a session.
#[derive(Debug)]
pub struct Connect<'a> {
    pub clean_session: bool,
    pub keep_alive: u16,
    pub client_id: &'a str,
    pub properties: Vec<Property<'a>>,
}

/// What a CONNECT packet holds; the client identifier as its UTF-8 bytes.
pub ghost struct ConnectView {
    pub clean_session: bool,
    pub keep_alive: u16,
    pub client_id: Seq<u8>,
    pub properties: Seq<PropertyView>,
}

impl<'a> View for Connect<'a> {
    type V = ConnectView;

    open spec fn view(&self) -> ConnectView {
        ConnectView {
            clean_session: self.clean_session,
            keep_alive: self.keep_alive,
            client_id: self.client_id.spec_bytes(),
            properties: props_view(self.properties@),
        }
    }
}

impl<'a> Connect<'a> {
    /// A CONNECT without properties.
    pub fn new(client_id: &'a str, keep_alive: u16, clean_session: bool) -> (r: Self)
        ensures
            r.client_id == client_id,
            r.keep_alive == keep_alive,
            r.clean_session == clean_session,
            r.properties@.len() == 0,
    {
        Connect { clean_session, keep_alive, client_id, properties: Vec::new() }
    }
}

/// The fixed header byte of a CONNECT.
pub const CONNECT_HEADER: u8 = 0x10;

/// The protocol name and level that open a CONNECT's content: the string
/// "MQTT", then 4 for version 3.1.1 or 5 for version 5.
pub open spec fn connect_preamble(version: MqttVersion) -> Seq<u8> {
    seq![0u8, 4u8, 77u8, 81u8, 84u8, 84u8, if version == MqttVersion::V5 { 5u8 } else { 4u8 }]
}

/// The connect flags byte: only the clean-session bit is used.
pub open spec fn connect_flags(clean_session: bool) -> u8 {
    if clean_session {
        2
    } else {
        0
    }
}

/// The content of a CONNECT: protocol name and level, flags, keep-alive,
/// properties (version 5) and client identifier.
pub open spec fn connect_content(p: ConnectView, version: MqttVersion) -> Seq<u8> {
    connect_preamble(version) + seq![connect_flags(p.clean_session)] + be16(p.keep_alive as nat)
        + version_properties(p.properties, version) + string_field(p.client_id)
}

/// Whether a CONNECT has a field the wire format cannot hold.
pub open spec fn connect_too_large(p: ConnectView, version: MqttVersion) -> bool {
    ||| p.client_id.len() > MAX_STRING_LEN
    ||| (version == MqttVersion::V5 && props_body(p.properties).len() > VBI_MAX)
    ||| connect_content(p, version).len() > VBI_MAX
}

/// The CONNECT packet in `b`: the protocol name and level are read past,
/// the clean-session bit taken from the flags.
pub open spec fn parse_connect(b: Seq<u8>, version: MqttVersion) -> Result<ConnectView, ProtocolError> {
    match parse_frame(b) {
        Err(e) => Err(e),
        Ok((start, end)) => parse_connect_content(b.subrange(0, end), start, version),
    }
}

/// The fields of a CONNECT in `body` from `start` on.
pub open spec fn parse_connect_content(body: Seq<u8>, start: int, version: MqttVersion) -> Result<
    ConnectView,
    ProtocolError,
> {
    match parse_string(body, start) {
        Err(e) => Err(e),
        Ok((_name, pos1)) => match parse_u8(body, pos1) {
            Err(e) => Err(e),
            Ok((_level, pos2)) => match parse_u8(body, pos2) {
                Err(e) => Err(e),
                Ok((flags, pos3)) => match parse_u16(body, pos3) {
                    Err(e) => Err(e),
                    Ok((keep_alive, pos4)) => match parse_version_properties(body, pos4, version) {
                        Err(e) => Err(e),
                        Ok((properties, pos5)) => match parse_string(body, pos5) {
                            Err(e) => Err(e),
                            Ok((client_id, _pos6)) => Ok(
                                ConnectView {
                                    clean_session: (flags / 2) % 2 == 1,
                                    keep_alive,
                                    client_id,
                                    properties,
                                },
                            ),
                        },
                    },
                },
            },
        },
    }
}

impl<'a> Connect<'a> {
    /// Writes the content from offset 5.
    fn put_content(&self, buf: &mut [u8], version: MqttVersion)
        requires
            !connect_too_large(self@, version),
            5 + connect_content(self@, version).len() <= old(buf)@.len(),
        ensures
            final(buf)@.len() == old(buf)@.len(),
            final(buf)@.subrange(5, 5 + connect_content(self@, version).len() as int)
                == connect_content(self@, version),
    {
        let ghost p = self@;
        let ghost s1 = connect_preamble(version) + seq![connect_flags(p.clean_session)];
        let ghost s2 = be16(p.keep_alive as nat);
        let ghost s3 = version_properties(p.properties, version);
        let ghost s4 = string_field(p.client_id);
        let ghost orig = buf@;
        buf[5] = 0;
        buf[6] = 4;
        buf[7] = 77;
        buf[8] = 81;
        buf[9] = 84;
        buf[10] = 84;
        buf[11] = if version == MqttVersion::V5 {
            5
        } else {
            4
        };
        buf[12] = if self.clean_session {
            2
        } else {
            0
        };
        assert(buf@.subrange(5, 13) =~= s1);
        let mut cur: usize = 13;
        proof {
            lemma_extend(buf@, 5, cur as int, s1, s2);
        }
        crate::util::put_u16(buf, cur, self.keep_alive);
        cur = cur + 2;
        proof {
            lemma_extend(buf@, 5, cur as int, s1 + s2, s3);
        }
        let props_len = match version_properties_len(&self.properties, version) {
            Some(n) => n,
            None => 0,
        };
        put_version_properties(buf, cur, &self.properties, version);
        cur = cur + props_len;
        proof {
            lemma_extend(buf@, 5, cur as int, s1 + s2 + s3, s4);
        }
        crate::util::put_string(buf, cur, self.client_id);
    }
}

impl<'a> EncodePacket for Connect<'a> {
    open spec fn wire(&self, version: MqttVersion) -> Seq<u8> {
        framed(CONNECT_HEADER, connect_content(self@, version))
    }

    open spec fn ill_formed(&self) -> bool {
        false
    }

    open spec fn too_large(&self, version: MqttVersion) -> bool {
        connect_too_large(self@, version)
    }

    open spec fn room(&self, version: MqttVersion) -> nat {
        5 + connect_content(self@, version).len()
    }

    fn encode(&self, buf: &mut [u8], version: MqttVersion) -> (r: Result<usize, CodecError>) {
        let ghost p = self@;
        let clen = self.client_id.as_bytes().len();
        if clen > MAX_STRING_LEN {
            return Err(MqttError::Protocol(ProtocolError::PayloadTooLarge));
        }
        let props_len = match version_properties_len(&self.properties, version) {
            Some(n) => n,
            None => {
                return Err(MqttError::Protocol(ProtocolError::PayloadTooLarge));
            },
        };
        assert(string_field(p.client_id).len() == 2 + clen);
        assert(connect_content(p, version).len() == 10 + props_len + 2 + clen);
        if props_len > VBI_MAX || 12 + clen > VBI_MAX - props_len {
            return Err(MqttError::Protocol(ProtocolError::PayloadTooLarge));
        }
        let content_len = 12 + clen + props_len;
        if buf.len() < 5 || buf.len() - 5 < content_len {
            return Err(MqttError::BufferTooSmall);
        }
        self.put_content(buf, version);
        proof {
            lemma_vbi_bytes_len(content_len as nat);
        }
        let n = finish_frame(buf, CONNECT_HEADER, content_len);
        proof {
            lemma_framed_len(CONNECT_HEADER, connect_content(self@, version));
        }
        Ok(n)
    }
}

impl<'a> DecodePacket<'a> for Connect<'a> {
    open spec fn parse(b: Seq<u8>, version: MqttVersion) -> Result<ConnectView, ProtocolError> {
        parse_connect(b, version)
    }

    fn decode(buf: &'a [u8], version: MqttVersion) -> (r: Result<Self, CodecError>) {
        let (start, end) = match read_frame(buf) {
            Ok(f) => f,
            Err(e) => {
                return Err(e);
            },
        };
        let body = &buf[0..end];
        assert(body@ == buf@.subrange(0, end as int));
        let mut cursor = start;
        match read_utf8_string(&mut cursor, body) {
            Ok(_) => {},
            Err(e) => {
                return Err(e);
            },
        }
        match read_u8(&mut cursor, body) {
            Ok(_) => {},
            Err(e) => {
                return Err(e);
            },
        }
        let flags = match read_u8(&mut cursor, body) {
            Ok(x) => x,
            Err(e) => {
                return Err(e);
            },
        };
        let keep_alive = match read_u16(&mut cursor, body) {
            Ok(x) => x,
            Err(e) => {
                return Err(e);
            },
        };
        let properties = match read_version_properties(&mut cursor, body, version) {
            Ok(ps) => ps,
            Err(e) => {
                return Err(e);
            },
        };
        let client_id = match read_utf8_string(&mut cursor, body) {
            Ok(t) => t,
            Err(e) => {
                return Err(e);
            },
        };
        proof {
            assert((flags & 0x02 != 0) == ((flags / 2) % 2 == 1)) by (bit_vector);
        }
        Ok(Connect { clean_session: (flags & 0x02) != 0, keep_alive, client_id, properties })
    }
}

// ---------------------------------------------------------------------------
// CONNACK

/// A CONNACK packet: the broker's answer to a CONNECT.
#[derive(Debug)]
pub struct ConnAck<'a> {
    pub session_present: bool,
    pub reason_code: u8,
    pub properties: Vec<Property<'a>>,
}

/// What a CONNACK packet holds.
pub ghost struct ConnAckView {
    pub session_present: bool,
    pub reason_code: u8,
    pub properties: Seq<PropertyView>,
}

impl<'a> View for ConnAck<'a> {
    type V = ConnAckView;

    open spec fn view(&self) -> ConnAckView {
        ConnAckView {
            session_present: self.session_present,
            reason_code: self.reason_code,
            properties: props_view(self.properties@),
        }
    }
}

/// The CONNACK packet in `b`: acknowledge flags (bit 0: session present),
/// reason code, then the properties for version 5.
pub open spec fn parse_connack(b: Seq<u8>, version: MqttVersion) -> Result<ConnAckView, ProtocolError> {
    match parse_frame(b) {
        Err(e) => Err(e),
        Ok((start, end)) => {
            let body = b.subrange(0, end);
            match parse_u8(body, start) {
                Err(e) => Err(e),
                Ok((flags, pos1)) => match parse_u8(body, pos1) {
                    Err(e) => Err(e),
                    Ok((reason_code, pos2)) => match parse_version_properties(body, pos2, version) {
                        Err(e) => Err(e),
                        Ok((properties, _pos3)) => Ok(
                            ConnAckView { session_present: flags % 2 == 1, reason_code, properties },
                        ),
                    },
                },
            }
        },
    }
}

impl<'a> DecodePacket<'a> for ConnAck<'a> {
    open spec fn parse(b: Seq<u8>, version: MqttVersion) -> Result<ConnAckView, ProtocolError> {
        parse_connack(b, version)
    }

    fn decode(buf: &'a [u8], version: MqttVersion) -> (r: Result<Self, CodecError>) {
        let (start, end) = match read_frame(buf) {
            Ok(f) => f,
            Err(e) => {
                return Err(e);
            },
        };
        let body = &buf[0..end];
        assert(body@ == buf@.subrange(0, end as int));
        let mut cursor = start;
        let flags = match read_u8(&mut cursor, body) {
            Ok(x) => x,
            Err(e) => {
                return Err(e);
            },
        };
        let reason_code = match read_u8(&mut cursor, body) {
            Ok(x) => x,
            Err(e) => {
                return Err(e);
            },
        };
        let properties = match read_version_properties(&mut cursor, body, version) {
            Ok(ps) => ps,
            Err(e) => {
                return Err(e);
            },
        };
        proof {
            assert((flags & 0x01 != 0) == (flags % 2 == 1)) by (bit_vector);
        }
        Ok(ConnAck { session_present: (flags & 0x01) != 0, reason_code, properties })
    }
}

// ---------------------------------------------------------------------------
// PUBACK

/// A PUBACK packet: the acknowledgement of a QoS 1 PUBLISH.
#[derive(Debug, Clone, Copy, PartialEq, Eq)]
pub struct PubAck {
    pub packet_id: u16,
}

impl View for PubAck {
    type V = u16;

    open spec fn view(&self) -> u16 {
        self.packet_id
    }
}

/// The PUBACK packet in `b`: its packet identifier.
pub open spec fn parse_puback(b: Seq<u8>) -> Result<u16, ProtocolError> {
    match parse_frame(b) {
        Err(e) => Err(e),
        Ok((start, end)) => match parse_u16(b.subrange(0, end), start) {
            Err(e) => Err(e),
            Ok((id, _p)) => Ok(id),
        },
    }
}

impl<'a> DecodePacket<'a> for PubAck {
    open spec fn parse(b: Seq<u8>, version: MqttVersion) -> Result<u16, ProtocolError> {
        parse_puback(b)
    }

    fn decode(buf: &'a [u8], version: MqttVersion) -> (r: Result<Self, CodecError>) {
        let (start, end) = match read_frame(buf) {
            Ok(f) => f,
            Err(e) => {
                return Err(e);
            },
        };
        let body = &buf[0..end];
        let mut cursor = start;
        match read_u16(&mut cursor, body) {
            Ok(packet_id) => Ok(PubAck { packet_id }),
            Err(e) => Err(e),
        }
    }
}

// ---------------------------------------------------------------------------
// PINGREQ, PINGRESP, DISCONNECT

/// A PINGREQ packet: keeps the connection alive.
#[derive(Debug, Clone, Copy, PartialEq, Eq)]
pub struct PingReq;

/// A PINGRESP packet: the broker's answer to a PINGREQ.
#[derive(Debug, Clone, Copy, PartialEq, Eq)]
pub struct PingResp;

/// A DISCONNECT packet: the orderly end of a session.
#[derive(Debug, Clone, Copy, PartialEq, Eq)]
pub struct Disconnect;

impl View for Disconnect {
    type V = ();

    open spec fn view(&self) -> () {
        ()
    }
}

/// Writes a packet of two bytes: a header and a zero remaining length.
fn encode_bare(buf: &mut [u8], header: u8) -> (r: Result<usize, CodecError>)
    ensures
        old(buf)@.len() < 2 ==> r == Err::<usize, CodecError>(MqttError::BufferTooSmall),
        old(buf)@.len() >= 2 ==> r == Ok::<usize, CodecError>(2),
        r is Ok ==> final(buf)@.len() == old(buf)@.len() && final(buf)@.subrange(0, 2) == seq![
            header,
            0u8,
        ],
        r is Err ==> final(buf)@ == old(buf)@,
{
    if buf.len() < 2 {
        return Err(MqttError::BufferTooSmall);
    }
    buf[0] = header;
    buf[1] = 0x00;
    assert(buf@.subrange(0, 2) =~= seq![header, 0u8]);
    Ok(2)
}

impl EncodePacket for PingReq {
    open spec fn wire(&self, version: MqttVersion) -> Seq<u8> {
        seq![0xC0u8, 0u8]
    }

    open spec fn ill_formed(&self) -> bool {
        false
    }

    open spec fn too_large(&self, version: MqttVersion) -> bool {
        false
    }

    open spec fn room(&self, version: MqttVersion) -> nat {
        2
    }

    fn encode(&self, buf: &mut [u8], version: MqttVersion) -> (r: Result<usize, CodecError>) {
        encode_bare(buf, 0xC0)
    }
}

impl EncodePacket for Disconnect {
    open spec fn wire(&self, version: MqttVersion) -> Seq<u8> {
        seq![0xE0u8, 0u8]
    }

    open spec fn ill_formed(&self) -> bool {
        false
    }

    open spec fn too_large(&self, version: MqttVersion) -> bool {
        false
    }

    open spec fn room(&self, version: MqttVersion) -> nat {
        2
    }

    fn encode(&self, buf: &mut [u8], version: MqttVersion) -> (r: Result<usize, CodecError>) {
        encode_bare(buf, 0xE0)
    }
}

impl<'a> DecodePacket<'a> for Disconnect {
    /// A DISCONNECT carries nothing this client reads.
    open spec fn parse(b: Seq<u8>, version: MqttVersion) -> Result<(), ProtocolError> {
        Ok(())
    }

    fn decode(buf: &'a [u8], version: MqttVersion) -> (r: Result<Self, CodecError>) {
        Ok(Disconnect)
    }
}


// ---------------------------------------------------------------------------
// SUBSCRIBE

/// A SUBSCRIBE packet: topic filters, each with the QoS asked for.
#[derive(Debug)]
pub struct Subscribe<'a> {
    pub packet_id: u16,
    pub topics: Vec<(&'a str, QoS)>,
    pub properties: Vec<Property<'a>>,
}

/// What a SUBSCRIBE packet holds; each topic filter as its UTF-8 bytes.
pub ghost struct SubscribeView {
    pub packet_id: u16,
    pub topics: Seq<(Seq<u8>, QoS)>,
    pub properties: Seq<PropertyView>,
}

/// The views of topic filters.
pub open spec fn topics_view<'a>(ts: Seq<(&'a str, QoS)>) -> Seq<(Seq<u8>, QoS)> {
    ts.map_values(|t: (&'a str, QoS)| (t.0.spec_bytes(), t.1))
}

impl<'a> View for Subscribe<'a> {
    type V = SubscribeView;

    open spec fn view(&self) -> SubscribeView {
        SubscribeView {
            packet_id: self.packet_id,
            topics: topics_view(self.topics@),
            properties: props_view(self.properties@),
        }
    }
}

impl<'a> Subscribe<'a> {
    /// A SUBSCRIBE to one topic filter, without properties.
    pub fn new(packet_id: u16, topic: &'a str, qos: QoS) -> (r: Self)
        ensures
            r.packet_id == packet_id,
            r.topics@ == seq![(topic, qos)],
            r.properties@.len() == 0,
    {
        let mut topics: Vec<(&'a str, QoS)> = Vec::new();
        topics.push((topic, qos));
        Subscribe { packet_id, topics, properties: Vec::new() }
    }
}

/// The fixed header byte of a SUBSCRIBE: type 8 with the reserved bits 0010.
pub const SUBSCRIBE_HEADER: u8 = 0x82;

/// The topic filters one after the other, each a string field then its QoS.
pub open spec fn topics_field(ts: Seq<(Seq<u8>, QoS)>) -> Seq<u8>
    decreases ts.len(),
{
    if ts.len() == 0 {
        seq![]
    } else {
        topics_field(ts.drop_last()) + string_field(ts.last().0) + seq![qos_level(ts.last().1)]
    }
}

/// The content of a SUBSCRIBE: identifier, properties (version 5) and the
/// topic filters.
pub open spec fn subscribe_content(p: SubscribeView, version: MqttVersion) -> Seq<u8> {
    be16(p.packet_id as nat) + version_properties(p.properties, version) + topics_field(p.topics)
}

/// Whether a SUBSCRIBE has a field the wire format cannot hold.
pub open spec fn subscribe_too_large(p: SubscribeView, version: MqttVersion) -> bool {
    ||| exists|i: int| 0 <= i < p.topics.len() && (#[trigger] p.topics[i]).0.len() > MAX_STRING_LEN
    ||| (version == MqttVersion::V5 && props_body(p.properties).len() > VBI_MAX)
    ||| subscribe_content(p, version).len() > VBI_MAX
}

proof fn lemma_topics_field_push(ts: Seq<(Seq<u8>, QoS)>, i: int)
    requires
        0 <= i < ts.len(),
    ensures
        topics_field(ts.take(i + 1)) == topics_field(ts.take(i)) + string_field(ts[i].0) + seq![
            qos_level(ts[i].1),
        ],
{
    assert(ts.take(i + 1).drop_last() =~= ts.take(i));
}

proof fn lemma_topics_field_prefix_len(ts: Seq<(Seq<u8>, QoS)>, i: int)
    requires
        0 <= i <= ts.len(),
    ensures
        topics_field(ts.take(i)).len() <= topics_field(ts).len(),
    decreases ts.len() - i,
{
    if i < ts.len() {
        lemma_topics_field_push(ts, i);
        lemma_topics_field_prefix_len(ts, i + 1);
    } else {
        assert(ts.take(i) =~= ts);
    }
}

impl<'a> Subscribe<'a> {
    /// The length of the topic filters on the wire, if every filter fits a
    /// string field and the whole is at most `VBI_MAX` bytes.
    fn topics_len(&self) -> (r: Option<usize>)
        ensures
            r is Some <==> (forall|i: int|
                0 <= i < self@.topics.len() ==> (#[trigger] self@.topics[i]).0.len()
                    <= MAX_STRING_LEN) && topics_field(self@.topics).len() <= VBI_MAX,
            r is Some ==> r->Some_0 == topics_field(self@.topics).len(),
    {
        let ghost ts = self@.topics;
        let mut total: usize = 0;
        let mut i: usize = 0;
        while i < self.topics.len()
            invariant
                ts == self@.topics,
                ts.len() == self.topics@.len(),
                i <= ts.len(),
                total == topics_field(ts.take(i as int)).len(),
                total <= VBI_MAX,
                forall|j: int| 0 <= j < i ==> (#[trigger] ts[j]).0.len() <= MAX_STRING_LEN,
            decreases ts.len() - i,
        {
            proof {
                lemma_topics_field_push(ts, i as int);
                lemma_topics_field_prefix_len(ts, i as int + 1);
            }
            let tlen = self.topics[i].0.as_bytes().len();
            assert(ts[i as int].0.len() == tlen);
            if tlen > MAX_STRING_LEN || 3 + tlen > VBI_MAX - total {
                return None;
            }
            total = total + 3 + tlen;
            i = i + 1;
        }
        assert(ts.take(i as int) =~= ts);
        Some(total)
    }

    /// Writes the content from offset 5.
    fn put_content(&self, buf: &mut [u8], version: MqttVersion)
        requires
            !subscribe_too_large(self@, version),
            5 + subscribe_content(self@, version).len() <= old(buf)@.len(),
        ensures
            final(buf)@.len() == old(buf)@.len(),
            final(buf)@.subrange(5, 5 + subscribe_content(self@, version).len() as int)
                == subscribe_content(self@, version),
    {
        let ghost p = self@;
        let ghost ts = p.topics;
        let ghost s1 = be16(p.packet_id as nat);
        let ghost s2 = version_properties(p.properties, version);
        assert(buf@.subrange(5, 5) =~= seq![]);
        proof {
            lemma_extend(buf@, 5, 5, seq![], s1);
        }
        crate::util::put_u16(buf, 5, self.packet_id);
        assert(seq![] + s1 =~= s1);
        let mut cur: usize = 7;
        proof {
            lemma_extend(buf@, 5, cur as int, s1, s2);
        }
        let props_len = match version_properties_len(&self.properties, version) {
            Some(n) => n,
            None => 0,
        };
        put_version_properties(buf, cur, &self.properties, version);
        cur = cur + props_len;
        let ghost blen = buf@.len();
        let mut i: usize = 0;
        assert(ts.take(0) =~= seq![]);
        assert(s1 + s2 + topics_field(ts.take(0)) =~= s1 + s2);
        while i < self.topics.len()
            invariant
                p == self@,
                ts == p.topics,
                ts.len() == self.topics@.len(),
                !subscribe_too_large(p, version),
                i <= ts.len(),
                buf@.len() == blen,
                5 + subscribe_content(p, version).len() <= blen,
                cur == 5 + (s1 + s2 + topics_field(ts.take(i as int))).len(),
                buf@.subrange(5, cur as int) == s1 + s2 + topics_field(ts.take(i as int)),
                s1 == be16(p.packet_id as nat),
                s2 == version_properties(p.properties, version),
            decreases ts.len() - i,
        {
            proof {
                lemma_topics_field_push(ts, i as int);
                lemma_topics_field_prefix_len(ts, i as int + 1);
            }
            let topic = self.topics[i].0;
            let qos = self.topics[i].1;
            let ghost done = s1 + s2 + topics_field(ts.take(i as int));
            let ghost piece = string_field(ts[i as int].0);
            proof {
                lemma_extend(buf@, 5, cur as int, done, piece);
            }
            crate::util::put_string(buf, cur, topic);
            cur = cur + 2 + topic.as_bytes().len();
            proof {
                lemma_extend(buf@, 5, cur as int, done + piece, seq![qos_level(qos)]);
            }
            buf[cur] = qos.level();
            assert(buf@ =~= splice(buf@, cur as int, seq![qos_level(qos)]));
            cur = cur + 1;
            i = i + 1;
            assert(done + piece + seq![qos_level(qos)] =~= s1 + s2 + topics_field(ts.take(i as int)));
        }
        assert(ts.take(i as int) =~= ts);
    }
}

impl<'a> EncodePacket for Subscribe<'a> {
    open spec fn wire(&self, version: MqttVersion) -> Seq<u8> {
        framed(SUBSCRIBE_HEADER, subscribe_content(self@, version))
    }

    open spec fn ill_formed(&self) -> bool {
        false
    }

    open spec fn too_large(&self, version: MqttVersion) -> bool {
        subscribe_too_large(self@, version)
    }

    open spec fn room(&self, version: MqttVersion) -> nat {
        5 + subscribe_content(self@, version).len()
    }

    fn encode(&self, buf: &mut [u8], version: MqttVersion) -> (r: Result<usize, CodecError>) {
        let ghost p = self@;
        let topics_len = match self.topics_len() {
            Some(n) => n,
            None => {
                return Err(MqttError::Protocol(ProtocolError::PayloadTooLarge));
            },
        };
        let props_len = match version_properties_len(&self.properties, version) {
            Some(n) => n,
            None => {
                return Err(MqttError::Protocol(ProtocolError::PayloadTooLarge));
            },
        };
        assert(subscribe_content(p, version).len() == 2 + props_len + topics_len);
        if props_len > VBI_MAX || 2 + props_len > VBI_MAX - topics_len {
            return Err(MqttError::Protocol(ProtocolError::PayloadTooLarge));
        }
        let content_len = 2 + props_len + topics_len;
        if buf.len() < 5 || buf.len() - 5 < content_len {
            return Err(MqttError::BufferTooSmall);
        }
        self.put_content(buf, version);
        proof {
            lemma_vbi_bytes_len(content_len as nat);
        }
        let n = finish_frame(buf, SUBSCRIBE_HEADER, content_len);
        proof {
            lemma_framed_len(SUBSCRIBE_HEADER, subscribe_content(self@, version));
        }
        Ok(n)
    }
}

impl<'a> DecodePacket<'a> for Subscribe<'a> {
    /// A client never receives a SUBSCRIBE: its decoder reads nothing and
    /// gives an empty one with identifier 0.
    open spec fn parse(b: Seq<u8>, version: MqttVersion) -> Result<SubscribeView, ProtocolError> {
        Ok(SubscribeView { packet_id: 0, topics: seq![], properties: seq![] })
    }

    fn decode(buf: &'a [u8], version: MqttVersion) -> (r: Result<Self, CodecError>) {
        let r = Subscribe { packet_id: 0, topics: Vec::new(), properties: Vec::new() };
        assert(r@.topics =~= seq![]);
        assert(r@.properties =~= seq![]);
        Ok(r)
    }
}

// ---------------------------------------------------------------------------
// SUBACK

/// A SUBACK packet: the broker's answer to a SUBSCRIBE, one reason code per
/// topic filter.
#[derive(Debug)]
pub struct SubAck<'a> {
    pub packet_id: u16,
    pub reason_codes: Vec<u8>,
    pub properties: Vec<Property<'a>>,
}

/// What a SUBACK packet holds.
pub ghost struct SubAckView {
    pub packet_id: u16,
    pub reason_codes: Seq<u8>,
    pub properties: Seq<PropertyView>,
}

impl<'a> View for SubAck<'a> {
    type V = SubAckView;

    open spec fn view(&self) -> SubAckView {
        SubAckView {
            packet_id: self.packet_id,
            reason_codes: self.reason_codes@,
            properties: props_view(self.properties@),
        }
    }
}

/// The most reason codes a decoded SUBACK keeps; later ones are dropped.
pub const MAX_REASON_CODES: usize = 8;

/// The SUBACK packet in `b`: identifier, properties (version 5), then the
/// reason codes up to the end of the content, at most `MAX_REASON_CODES`
/// of them.
pub open spec fn parse_suback(b: Seq<u8>, version: MqttVersion) -> Result<SubAckView, ProtocolError> {
    match parse_frame(b) {
        Err(e) => Err(e),
        Ok((start, end)) => {
            let body = b.subrange(0, end);
            match parse_u16(body, start) {
                Err(e) => Err(e),
                Ok((packet_id, pos1)) => match parse_version_properties(body, pos1, version) {
                    Err(e) => Err(e),
                    Ok((properties, pos2)) => {
                        let codes = body.subrange(pos2, end);
                        Ok(
                            SubAckView {
                                packet_id,
                                reason_codes: if codes.len() > MAX_REASON_CODES {
                                    codes.take(MAX_REASON_CODES as int)
                                } else {
                                    codes
                                },
                                properties,
                            },
                        )
                    },
                },
            }
        },
    }
}

impl<'a> DecodePacket<'a> for SubAck<'a> {
    open spec fn parse(b: Seq<u8>, version: MqttVersion) -> Result<SubAckView, ProtocolError> {
        parse_suback(b, version)
    }

    fn decode(buf: &'a [u8], version: MqttVersion) -> (r: Result<Self, CodecError>) {
        let (start, end) = match read_frame(buf) {
            Ok(f) => f,
            Err(e) => {
                return Err(e);
            },
        };
        let body = &buf[0..end];
        assert(body@ == buf@.subrange(0, end as int));
        let mut cursor = start;
        let packet_id = match read_u16(&mut cursor, body) {
            Ok(x) => x,
            Err(e) => {
                return Err(e);
            },
        };
        let properties = match read_version_properties(&mut cursor, body, version) {
            Ok(ps) => ps,
            Err(e) => {
                return Err(e);
            },
        };
        let ghost codes = body@.subrange(cursor as int, end as int);
        let mut reason_codes: Vec<u8> = Vec::new();
        let first = cursor;
        while cursor < end && reason_codes.len() < MAX_REASON_CODES
            invariant
                first <= cursor <= end,
                end == body@.len(),
                codes == body@.subrange(first as int, end as int),
                reason_codes@ == codes.take(cursor - first),
                reason_codes@.len() == cursor - first,
                reason_codes@.len() <= MAX_REASON_CODES,
            decreases end - cursor,
        {
            reason_codes.push(body[cursor]);
            cursor = cursor + 1;
            assert(reason_codes@ =~= codes.take(cursor - first));
        }
        assert(codes.take(codes.len() as int) =~= codes);
        Ok(SubAck { packet_id, reason_codes, properties })
    }
}

// ---------------------------------------------------------------------------
// Any packet

/// Any control packet.
#[derive(Debug)]
pub enum MqttPacket<'a> {
    Connect(Connect<'a>),
    ConnAck(ConnAck<'a>),
    Publish(Publish<'a>),
    PubAck(PubAck),
    Subscribe(Subscribe<'a>),
    SubAck(SubAck<'a>),
    PingReq,
    PingResp,
    Disconnect(Disconnect),
}

/// What a control packet holds.
pub ghost enum PacketView {
    Connect(ConnectView),
    ConnAck(ConnAckView),
    Publish(PublishView),
    PubAck(u16),
    Subscribe(SubscribeView),
    SubAck(SubAckView),
    PingReq,
    PingResp,
    Disconnect,
}

impl<'a> View for MqttPacket<'a> {
    type V = PacketView;

    open spec fn view(&self) -> PacketView {
        match self {
            MqttPacket::Connect(p) => PacketView::Connect(p@),
            MqttPacket::ConnAck(p) => PacketView::ConnAck(p@),
            MqttPacket::Publish(p) => PacketView::Publish(p@),
            MqttPacket::PubAck(p) => PacketView::PubAck(p@),
            MqttPacket::Subscribe(p) => PacketView::Subscribe(p@),
            MqttPacket::SubAck(p) => PacketView::SubAck(p@),
            MqttPacket::PingReq => PacketView::PingReq,
            MqttPacket::PingResp => PacketView::PingResp,
            MqttPacket::Disconnect(_) => PacketView::Disconnect,
        }
    }
}

/// A packet of one kind, read as any packet.
pub open spec fn as_packet<V>(r: Result<V, ProtocolError>, f: spec_fn(V) -> PacketView) -> Result<
    Option<PacketView>,
    ProtocolError,
> {
    match r {
        Ok(v) => Ok(Some(f(v))),
        Err(e) => Err(e),
    }
}

/// The packet in `b`, by the type in the high nibble of its first byte:
/// nothing in an empty buffer, an invalid packet type for a nibble that
/// names no packet.
pub open spec fn parse_packet(b: Seq<u8>, version: MqttVersion) -> Result<
    Option<PacketView>,
    ProtocolError,
> {
    if b.len() == 0 {
        Ok(None)
    } else {
        let t = b[0] / 16;
        if t == 1 {
            as_packet(parse_connect(b, version), |v| PacketView::Connect(v))
        } else if t == 2 {
            as_packet(parse_connack(b, version), |v| PacketView::ConnAck(v))
        } else if t == 3 {
            as_packet(parse_publish(b, version), |v| PacketView::Publish(v))
        } else if t == 4 {
            as_packet(parse_puback(b), |v| PacketView::PubAck(v))
        } else if t == 8 {
            Ok(Some(PacketView::Subscribe(SubscribeView { packet_id: 0, topics: seq![], properties: seq![] })))
        } else if t == 9 {
            as_packet(parse_suback(b, version), |v| PacketView::SubAck(v))
        } else if t == 12 {
            Ok(Some(PacketView::PingReq))
        } else if t == 13 {
            Ok(Some(PacketView::PingResp))
        } else if t == 14 {
            Ok(Some(PacketView::Disconnect))
        } else {
            Err(ProtocolError::InvalidPacketType(t as u8))
        }
    }
}

/// The view of a decoded packet, if any.
pub open spec fn packet_option_view<'a>(p: Option<MqttPacket<'a>>) -> Option<PacketView> {
    match p {
        Some(x) => Some(x@),
        None => None,
    }
}

/// Moves a codec error over to the error type of transport `T`.
fn lift<T>(e: CodecError) -> (r: MqttError<T>)
    requires
        e is Protocol,
    ensures
        r == MqttError::<T>::Protocol(e->Protocol_0),
{
    MqttError::cast_transport_error(e)
}

/// Reads the packet at the start of `buf`, of whatever type its fixed
/// header names: `None` for an empty buffer.
pub fn decode<'a, T: TransportError>(buf: &'a [u8], version: MqttVersion) -> (r: Result<
    Option<MqttPacket<'a>>,
    MqttError<T>,
>)
    ensures
        match parse_packet(buf@, version) {
            Ok(p) => r is Ok && packet_option_view(r->Ok_0) == p,
            Err(e) => r == Err::<Option<MqttPacket<'a>>, MqttError<T>>(MqttError::Protocol(e)),
        },
{
    if buf.len() == 0 {
        return Ok(None);
    }
    let packet_type = buf[0] >> 4;
    proof {
        let h = buf[0];
        assert(h >> 4 == h / 16) by (bit_vector);
    }
    let packet = match packet_type {
        1 => match Connect::decode(buf, version) {
            Ok(p) => MqttPacket::Connect(p),
            Err(e) => {
                return Err(lift(e));
            },
        },
        2 => match ConnAck::decode(buf, version) {
            Ok(p) => MqttPacket::ConnAck(p),
            Err(e) => {
                return Err(lift(e));
            },
        },
        3 => match Publish::decode(buf, version) {
            Ok(p) => MqttPacket::Publish(p),
            Err(e) => {
                return Err(lift(e));
            },
        },
        4 => match PubAck::decode(buf, version) {
            Ok(p) => MqttPacket::PubAck(p),
            Err(e) => {
                return Err(lift(e));
            },
        },
        8 => match Subscribe::decode(buf, version) {
            Ok(p) => MqttPacket::Subscribe(p),
            Err(e) => {
                return Err(lift(e));
            },
        },
        9 => match SubAck::decode(buf, version) {
            Ok(p) => MqttPacket::SubAck(p),
            Err(e) => {
                return Err(lift(e));
            },
        },
        12 => MqttPacket::PingReq,
        13 => MqttPacket::PingResp,
        14 => MqttPacket::Disconnect(Disconnect),
        _ => {
            return Err(MqttError::Protocol(ProtocolError::InvalidPacketType(packet_type)));
        },
    };
    Ok(Some(packet))
}


// ---------------------------------------------------------------------------
// Round trips

proof fn lemma_protocol_name_utf8()
    ensures
        valid_utf8(seq![77u8, 81u8, 84u8, 84u8]),
{
    reveal_with_fuel(valid_utf8, 5);
    let b = seq![77u8, 81u8, 84u8, 84u8];
    assert(vstd::utf8::pop_first_scalar(b) =~= b.drop_first());
    assert(vstd::utf8::pop_first_scalar(b.drop_first()) =~= b.drop_first().drop_first());
    assert(vstd::utf8::pop_first_scalar(b.drop_first().drop_first()) =~= seq![84u8]);
    assert(vstd::utf8::pop_first_scalar(seq![84u8]) =~= Seq::<u8>::empty());
}

proof fn lemma_connect_content_parsed(
    w: Seq<u8>,
    start: int,
    pos1: int,
    flags: u8,
    pos4: int,
    pos5: int,
    p: ConnectView,
    version: MqttVersion,
)
    requires
        parse_string(w, start) matches Ok((_, q)) && q == pos1,
        parse_u8(w, pos1) matches Ok((_, q)) && q == pos1 + 1,
        parse_u8(w, pos1 + 1) == Ok::<(u8, int), ProtocolError>((flags, pos1 + 2)),
        ((flags / 2) % 2 == 1) == p.clean_session,
        parse_u16(w, pos1 + 2) == Ok::<(u16, int), ProtocolError>((p.keep_alive, pos4)),
        parse_version_properties(w, pos4, version) == Ok::<(Seq<PropertyView>, int), ProtocolError>(
            (p.properties, pos5),
        ),
        parse_string(w, pos5) matches Ok((id, _)) && id == p.client_id,
    ensures
        parse_connect_content(w, start, version) == Ok::<ConnectView, ProtocolError>(p),
{
}

/// Reading the fields of a CONNECT back from its content gives them back.
proof fn lemma_connect_fields(w: Seq<u8>, start: int, p: ConnectView, version: MqttVersion)
    requires
        0 <= start <= w.len(),
        w.subrange(start, w.len() as int) == connect_content(p, version),
        p.client_id.len() <= MAX_STRING_LEN,
        valid_utf8(p.client_id),
        version == MqttVersion::V5 ==> readable_properties(p.properties),
        version == MqttVersion::V311 ==> p.properties.len() == 0,
    ensures
        parse_connect_content(w, start, version) == Ok::<ConnectView, ProtocolError>(p),
{
    let c = connect_content(p, version);
    let name = seq![77u8, 81u8, 84u8, 84u8];
    let s3 = version_properties(p.properties, version);
    let s4 = string_field(p.client_id);
    let e3 = (10 + s3.len()) as int;
    let pos1 = start + 6;
    let flags = connect_flags(p.clean_session);
    assert(parse_string(w, start) == Ok::<(Seq<u8>, int), ProtocolError>((name, pos1))) by {
        assert(c.subrange(0, 6) =~= string_field(name));
        lemma_piece(w, start, c, 0, 6);
        lemma_protocol_name_utf8();
        lemma_parse_string_field(w, start, name);
    }
    assert(parse_u8(w, pos1) == Ok::<(u8, int), ProtocolError>((c[6], pos1 + 1))
        && parse_u8(w, pos1 + 1) == Ok::<(u8, int), ProtocolError>((flags, pos1 + 2))
        && parse_u16(w, pos1 + 2) == Ok::<(u16, int), ProtocolError>((p.keep_alive, start + 10)))
        by {
        lemma_piece(w, start, c, 6, 10);
        assert(w[pos1] == w.subrange(start + 6, start + 10)[0]);
        assert(w[pos1 + 1] == w.subrange(start + 6, start + 10)[1]);
        assert(w[pos1 + 2] == w.subrange(start + 6, start + 10)[2]);
        assert(w[pos1 + 3] == w.subrange(start + 6, start + 10)[3]);
    }
    assert(parse_version_properties(w, start + 10, version) == Ok::<
        (Seq<PropertyView>, int),
        ProtocolError,
    >((p.properties, start + e3))) by {
        assert(c.subrange(10, e3) =~= s3);
        lemma_piece(w, start, c, 10, e3);
        if version == MqttVersion::V5 {
            lemma_parse_properties_field(w, start + 10, p.properties);
        } else {
            assert(p.properties =~= seq![]);
        }
    }
    assert(parse_string(w, start + e3) == Ok::<(Seq<u8>, int), ProtocolError>(
        (p.client_id, start + c.len()),
    )) by {
        assert(c.subrange(e3, c.len() as int) =~= s4);
        lemma_piece(w, start, c, e3, c.len() as int);
        lemma_parse_string_field(w, start + e3, p.client_id);
    }
    assert(((flags / 2) % 2 == 1) == p.clean_session);
    lemma_connect_content_parsed(w, start, pos1, flags, start + 10, start + e3, p, version);
}

proof fn lemma_connect_parsed(b: Seq<u8>, start: int, p: ConnectView, version: MqttVersion)
    requires
        parse_frame(b) == Ok::<(int, int), ProtocolError>((start, b.len() as int)),
        b.subrange(0, b.len() as int) == b,
        parse_connect_content(b, start, version) == Ok::<ConnectView, ProtocolError>(p),
        b.len() > 0,
        b[0] == CONNECT_HEADER,
    ensures
        parse_connect(b, version) == Ok::<ConnectView, ProtocolError>(p),
        parse_packet(b, version) == Ok::<Option<PacketView>, ProtocolError>(
            Some(PacketView::Connect(p)),
        ),
{
}

/// Decoding what a CONNECT encodes to gives the same CONNECT back, when its
/// client identifier is UTF-8 and its properties are in the form the codec
/// reads (none for version 3.1.1).
pub proof fn lemma_connect_round_trip<'a>(p: Connect<'a>, version: MqttVersion)
    requires
        !p.too_large(version),
        valid_utf8(p@.client_id),
        version == MqttVersion::V5 ==> readable_properties(p@.properties),
        version == MqttVersion::V311 ==> p@.properties.len() == 0,
    ensures
        parse_packet(p.wire(version), version) == Ok::<Option<PacketView>, ProtocolError>(
            Some(PacketView::Connect(p@)),
        ),
{
    let c = connect_content(p@, version);
    let w = framed(CONNECT_HEADER, c);
    lemma_parse_framed(CONNECT_HEADER, c);
    lemma_framed_len(CONNECT_HEADER, c);
    let start = (1 + vbi_bytes(c.len()).len()) as int;
    lemma_connect_fields(w, start, p@, version);
    lemma_connect_parsed(w, start, p@, version);
}

proof fn lemma_publish_packet(b: Seq<u8>, p: PublishView, version: MqttVersion)
    requires
        b.len() > 0,
        b[0] / 16 == 3,
        parse_publish(b, version) == Ok::<PublishView, ProtocolError>(p),
    ensures
        parse_packet(b, version) == Ok::<Option<PacketView>, ProtocolError>(
            Some(PacketView::Publish(p)),
        ),
{
}

/// Decoding what a PUBLISH encodes to gives the same PUBLISH back, when its
/// identifier is present exactly for a QoS above `AtMostOnce`, its topic is
/// UTF-8, and its properties are in the form the codec reads (none for
/// version 3.1.1).
pub proof fn lemma_publish_packet_round_trip<'a>(p: Publish<'a>, version: MqttVersion)
    requires
        !p.too_large(version),
        (p.packet_id is Some) == (p.qos != QoS::AtMostOnce),
        valid_utf8(p@.topic),
        version == MqttVersion::V5 ==> readable_properties(p@.properties),
        version == MqttVersion::V311 ==> p@.properties.len() == 0,
    ensures
        parse_packet(p.wire(version), version) == Ok::<Option<PacketView>, ProtocolError>(
            Some(PacketView::Publish(p@)),
        ),
{
    let h = publish_header(p.qos);
    let c = publish_content(p@, version);
    lemma_publish_round_trip(p@, version);
    lemma_parse_framed(h, c);
    lemma_framed_len(h, c);
    lemma_publish_header(p.qos);
    lemma_publish_packet(framed(h, c), p@, version);
}

/// A decoded PUBLISH has a packet identifier exactly when its QoS is above
/// `AtMostOnce`, read from the two bytes after the topic; QoS bits of 3 make
/// the packet malformed.
pub proof fn lemma_publish_qos_identifier(b: Seq<u8>, version: MqttVersion)
    ensures
        parse_publish(b, version) matches Ok(p) ==> ((p.packet_id is None) <==> (p.qos
            == QoS::AtMostOnce)),
        parse_publish(b, version) matches Ok(p) ==> (p.qos != QoS::AtMostOnce ==> {
            let (start, end) = parse_frame(b)->Ok_0;
            let body = b.subrange(0, end);
            let pos1 = parse_string(body, start)->Ok_0.1;
            p.packet_id == Some(be16_at(body, pos1) as u16)
        }),
        b.len() > 0 && (b[0] / 2) % 4 == 3 ==> parse_publish(b, version) == Err::<
            PublishView,
            ProtocolError,
        >(ProtocolError::MalformedPacket),
{
}

/// What a SUBSCRIBE encodes to decodes as a SUBSCRIBE; the decoder keeps
/// none of its fields.
pub proof fn lemma_subscribe_round_trip<'a>(p: Subscribe<'a>, version: MqttVersion)
    requires
        !p.too_large(version),
    ensures
        parse_packet(p.wire(version), version) == Ok::<Option<PacketView>, ProtocolError>(
            Some(
                PacketView::Subscribe(
                    SubscribeView { packet_id: 0, topics: seq![], properties: seq![] },
                ),
            ),
        ),
{
    let c = subscribe_content(p@, version);
    lemma_parse_framed(SUBSCRIBE_HEADER, c);
    lemma_framed_len(SUBSCRIBE_HEADER, c);
}

/// What a PINGREQ encodes to decodes as a PINGREQ.
pub proof fn lemma_pingreq_round_trip(p: PingReq, version: MqttVersion)
    ensures
        parse_packet(p.wire(version), version) == Ok::<Option<PacketView>, ProtocolError>(
            Some(PacketView::PingReq),
        ),
{
}

/// What a DISCONNECT encodes to decodes as a DISCONNECT.
pub proof fn lemma_disconnect_round_trip(p: Disconnect, version: MqttVersion)
    ensures
        parse_packet(p.wire(version), version) == Ok::<Option<PacketView>, ProtocolError>(
            Some(PacketView::Disconnect),
        ),
{
}

} // verus!
