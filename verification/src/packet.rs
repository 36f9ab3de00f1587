//! The packet model and the Source-style wire codec.
//!
//! A wire packet is `length (i32 le) | id (i32 le) | type (i32 le) | body
//! (UTF-8 bytes) | 0x00 | 0x00`, where `length` counts everything after
//! itself: `10 + body byte length`. This shape is shared by the
//! Source-engine, Minecraft and Factorio variants; only the type-tag
//! vocabulary and the surrounding state machine differ.

use vstd::prelude::*;
use vstd::utf8::{decode_utf8, encode_utf8, valid_utf8};
use crate::error::{Error, TransportError};
use crate::transport::Transport;
use crate::wire::{append_bytes, append_i32_le, bytes_to_string, i32_of_le_vec, lemma_i32_le_round_trip, spec_i32_le, spec_i32_of_le};

verus! {

/// Fail-fast bound on the body size a decoder is willing to allocate for:
/// a declared length beyond this is treated as a framing violation rather
/// than trusted blindly when sizing buffers.
pub const MAX_WIRE_BODY: usize = 1048576;

/// The role of a packet, as carried by the wire type tag.
///
/// The tag value 2 is used both for a command request and for an
/// authentication response; which one it means depends on the direction the
/// packet travels, so the decoder is told whether it is reading a response.
#[derive(Debug, Clone, Copy, PartialEq, Eq, Structural)]
pub enum PacketType {
    Auth,
    AuthResponse,
    ExecCommand,
    ResponseValue,
    Unknown(i32),
}

impl PacketType {
    /// The wire tag this type is written as.
    pub open spec fn spec_to_i32(self) -> i32 {
        match self {
            PacketType::Auth => 3,
            PacketType::AuthResponse => 2,
            PacketType::ExecCommand => 2,
            PacketType::ResponseValue => 0,
            PacketType::Unknown(n) => n,
        }
    }

    /// The type a wire tag is read as, given the packet's direction.
    pub open spec fn spec_from_i32(n: i32, is_response: bool) -> PacketType {
        if n == 3 {
            PacketType::Auth
        } else if n == 2 && is_response {
            PacketType::AuthResponse
        } else if n == 2 {
            PacketType::ExecCommand
        } else if n == 0 {
            PacketType::ResponseValue
        } else {
            PacketType::Unknown(n)
        }
    }

    #[verifier::when_used_as_spec(spec_to_i32)]
    pub fn to_i32(self) -> (r: i32)
        ensures
            r == self.spec_to_i32(),
    {
        match self {
            PacketType::Auth => 3,
            PacketType::AuthResponse => 2,
            PacketType::ExecCommand => 2,
            PacketType::ResponseValue => 0,
            PacketType::Unknown(n) => n,
        }
    }

    pub fn from_i32(n: i32, is_response: bool) -> (r: PacketType)
        ensures
            r == PacketType::spec_from_i32(n, is_response),
    {
        match n {
            3 => PacketType::Auth,
            2 if is_response => PacketType::AuthResponse,
            2 => PacketType::ExecCommand,
            0 => PacketType::ResponseValue,
            n => PacketType::Unknown(n),
        }
    }
}

/// One framed protocol message: correlation id, declared length, type tag
/// and body text. Constructed right before a send or right after a
/// receive, and never mutated afterwards.
#[derive(Debug, PartialEq)]
pub struct Packet {
    length: i32,
    id: i32,
    ptype: PacketType,
    body: String,
}

/// The encoding of one packet: every multi-byte integer little-endian, the
/// body as UTF-8, two terminating null bytes, and the length field counting
/// everything after itself.
pub open spec fn spec_packet_bytes(id: i32, tag: i32, body: Seq<u8>) -> Seq<u8> {
    spec_i32_le((10 + body.len()) as i32) + spec_i32_le(id) + spec_i32_le(tag) + body + seq![
        0u8,
        0u8,
    ]
}

/// The declared length at the front of a wire stream.
pub open spec fn spec_wire_len(s: Seq<u8>) -> int
    recommends
        s.len() >= 4,
{
    spec_i32_of_le(s.subrange(0, 4)) as int
}

/// The id field of the packet at the front of a wire stream.
pub open spec fn spec_wire_id(s: Seq<u8>) -> i32
    recommends
        s.len() >= 8,
{
    spec_i32_of_le(s.subrange(4, 8))
}

/// The type tag of the packet at the front of a wire stream.
pub open spec fn spec_wire_tag(s: Seq<u8>) -> i32
    recommends
        s.len() >= 12,
{
    spec_i32_of_le(s.subrange(8, 12))
}

/// The body bytes of the packet at the front of a wire stream.
pub open spec fn spec_wire_body(s: Seq<u8>) -> Seq<u8>
    recommends
        s.len() >= 4 + spec_wire_len(s),
{
    s.subrange(12, spec_wire_len(s) + 2)
}

/// The total number of bytes the packet at the front of a wire stream
/// occupies: the length field itself plus what it declares.
pub open spec fn spec_wire_size(s: Seq<u8>) -> int {
    4 + spec_wire_len(s)
}

/// True when a complete, well-formed packet sits at the front of `s`.
pub open spec fn spec_wire_ok(s: Seq<u8>) -> bool {
    &&& s.len() >= 4
    &&& 10 <= spec_wire_len(s)
    &&& spec_wire_len(s) - 10 <= MAX_WIRE_BODY as int
    &&& s.len() >= 4 + spec_wire_len(s)
    &&& valid_utf8(spec_wire_body(s))
}

/// True when `p` is the packet decoded from the front of `s`.
pub open spec fn decodes_to(s: Seq<u8>, p: Packet) -> bool {
    &&& spec_wire_ok(s)
    &&& p.spec_len() as int == spec_wire_len(s)
    &&& p.spec_id() == spec_wire_id(s)
    &&& p.spec_type() == PacketType::spec_from_i32(spec_wire_tag(s), true)
    &&& p.spec_body() == decode_utf8(spec_wire_body(s))
}

impl Packet {
    /// The declared length agrees with the body: it was computed, not
    /// taken from caller input.
    pub open spec fn wf(self) -> bool {
        self.spec_len() as int == 10 + encode_utf8(self.spec_body()).len()
    }

    pub closed spec fn spec_id(self) -> i32 {
        self.id
    }

    pub closed spec fn spec_type(self) -> PacketType {
        self.ptype
    }

    pub closed spec fn spec_body(self) -> Seq<char> {
        self.body@
    }

    pub closed spec fn spec_len(self) -> i32 {
        self.length
    }

    /// The bytes this packet serializes to.
    pub open spec fn spec_bytes(self) -> Seq<u8> {
        spec_packet_bytes(self.spec_id(), self.spec_type().spec_to_i32(), encode_utf8(self.spec_body()))
    }

    pub fn new(id: i32, ptype: PacketType, body: String) -> (p: Packet)
        requires
            10 + encode_utf8(body@).len() <= i32::MAX,
        ensures
            p.wf(),
            p.spec_id() == id,
            p.spec_type() == ptype,
            p.spec_body() == body@,
    {
        let length = 10 + body.as_str().len() as i32;
        Packet { length, id, ptype, body }
    }

    /// A response carrying a negative id signals a failed request; the
    /// Source and Minecraft servers use it to reject authentication.
    pub fn is_error(&self) -> (r: bool)
        ensures
            r == (self.spec_id() < 0),
    {
        self.id < 0
    }

    pub fn get_body(&self) -> (r: &str)
        ensures
            r@ == self.spec_body(),
    {
        self.body.as_str()
    }

    pub fn get_type(&self) -> (r: PacketType)
        ensures
            r == self.spec_type(),
    {
        self.ptype
    }

    pub fn get_id(&self) -> (r: i32)
        ensures
            r == self.spec_id(),
    {
        self.id
    }

    /// Encodes this packet as its wire bytes.
    pub fn encode(&self) -> (buf: Vec<u8>)
        requires
            self.wf(),
        ensures
            buf@ == self.spec_bytes(),
    {
        let mut buf: Vec<u8> = Vec::new();
        append_i32_le(&mut buf, self.length);
        append_i32_le(&mut buf, self.id);
        append_i32_le(&mut buf, self.ptype.to_i32());
        append_bytes(&mut buf, self.body.as_str().as_bytes());
        buf.push(0);
        buf.push(0);
        proof {
            assert(buf@ =~= self.spec_bytes());
        }
        buf
    }

    /// Writes this packet to the transport as one buffer, so that it goes
    /// out in a single piece.
    pub fn serialize<T: Transport>(&self, w: &mut T) -> (res: Result<(), TransportError>)
        requires
            self.wf(),
        ensures
            final(w).to_read() == old(w).to_read(),
            final(w).slept() == old(w).slept(),
            res is Ok ==> final(w).written() == old(w).written() + self.spec_bytes(),
    {
        let buf = self.encode();
        w.write_all(buf.as_slice())
    }

    /// Reads one packet from the transport: header fields, exactly
    /// `length - 10` body bytes, then the two terminating nulls.
    ///
    /// Fails with [`Error::MalformedPacket`] when the declared length is
    /// impossible or beyond the allocation bound, or when the body is not
    /// valid UTF-8; such a failure proves the stream did not hold a
    /// well-formed packet. A transport failure surfaces as [`Error::Io`].
    pub fn deserialize<T: Transport>(r: &mut T) -> (res: Result<Packet, Error>)
        ensures
            final(r).written() == old(r).written(),
            final(r).slept() == old(r).slept(),
            match res {
                Ok(p) => {
                    &&& p.wf()
                    &&& decodes_to(old(r).to_read(), p)
                    &&& final(r).to_read() == old(r).to_read().skip(
                        spec_wire_size(old(r).to_read()),
                    )
                },
                Err(e) => e is Io || e is MalformedPacket,
            },
            res matches Err(Error::MalformedPacket) ==> !spec_wire_ok(old(r).to_read()),
    {
        let ghost s = old(r).to_read();
        let len_bytes = match r.read_exact(4) {
            Ok(v) => v,
            Err(e) => { return Err(Error::Io(e)) },
        };
        proof {
            assert(len_bytes@ =~= s.subrange(0, 4));
        }
        let length = i32_of_le_vec(&len_bytes);
        if length < 10 {
            return Err(Error::MalformedPacket);
        }
        let body_len = (length - 10) as usize;
        if body_len > MAX_WIRE_BODY {
            return Err(Error::MalformedPacket);
        }
        let id_bytes = match r.read_exact(4) {
            Ok(v) => v,
            Err(e) => { return Err(Error::Io(e)) },
        };
        proof {
            assert(id_bytes@ =~= s.subrange(4, 8));
        }
        let id = i32_of_le_vec(&id_bytes);
        let tag_bytes = match r.read_exact(4) {
            Ok(v) => v,
            Err(e) => { return Err(Error::Io(e)) },
        };
        proof {
            assert(tag_bytes@ =~= s.subrange(8, 12));
        }
        let tag = i32_of_le_vec(&tag_bytes);
        let body_bytes = match r.read_exact(body_len) {
            Ok(v) => v,
            Err(e) => { return Err(Error::Io(e)) },
        };
        proof {
            assert(body_bytes@ =~= s.subrange(12, length + 2));
        }
        let body = match bytes_to_string(body_bytes) {
            Some(b) => b,
            None => { return Err(Error::MalformedPacket) },
        };
        let _nulls = match r.read_exact(2) {
            Ok(v) => v,
            Err(e) => { return Err(Error::Io(e)) },
        };
        let packet = Packet { length, id, ptype: PacketType::from_i32(tag, true), body };
        proof {
            vstd::utf8::decode_utf8_encode_utf8(s.subrange(12, length + 2));
            assert(final(r).to_read() =~= s.skip(spec_wire_size(s)));
        }
        Ok(packet)
    }
}

/// A well-formed packet's encoding frames exactly its fields at the front
/// of a stream, whatever follows: the header fields read back as written,
/// the body bytes sit where the length field says, and the packet's bytes
/// are consumed to the byte.
pub proof fn lemma_wire_frame(p: Packet, rest: Seq<u8>)
    requires
        p.wf(),
        encode_utf8(p.spec_body()).len() <= MAX_WIRE_BODY as int,
    ensures
        spec_wire_ok(p.spec_bytes() + rest),
        spec_wire_len(p.spec_bytes() + rest) == p.spec_len() as int,
        spec_wire_id(p.spec_bytes() + rest) == p.spec_id(),
        spec_wire_tag(p.spec_bytes() + rest) == p.spec_type().spec_to_i32(),
        spec_wire_body(p.spec_bytes() + rest) == encode_utf8(p.spec_body()),
        decode_utf8(spec_wire_body(p.spec_bytes() + rest)) == p.spec_body(),
        spec_wire_size(p.spec_bytes() + rest) == p.spec_bytes().len(),
        (p.spec_bytes() + rest).skip(spec_wire_size(p.spec_bytes() + rest)) == rest,
{
    let body = encode_utf8(p.spec_body());
    let s = p.spec_bytes() + rest;
    lemma_i32_le_round_trip(p.spec_len());
    lemma_i32_le_round_trip(p.spec_id());
    lemma_i32_le_round_trip(p.spec_type().spec_to_i32());
    assert((10 + body.len()) as i32 == p.spec_len());
    assert(s.subrange(0, 4) =~= spec_i32_le(p.spec_len()));
    assert(s.subrange(4, 8) =~= spec_i32_le(p.spec_id()));
    assert(s.subrange(8, 12) =~= spec_i32_le(p.spec_type().spec_to_i32()));
    assert(spec_wire_len(s) == p.spec_len() as int);
    assert(s.subrange(12, spec_wire_len(s) + 2) =~= body);
    vstd::utf8::encode_utf8_valid_utf8(p.spec_body());
    vstd::utf8::encode_utf8_decode_utf8(p.spec_body());
    assert(s.skip(spec_wire_size(s)) =~= rest);
}

/// Decoding the encoding of a well-formed packet yields that packet back,
/// and consumes exactly its bytes, whatever follows on the stream. The type
/// tag must survive the trip: a tag that reads back differently on the
/// response side (such as `ExecCommand`, whose tag value doubles as
/// `AuthResponse` there) is excluded.
pub proof fn lemma_round_trip(p: Packet, rest: Seq<u8>)
    requires
        p.wf(),
        encode_utf8(p.spec_body()).len() <= MAX_WIRE_BODY as int,
        PacketType::spec_from_i32(p.spec_type().spec_to_i32(), true) == p.spec_type(),
    ensures
        decodes_to(p.spec_bytes() + rest, p),
        spec_wire_size(p.spec_bytes() + rest) == p.spec_bytes().len(),
        (p.spec_bytes() + rest).skip(spec_wire_size(p.spec_bytes() + rest)) == rest,
{
    lemma_wire_frame(p, rest);
}

} // verus!
