//! The Factorio variant's packet: the same wire shape as the Source-style
//! packet, but with the raw type tag kept as read, since this variant has
//! its own type-tag vocabulary, and with a single-packet response flow
//! driven by [`crate::connection::Connection`] in Factorio quirks mode.

use vstd::prelude::*;
use vstd::utf8::{decode_utf8, encode_utf8};
use crate::error::{Error, TransportError};
use crate::packet::{spec_packet_bytes, spec_wire_body, spec_wire_id, spec_wire_len, spec_wire_ok, spec_wire_size, spec_wire_tag, PacketType, MAX_WIRE_BODY};
use crate::transport::Transport;
use crate::wire::{bytes_to_string, i32_of_le_vec, lemma_i32_le_round_trip, spec_i32_le};

verus! {

/// One Factorio packet: correlation id, declared size, body text, and the
/// wire type tag as a plain number.
#[derive(Debug, PartialEq)]
pub struct FactorioPacket {
    id: i32,
    packet_size: i32,
    body: String,
    ptype_n: i32,
}

/// True when `p` is the packet decoded from the front of `s`.
pub open spec fn factorio_decodes_to(s: Seq<u8>, p: FactorioPacket) -> bool {
    &&& spec_wire_ok(s)
    &&& p.spec_packet_size() as int == spec_wire_len(s)
    &&& p.spec_id() == spec_wire_id(s)
    &&& p.spec_ptype_n() == spec_wire_tag(s)
    &&& p.spec_body() == decode_utf8(spec_wire_body(s))
}

impl FactorioPacket {
    pub closed spec fn spec_id(self) -> i32 {
        self.id
    }

    pub closed spec fn spec_packet_size(self) -> i32 {
        self.packet_size
    }

    pub closed spec fn spec_body(self) -> Seq<char> {
        self.body@
    }

    pub closed spec fn spec_ptype_n(self) -> i32 {
        self.ptype_n
    }

    /// The declared size agrees with the body.
    pub open spec fn wf(self) -> bool {
        self.spec_packet_size() as int == 10 + encode_utf8(self.spec_body()).len()
    }

    /// The bytes this packet serializes to.
    pub open spec fn spec_bytes(self) -> Seq<u8> {
        spec_packet_bytes(self.spec_id(), self.spec_ptype_n(), encode_utf8(self.spec_body()))
    }

    /// Builds a packet around `body`, keeping the wire tag of the given
    /// type; the declared size is computed from the body.
    pub fn new(id: i32, ptype: PacketType, body: String) -> (p: FactorioPacket)
        requires
            10 + encode_utf8(body@).len() <= i32::MAX,
        ensures
            p.wf(),
            p.spec_id() == id,
            p.spec_ptype_n() == ptype.spec_to_i32(),
            p.spec_body() == body@,
    {
        let packet_size = 10 + body.as_str().len() as i32;
        let ptype_n = ptype.to_i32();
        FactorioPacket { id, packet_size, body, ptype_n }
    }

    /// A response carrying a negative id signals a failed request.
    pub fn is_error(&self) -> (r: bool)
        ensures
            r == (self.spec_id() < 0),
    {
        self.id < 0
    }

    pub fn get_body(&self) -> (r: &str)
        ensures
            r@ == self.spec_body(),
    {
        self.body.as_str()
    }

    /// The type this packet's tag reads as on the response side.
    pub fn get_type(&self) -> (r: PacketType)
        ensures
            r == PacketType::spec_from_i32(self.spec_ptype_n(), true),
    {
        PacketType::from_i32(self.ptype_n, true)
    }

    pub fn get_id(&self) -> (r: i32)
        ensures
            r == self.spec_id(),
    {
        self.id
    }

    /// Encodes this packet as its wire bytes.
    pub fn encode(&self) -> (buf: Vec<u8>)
        requires
            self.wf(),
        ensures
            buf@ == self.spec_bytes(),
    {
        let mut buf: Vec<u8> = Vec::new();
        crate::wire::append_i32_le(&mut buf, self.packet_size);
        crate::wire::append_i32_le(&mut buf, self.id);
        crate::wire::append_i32_le(&mut buf, self.ptype_n);
        crate::wire::append_bytes(&mut buf, self.body.as_str().as_bytes());
        buf.push(0);
        buf.push(0);
        proof {
            assert(buf@ =~= self.spec_bytes());
        }
        buf
    }

    /// Writes this packet to the transport as one buffer.
    pub fn serialize<T: Transport>(&self, w: &mut T) -> (res: Result<(), TransportError>)
        requires
            self.wf(),
        ensures
            final(w).to_read() == old(w).to_read(),
            final(w).slept() == old(w).slept(),
            res is Ok ==> final(w).written() == old(w).written() + self.spec_bytes(),
    {
        let buf = self.encode();
        w.write_all(buf.as_slice())
    }

    /// Reads one packet from the transport, exactly as
    /// [`crate::packet::Packet::deserialize`] does, but keeping the raw
    /// type tag.
    pub fn deserialize<T: Transport>(r: &mut T) -> (res: Result<FactorioPacket, Error>)
        ensures
            final(r).written() == old(r).written(),
            final(r).slept() == old(r).slept(),
            match res {
                Ok(p) => {
                    &&& p.wf()
                    &&& factorio_decodes_to(old(r).to_read(), p)
                    &&& final(r).to_read() == old(r).to_read().skip(
                        spec_wire_size(old(r).to_read()),
                    )
                },
                Err(e) => e is Io || e is MalformedPacket,
            },
            res matches Err(Error::MalformedPacket) ==> !spec_wire_ok(old(r).to_read()),
    {
        let ghost s = old(r).to_read();
        let len_bytes = match r.read_exact(4) {
            Ok(v) => v,
            Err(e) => { return Err(Error::Io(e)) },
        };
        proof {
            assert(len_bytes@ =~= s.subrange(0, 4));
        }
        let packet_size = i32_of_le_vec(&len_bytes);
        if packet_size < 10 {
            return Err(Error::MalformedPacket);
        }
        let body_len = (packet_size - 10) as usize;
        if body_len > MAX_WIRE_BODY {
            return Err(Error::MalformedPacket);
        }
        let id_bytes = match r.read_exact(4) {
            Ok(v) => v,
            Err(e) => { return Err(Error::Io(e)) },
        };
        proof {
            assert(id_bytes@ =~= s.subrange(4, 8));
        }
        let id = i32_of_le_vec(&id_bytes);
        let tag_bytes = match r.read_exact(4) {
            Ok(v) => v,
            Err(e) => { return Err(Error::Io(e)) },
        };
        proof {
            assert(tag_bytes@ =~= s.subrange(8, 12));
        }
        let ptype_n = i32_of_le_vec(&tag_bytes);
        let body_bytes = match r.read_exact(body_len) {
            Ok(v) => v,
            Err(e) => { return Err(Error::Io(e)) },
        };
        proof {
            assert(body_bytes@ =~= s.subrange(12, packet_size + 2));
        }
        let body = match bytes_to_string(body_bytes) {
            Some(b) => b,
            None => { return Err(Error::MalformedPacket) },
        };
        let _nulls = match r.read_exact(2) {
            Ok(v) => v,
            Err(e) => { return Err(Error::Io(e)) },
        };
        let packet = FactorioPacket { id, packet_size, body, ptype_n };
        proof {
            vstd::utf8::decode_utf8_encode_utf8(s.subrange(12, packet_size + 2));
            assert(final(r).to_read() =~= s.skip(spec_wire_size(s)));
        }
        Ok(packet)
    }
}

/// Decoding the encoding of a well-formed packet yields that packet back,
/// and consumes exactly its bytes, whatever follows on the stream. The
/// tag is kept as a plain number on both sides, so nothing is excluded.
pub proof fn lemma_factorio_round_trip(p: FactorioPacket, rest: Seq<u8>)
    requires
        p.wf(),
        encode_utf8(p.spec_body()).len() <= MAX_WIRE_BODY as int,
    ensures
        factorio_decodes_to(p.spec_bytes() + rest, p),
        spec_wire_size(p.spec_bytes() + rest) == p.spec_bytes().len(),
        (p.spec_bytes() + rest).skip(spec_wire_size(p.spec_bytes() + rest)) == rest,
{
    let body = encode_utf8(p.spec_body());
    let s = p.spec_bytes() + rest;
    lemma_i32_le_round_trip(p.spec_packet_size());
    lemma_i32_le_round_trip(p.spec_id());
    lemma_i32_le_round_trip(p.spec_ptype_n());
    assert((10 + body.len()) as i32 == p.spec_packet_size());
    assert(s.subrange(0, 4) =~= spec_i32_le(p.spec_packet_size()));
    assert(s.subrange(4, 8) =~= spec_i32_le(p.spec_id()));
    assert(s.subrange(8, 12) =~= spec_i32_le(p.spec_ptype_n()));
    assert(spec_wire_len(s) == p.spec_packet_size() as int);
    assert(s.subrange(12, spec_wire_len(s) + 2) =~= body);
    vstd::utf8::encode_utf8_valid_utf8(p.spec_body());
    vstd::utf8::encode_utf8_decode_utf8(p.spec_body());
    assert(s.skip(spec_wire_size(s)) =~= rest);
}

} // verus!
