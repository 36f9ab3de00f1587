//! The connection state machine: handshake, command dispatch, and
//! response reassembly, parameterized by per-variant quirks.
//!
//! A connection owns its transport exclusively and keeps at most one
//! command in flight: a command is sent, then its whole (possibly
//! multi-packet) response is consumed, before the next command may go out.

use vstd::prelude::*;
use vstd::string::StringExecFns;
use vstd::utf8::{decode_utf8, encode_utf8};
use crate::error::Error;
use crate::packet::{decodes_to, lemma_wire_frame, spec_packet_bytes, spec_wire_body, spec_wire_id, spec_wire_ok, spec_wire_size, spec_wire_tag, Packet, PacketType, MAX_WIRE_BODY};
use crate::transport::Transport;

verus! {

/// The first id a fresh connection uses; ids stay positive because the
/// server reserves negative ids for signalling failure.
pub const INITIAL_PACKET_ID: i32 = 1;

/// The pause observed after each command in Minecraft quirks mode, in
/// milliseconds, to avoid known server-side instability under rapid-fire
/// commands.
pub const DELAY_TIME_MILLIS: u64 = 3;

/// The longest command body the Minecraft server handles reliably.
pub const MINECRAFT_MAX_PAYLOAD_SIZE: usize = 1413;

/// How a healthy connection advances its command id: a plain increment
/// that wraps back to the initial id on overflow.
pub open spec fn spec_next_id(id: i32) -> i32 {
    if id == i32::MAX {
        INITIAL_PACKET_ID
    } else {
        (id + 1) as i32
    }
}

/// Ids issued by a healthy connection advance monotonically, wrap only at
/// the numeric limit, and never enter the negative range that servers use
/// to signal a failed request.
pub proof fn lemma_id_advancement(id: i32)
    requires
        id >= INITIAL_PACKET_ID,
    ensures
        spec_next_id(id) >= INITIAL_PACKET_ID,
        id < i32::MAX ==> spec_next_id(id) == id + 1,
        id == i32::MAX ==> spec_next_id(id) == INITIAL_PACKET_ID,
{
}

/// Scans the incoming stream for the first packet whose type reads as
/// `AuthResponse`, discarding the packets before it, and yields that
/// packet's id together with the rest of the stream. `None` when the
/// stream breaks off or turns malformed first.
pub open spec fn spec_auth_scan(s: Seq<u8>) -> Option<(i32, Seq<u8>)>
    decreases s.len(),
{
    if !spec_wire_ok(s) {
        None
    } else if PacketType::spec_from_i32(spec_wire_tag(s), true) is AuthResponse {
        Some((spec_wire_id(s), s.skip(spec_wire_size(s))))
    } else {
        spec_auth_scan(s.skip(spec_wire_size(s)))
    }
}

/// Reassembles a multi-packet response: concatenates the bodies of the
/// packets at the front of the stream until one carrying the end-marker id
/// arrives (its own body is discarded), and yields the concatenation
/// together with the rest of the stream. `None` when the stream breaks off
/// or turns malformed first.
pub open spec fn spec_reassemble(s: Seq<u8>, end_id: i32) -> Option<(Seq<char>, Seq<u8>)>
    decreases s.len(),
{
    if !spec_wire_ok(s) {
        None
    } else if spec_wire_id(s) == end_id {
        Some((Seq::<char>::empty(), s.skip(spec_wire_size(s))))
    } else {
        match spec_reassemble(s.skip(spec_wire_size(s)), end_id) {
            Some((tail, rem)) => Some((decode_utf8(spec_wire_body(s)) + tail, rem)),
            None => None,
        }
    }
}

/// A packet whose type reads as the distinguished AuthResponse settles
/// the handshake scan at once with its id, whatever follows it.
pub proof fn lemma_auth_scan_found(p: Packet, rest: Seq<u8>)
    requires
        p.wf(),
        encode_utf8(p.spec_body()).len() <= MAX_WIRE_BODY as int,
        p.spec_type() is AuthResponse,
    ensures
        spec_auth_scan(p.spec_bytes() + rest) == Some((p.spec_id(), rest)),
{
    lemma_wire_frame(p, rest);
}

/// A packet of any other type is discarded by the handshake scan, which
/// goes on with the stream behind it.
pub proof fn lemma_auth_scan_skip(p: Packet, rest: Seq<u8>)
    requires
        p.wf(),
        encode_utf8(p.spec_body()).len() <= MAX_WIRE_BODY as int,
        p.spec_type().spec_to_i32() != 2,
    ensures
        spec_auth_scan(p.spec_bytes() + rest) == spec_auth_scan(rest),
{
    lemma_wire_frame(p, rest);
}

/// A packet that does not carry the end-marker id contributes its body to
/// the front of the reassembled response.
pub proof fn lemma_reassemble_step(p: Packet, rest: Seq<u8>, end_id: i32)
    requires
        p.wf(),
        encode_utf8(p.spec_body()).len() <= MAX_WIRE_BODY as int,
        p.spec_id() != end_id,
    ensures
        spec_reassemble(p.spec_bytes() + rest, end_id) == match spec_reassemble(rest, end_id) {
            Some((tail, rem)) => Some((p.spec_body() + tail, rem)),
            None => None::<(Seq<char>, Seq<u8>)>,
        },
{
    lemma_wire_frame(p, rest);
}

/// The packet answering the end marker closes the response; its own body
/// is discarded.
pub proof fn lemma_reassemble_end(p: Packet, rest: Seq<u8>, end_id: i32)
    requires
        p.wf(),
        encode_utf8(p.spec_body()).len() <= MAX_WIRE_BODY as int,
        p.spec_id() == end_id,
    ensures
        spec_reassemble(p.spec_bytes() + rest, end_id) == Some((Seq::<char>::empty(), rest)),
{
    lemma_wire_frame(p, rest);
}

/// The shape of multi-packet reassembly: a response the server split
/// across two packets and closed with the end marker comes back as the
/// two bodies concatenated in order, leaving the stream beyond the marker
/// untouched.
pub proof fn lemma_multi_packet_reassembly(
    p1: Packet,
    p2: Packet,
    pe: Packet,
    rest: Seq<u8>,
    end_id: i32,
)
    requires
        p1.wf(),
        p2.wf(),
        pe.wf(),
        encode_utf8(p1.spec_body()).len() <= MAX_WIRE_BODY as int,
        encode_utf8(p2.spec_body()).len() <= MAX_WIRE_BODY as int,
        encode_utf8(pe.spec_body()).len() <= MAX_WIRE_BODY as int,
        p1.spec_id() != end_id,
        p2.spec_id() != end_id,
        pe.spec_id() == end_id,
    ensures
        spec_reassemble(p1.spec_bytes() + p2.spec_bytes() + pe.spec_bytes() + rest, end_id)
            == Some((p1.spec_body() + p2.spec_body(), rest)),
{
    lemma_reassemble_end(pe, rest, end_id);
    lemma_reassemble_step(p2, pe.spec_bytes() + rest, end_id);
    lemma_reassemble_step(p1, p2.spec_bytes() + (pe.spec_bytes() + rest), end_id);
    assert(p1.spec_bytes() + p2.spec_bytes() + pe.spec_bytes() + rest =~= p1.spec_bytes() + (
    p2.spec_bytes() + (pe.spec_bytes() + rest)));
    assert(p2.spec_body() + Seq::<char>::empty() =~= p2.spec_body());
}

/// Configures a connection before the handshake: which per-game quirks are
/// active and which inter-command delay is observed.
#[derive(Debug, Clone, Copy)]
pub struct Builder {
    minecraft_quirks_enabled: bool,
    factorio_quirks_enabled: bool,
    delay_millis: u64,
}

/// The stateful session: the exclusively owned transport, the id
/// generator, and the variant quirks fixed at handshake time.
pub struct Connection<T> {
    io: T,
    next_packet_id: i32,
    minecraft_quirks_enabled: bool,
    factorio_quirks_enabled: bool,
    delay_millis: u64,
}

impl Default for Builder {
    /// No quirks, and the stock inter-command delay.
    fn default() -> (b: Builder)
        ensures
            !b.minecraft_quirks(),
            !b.factorio_quirks(),
            b.delay() == DELAY_TIME_MILLIS,
    {
        Builder {
            minecraft_quirks_enabled: false,
            factorio_quirks_enabled: false,
            delay_millis: DELAY_TIME_MILLIS,
        }
    }
}

impl Builder {
    pub closed spec fn minecraft_quirks(self) -> bool {
        self.minecraft_quirks_enabled
    }

    pub closed spec fn factorio_quirks(self) -> bool {
        self.factorio_quirks_enabled
    }

    pub closed spec fn delay(self) -> u64 {
        self.delay_millis
    }

    pub fn new() -> (b: Builder)
        ensures
            !b.minecraft_quirks(),
            !b.factorio_quirks(),
            b.delay() == DELAY_TIME_MILLIS,
    {
        Builder::default()
    }

    /// This enables the following quirks for Minecraft:
    ///
    /// Commands are delayed to reduce the chance of crashing the server,
    /// and the command length is limited to [`MINECRAFT_MAX_PAYLOAD_SIZE`]
    /// bytes, beyond which the server has shown itself unreliable.
    pub fn enable_minecraft_quirks(self, value: bool) -> (b: Builder)
        ensures
            b.minecraft_quirks() == value,
            b.factorio_quirks() == self.factorio_quirks(),
            b.delay() == self.delay(),
    {
        Builder { minecraft_quirks_enabled: value, ..self }
    }

    /// This enables the following quirks for Factorio:
    ///
    /// Only single-packet responses are expected, since that server does
    /// not answer the empty end-marker packet, and authentication is
    /// mandatory even for an empty password.
    pub fn enable_factorio_quirks(self, value: bool) -> (b: Builder)
        ensures
            b.factorio_quirks() == value,
            b.minecraft_quirks() == self.minecraft_quirks(),
            b.delay() == self.delay(),
    {
        Builder { factorio_quirks_enabled: value, ..self }
    }

    /// Overrides the inter-command pause that the connection asks its
    /// transport to sleep for when Minecraft quirks are enabled. The
    /// transport supplies the sleeping primitive itself; this sets the
    /// duration handed to it.
    pub fn sleep_fn(self, delay_millis: u64) -> (b: Builder)
        ensures
            b.delay() == delay_millis,
            b.minecraft_quirks() == self.minecraft_quirks(),
            b.factorio_quirks() == self.factorio_quirks(),
    {
        Builder { delay_millis, ..self }
    }

    /// Performs the authentication handshake over an established byte
    /// stream and returns the ready connection.
    ///
    /// The whole exchange is skipped when the password is empty and the
    /// variant allows it (every variant here but Factorio, whose server
    /// insists on a login): the connection is then ready at once, with
    /// nothing written to and nothing read from the transport.
    pub fn handshake<T: Transport>(self, io: T, password: &str) -> (res: Result<
        Connection<T>,
        Error,
    >)
        requires
            10 + encode_utf8(password@).len() <= i32::MAX,
        ensures
            password@.len() == 0 && !self.factorio_quirks() ==> res is Ok,
            (res matches Err(e) && e is MalformedPacket) ==> spec_auth_scan(io.to_read()) is None,
            match res {
                Ok(conn) => {
                    &&& conn.wf()
                    &&& conn.minecraft_quirks() == self.minecraft_quirks()
                    &&& conn.factorio_quirks() == self.factorio_quirks()
                    &&& conn.delay() == self.delay()
                    &&& conn.spec_io().slept() == io.slept()
                    &&& if password@.len() == 0 && !self.factorio_quirks() {
                        &&& conn.spec_io().written() == io.written()
                        &&& conn.spec_io().to_read() == io.to_read()
                        &&& conn.spec_next_packet_id() == INITIAL_PACKET_ID
                    } else {
                        &&& conn.spec_io().written() == io.written() + spec_packet_bytes(
                            INITIAL_PACKET_ID,
                            3,
                            encode_utf8(password@),
                        )
                        &&& spec_auth_scan(io.to_read()) matches Some((id, rem)) && id >= 0
                            && conn.spec_io().to_read() == rem
                        &&& conn.spec_next_packet_id() == spec_next_id(INITIAL_PACKET_ID)
                    }
                },
                Err(e) => {
                    &&& e is Auth || e is Io || e is MalformedPacket
                    &&& e is Auth ==> (match spec_auth_scan(io.to_read()) {
                        Some((id, _rem)) => id < 0,
                        None => false,
                    })
                },
            },
    {
        let mut conn = Connection {
            io,
            next_packet_id: INITIAL_PACKET_ID,
            minecraft_quirks_enabled: self.minecraft_quirks_enabled,
            factorio_quirks_enabled: self.factorio_quirks_enabled,
            delay_millis: self.delay_millis,
        };
        if password.is_empty() && !conn.factorio_quirks_enabled {
            return Ok(conn);
        }
        match conn.auth(password) {
            Ok(()) => Ok(conn),
            Err(e) => Err(e),
        }
    }
}

impl<T: Transport> Connection<T> {
    pub closed spec fn spec_io(self) -> T {
        self.io
    }

    pub closed spec fn spec_next_packet_id(self) -> i32 {
        self.next_packet_id
    }

    pub closed spec fn minecraft_quirks(self) -> bool {
        self.minecraft_quirks_enabled
    }

    pub closed spec fn factorio_quirks(self) -> bool {
        self.factorio_quirks_enabled
    }

    pub closed spec fn delay(self) -> u64 {
        self.delay_millis
    }

    /// A healthy connection never holds an id in the negative range that
    /// servers use to signal failure.
    pub open spec fn wf(self) -> bool {
        self.spec_next_packet_id() >= INITIAL_PACKET_ID
    }

    /// The parts of a connection that never change after the handshake.
    pub open spec fn same_options(self, other: Self) -> bool {
        &&& self.minecraft_quirks() == other.minecraft_quirks()
        &&& self.factorio_quirks() == other.factorio_quirks()
        &&& self.delay() == other.delay()
    }

    /// Creates a connection builder, for configuring the quirks before the
    /// handshake.
    pub fn builder() -> (b: Builder)
        ensures
            !b.minecraft_quirks(),
            !b.factorio_quirks(),
            b.delay() == DELAY_TIME_MILLIS,
    {
        Builder::new()
    }

    /// Performs a handshake on an existing byte stream with Minecraft
    /// quirks enabled, the common default. Use a [`Builder`] to customize.
    pub fn handshake(io: T, password: &str) -> (res: Result<Connection<T>, Error>)
        requires
            10 + encode_utf8(password@).len() <= i32::MAX,
        ensures
            password@.len() == 0 ==> res is Ok,
            (res matches Err(e) && e is MalformedPacket) ==> spec_auth_scan(io.to_read()) is None,
            match res {
                Ok(conn) => {
                    &&& conn.wf()
                    &&& conn.minecraft_quirks()
                    &&& !conn.factorio_quirks()
                    &&& conn.spec_io().slept() == io.slept()
                    &&& if password@.len() == 0 {
                        &&& conn.spec_io().written() == io.written()
                        &&& conn.spec_io().to_read() == io.to_read()
                        &&& conn.spec_next_packet_id() == INITIAL_PACKET_ID
                    } else {
                        &&& conn.spec_io().written() == io.written() + spec_packet_bytes(
                            INITIAL_PACKET_ID,
                            3,
                            encode_utf8(password@),
                        )
                        &&& spec_auth_scan(io.to_read()) matches Some((id, rem)) && id >= 0
                            && conn.spec_io().to_read() == rem
                        &&& conn.spec_next_packet_id() == spec_next_id(INITIAL_PACKET_ID)
                    }
                },
                Err(e) => {
                    &&& e is Auth || e is Io || e is MalformedPacket
                    &&& e is Auth ==> (match spec_auth_scan(io.to_read()) {
                        Some((id, _rem)) => id < 0,
                        None => false,
                    })
                },
            },
    {
        Self::builder().enable_minecraft_quirks(true).handshake(io, password)
    }

    /// Runs one command and returns the server's full response text.
    ///
    /// In Minecraft quirks mode a command longer than
    /// [`MINECRAFT_MAX_PAYLOAD_SIZE`] bytes is rejected with
    /// [`Error::CommandTooLong`] before anything is sent, and exactly then:
    /// the connection is left untouched and stays usable. Otherwise the
    /// command packet goes out with the current id, followed in
    /// multi-packet mode by the empty end-marker packet, and the response
    /// is reassembled from the incoming stream.
    pub fn cmd(&mut self, cmd: &str) -> (res: Result<String, Error>)
        requires
            old(self).wf(),
            10 + encode_utf8(cmd@).len() <= i32::MAX,
        ensures
            final(self).wf(),
            final(self).same_options(*old(self)),
            (res matches Err(e) && e is CommandTooLong) <==> (old(self).minecraft_quirks()
                && encode_utf8(cmd@).len() > MINECRAFT_MAX_PAYLOAD_SIZE),
            (res matches Err(e) && e is CommandTooLong) ==> *final(self) == *old(self),
            res is Ok ==> final(self).spec_io().slept() == (if old(self).minecraft_quirks() {
                old(self).spec_io().slept().push(old(self).delay())
            } else {
                old(self).spec_io().slept()
            }),
            (res matches Err(e) && e is MalformedPacket) ==> (if old(self).factorio_quirks() {
                !spec_wire_ok(old(self).spec_io().to_read())
            } else {
                spec_reassemble(
                    old(self).spec_io().to_read(),
                    spec_next_id(old(self).spec_next_packet_id()),
                ) is None
            }),
            match res {
                Ok(s) => {
                    let sent = spec_packet_bytes(
                        old(self).spec_next_packet_id(),
                        2,
                        encode_utf8(cmd@),
                    );
                    if old(self).factorio_quirks() {
                        &&& final(self).spec_next_packet_id() == spec_next_id(
                            old(self).spec_next_packet_id(),
                        )
                        &&& final(self).spec_io().written() == old(self).spec_io().written() + sent
                        &&& spec_wire_ok(old(self).spec_io().to_read())
                        &&& s@ == decode_utf8(spec_wire_body(old(self).spec_io().to_read()))
                        &&& final(self).spec_io().to_read() == old(self).spec_io().to_read().skip(
                            spec_wire_size(old(self).spec_io().to_read()),
                        )
                    } else {
                        let end_id = spec_next_id(old(self).spec_next_packet_id());
                        &&& final(self).spec_next_packet_id() == spec_next_id(end_id)
                        &&& final(self).spec_io().written() == old(self).spec_io().written() + sent
                            + spec_packet_bytes(end_id, 2, Seq::<u8>::empty())
                        &&& spec_reassemble(old(self).spec_io().to_read(), end_id) == Some(
                            (s@, final(self).spec_io().to_read()),
                        )
                    }
                },
                Err(e) => e is CommandTooLong || e is Io || e is MalformedPacket,
            },
    {
        if self.minecraft_quirks_enabled && cmd.len() > MINECRAFT_MAX_PAYLOAD_SIZE {
            return Err(Error::CommandTooLong);
        }
        match self.send(PacketType::ExecCommand, cmd) {
            Ok(_id) => (),
            Err(e) => { return Err(e) },
        }
        if self.minecraft_quirks_enabled {
            let millis = self.delay_millis;
            self.io.sleep(millis);
        }
        self.receive_response()
    }

    /// Reads one command response, whole: a single packet in
    /// single-packet-only mode, a reassembled sequence otherwise.
    fn receive_response(&mut self) -> (res: Result<String, Error>)
        requires
            old(self).wf(),
        ensures
            final(self).wf(),
            final(self).same_options(*old(self)),
            final(self).spec_io().slept() == old(self).spec_io().slept(),
            (res matches Err(e) && e is MalformedPacket) ==> (if old(self).factorio_quirks() {
                !spec_wire_ok(old(self).spec_io().to_read())
            } else {
                spec_reassemble(
                    old(self).spec_io().to_read(),
                    old(self).spec_next_packet_id(),
                ) is None
            }),
            match res {
                Ok(s) => {
                    if old(self).factorio_quirks() {
                        &&& final(self).spec_next_packet_id() == old(self).spec_next_packet_id()
                        &&& final(self).spec_io().written() == old(self).spec_io().written()
                        &&& spec_wire_ok(old(self).spec_io().to_read())
                        &&& s@ == decode_utf8(spec_wire_body(old(self).spec_io().to_read()))
                        &&& final(self).spec_io().to_read() == old(self).spec_io().to_read().skip(
                            spec_wire_size(old(self).spec_io().to_read()),
                        )
                    } else {
                        let end_id = old(self).spec_next_packet_id();
                        &&& final(self).spec_next_packet_id() == spec_next_id(end_id)
                        &&& final(self).spec_io().written() == old(self).spec_io().written()
                            + spec_packet_bytes(end_id, 2, Seq::<u8>::empty())
                        &&& spec_reassemble(old(self).spec_io().to_read(), end_id) == Some(
                            (s@, final(self).spec_io().to_read()),
                        )
                    }
                },
                Err(e) => e is Io || e is MalformedPacket,
            },
    {
        if self.factorio_quirks_enabled {
            self.receive_single_packet_response()
        } else {
            self.receive_multi_packet_response()
        }
    }

    /// Single-packet-only mode: the next packet's body is the whole
    /// response.
    fn receive_single_packet_response(&mut self) -> (res: Result<String, Error>)
        ensures
            final(self).wf() == old(self).wf(),
            final(self).same_options(*old(self)),
            final(self).spec_next_packet_id() == old(self).spec_next_packet_id(),
            final(self).spec_io().written() == old(self).spec_io().written(),
            final(self).spec_io().slept() == old(self).spec_io().slept(),
            (res matches Err(e) && e is MalformedPacket) ==> !spec_wire_ok(
                old(self).spec_io().to_read(),
            ),
            match res {
                Ok(s) => {
                    &&& spec_wire_ok(old(self).spec_io().to_read())
                    &&& s@ == decode_utf8(spec_wire_body(old(self).spec_io().to_read()))
                    &&& final(self).spec_io().to_read() == old(self).spec_io().to_read().skip(
                        spec_wire_size(old(self).spec_io().to_read()),
                    )
                },
                Err(e) => e is Io || e is MalformedPacket,
            },
    {
        let received_packet = match self.receive_packet() {
            Ok(p) => p,
            Err(e) => { return Err(e) },
        };
        Ok(String::from_str(received_packet.get_body()))
    }

    /// Multi-packet-sentinel mode: sends one empty command packet and
    /// remembers its id as the end marker, then concatenates response
    /// bodies until the packet answering the end marker arrives. The
    /// server answers in order, which is what makes the marker detect the
    /// end of a response it split across packets.
    fn receive_multi_packet_response(&mut self) -> (res: Result<String, Error>)
        requires
            old(self).wf(),
        ensures
            final(self).wf(),
            final(self).same_options(*old(self)),
            final(self).spec_next_packet_id() == spec_next_id(old(self).spec_next_packet_id()),
            final(self).spec_io().slept() == old(self).spec_io().slept(),
            (res matches Err(e) && e is MalformedPacket) ==> spec_reassemble(
                old(self).spec_io().to_read(),
                old(self).spec_next_packet_id(),
            ) is None,
            match res {
                Ok(s) => {
                    let end_id = old(self).spec_next_packet_id();
                    &&& final(self).spec_io().written() == old(self).spec_io().written()
                        + spec_packet_bytes(end_id, 2, Seq::<u8>::empty())
                    &&& spec_reassemble(old(self).spec_io().to_read(), end_id) == Some(
                        (s@, final(self).spec_io().to_read()),
                    )
                },
                Err(e) => e is Io || e is MalformedPacket,
            },
    {
        proof {
            reveal_strlit("");
            assert(""@.len() == 0);
            assert(encode_utf8(""@) =~= Seq::<u8>::empty());
        }
        let end_id = match self.send(PacketType::ExecCommand, "") {
            Ok(id) => id,
            Err(e) => { return Err(e) },
        };
        let ghost w_sent = self.io.written();
        let ghost orig = self.io.to_read();
        let mut result = String::new();
        loop
            invariant
                self.wf(),
                self.same_options(*old(self)),
                self.spec_next_packet_id() == spec_next_id(old(self).spec_next_packet_id()),
                self.spec_io().written() == w_sent,
                w_sent == old(self).spec_io().written() + spec_packet_bytes(
                    end_id,
                    2,
                    Seq::<u8>::empty(),
                ),
                end_id == old(self).spec_next_packet_id(),
                orig == old(self).spec_io().to_read(),
                self.spec_io().slept() == old(self).spec_io().slept(),
                match spec_reassemble(self.spec_io().to_read(), end_id) {
                    Some((tail, rem)) => spec_reassemble(orig, end_id) == Some(
                        (result@ + tail, rem),
                    ),
                    None => spec_reassemble(orig, end_id) is None,
                },
            decreases self.spec_io().to_read().len(),
        {
            let ghost cur = self.io.to_read();
            let received_packet = match self.receive_packet() {
                Ok(p) => p,
                Err(e) => {
                    proof {
                        if e is MalformedPacket {
                            assert(spec_reassemble(cur, end_id) is None);
                        }
                    }
                    return Err(e);
                },
            };
            proof {
                assert(spec_wire_size(cur) >= 14);
            }
            if received_packet.get_id() == end_id {
                proof {
                    assert(spec_reassemble(cur, end_id) == Some(
                        (Seq::<char>::empty(), self.spec_io().to_read()),
                    ));
                    assert(result@ + Seq::<char>::empty() =~= result@);
                }
                return Ok(result);
            }
            proof {
                let body = decode_utf8(spec_wire_body(cur));
                match spec_reassemble(self.spec_io().to_read(), end_id) {
                    Some((tail, rem)) => {
                        assert(spec_reassemble(cur, end_id) == Some((body + tail, rem)));
                        assert(result@ + (body + tail) =~= (result@ + body) + tail);
                    },
                    None => {
                        assert(spec_reassemble(cur, end_id) is None);
                    },
                }
            }
            result.append(received_packet.get_body());
        }
    }

    /// Sends the Auth packet carrying the password, then consumes incoming
    /// packets, discarding any whose type is not the distinguished
    /// AuthResponse, until one is found. A negative id on that packet is
    /// the server rejecting the handshake: the result is [`Error::Auth`]
    /// and the connection must be discarded.
    fn auth(&mut self, password: &str) -> (res: Result<(), Error>)
        requires
            old(self).wf(),
            10 + encode_utf8(password@).len() <= i32::MAX,
        ensures
            final(self).wf(),
            final(self).same_options(*old(self)),
            final(self).spec_next_packet_id() == spec_next_id(old(self).spec_next_packet_id()),
            final(self).spec_io().slept() == old(self).spec_io().slept(),
            (res matches Err(e) && e is MalformedPacket) ==> spec_auth_scan(
                old(self).spec_io().to_read(),
            ) is None,
            match res {
                Ok(()) => {
                    &&& final(self).spec_io().written() == old(self).spec_io().written()
                        + spec_packet_bytes(
                        old(self).spec_next_packet_id(),
                        3,
                        encode_utf8(password@),
                    )
                    &&& spec_auth_scan(old(self).spec_io().to_read()) matches Some((id, rem)) && id
                        >= 0 && final(self).spec_io().to_read() == rem
                },
                Err(e) => {
                    &&& e is Auth || e is Io || e is MalformedPacket
                    &&& e is Auth ==> (match spec_auth_scan(old(self).spec_io().to_read()) {
                        Some((id, rem)) => id < 0 && final(self).spec_io().to_read() == rem,
                        None => false,
                    })
                },
            },
    {
        match self.send(PacketType::Auth, password) {
            Ok(_id) => (),
            Err(e) => { return Err(e) },
        }
        let ghost orig = self.io.to_read();
        loop
            invariant
                self.wf(),
                self.same_options(*old(self)),
                self.spec_next_packet_id() == spec_next_id(old(self).spec_next_packet_id()),
                self.spec_io().written() == old(self).spec_io().written() + spec_packet_bytes(
                    old(self).spec_next_packet_id(),
                    3,
                    encode_utf8(password@),
                ),
                orig == old(self).spec_io().to_read(),
                self.spec_io().slept() == old(self).spec_io().slept(),
                spec_auth_scan(self.spec_io().to_read()) == spec_auth_scan(orig),
            decreases self.spec_io().to_read().len(),
        {
            let ghost cur = self.io.to_read();
            let received_packet = match self.receive_packet() {
                Ok(p) => p,
                Err(e) => {
                    proof {
                        if e is MalformedPacket {
                            assert(spec_auth_scan(cur) is None);
                        }
                    }
                    return Err(e);
                },
            };
            proof {
                assert(spec_wire_size(cur) >= 14);
            }
            let is_auth_response = match received_packet.get_type() {
                PacketType::AuthResponse => true,
                _ => false,
            };
            if is_auth_response {
                if received_packet.is_error() {
                    return Err(Error::Auth);
                } else {
                    return Ok(());
                }
            }
        }
    }

    /// Frames `body` as a packet of the given type under the current id,
    /// sends it, advances the id, and returns the id used.
    fn send(&mut self, ptype: PacketType, body: &str) -> (res: Result<i32, Error>)
        requires
            old(self).wf(),
            10 + encode_utf8(body@).len() <= i32::MAX,
        ensures
            final(self).wf(),
            final(self).same_options(*old(self)),
            final(self).spec_next_packet_id() == spec_next_id(old(self).spec_next_packet_id()),
            final(self).spec_io().to_read() == old(self).spec_io().to_read(),
            final(self).spec_io().slept() == old(self).spec_io().slept(),
            match res {
                Ok(id) => {
                    &&& id == old(self).spec_next_packet_id()
                    &&& id >= INITIAL_PACKET_ID
                    &&& final(self).spec_io().written() == old(self).spec_io().written()
                        + spec_packet_bytes(id, ptype.spec_to_i32(), encode_utf8(body@))
                },
                Err(e) => e is Io,
            },
    {
        let id = self.generate_packet_id();
        let packet = Packet::new(id, ptype, String::from_str(body));
        match packet.serialize(&mut self.io) {
            Ok(()) => Ok(id),
            Err(e) => Err(Error::Io(e)),
        }
    }

    /// Reads the next packet from the transport.
    fn receive_packet(&mut self) -> (res: Result<Packet, Error>)
        ensures
            final(self).wf() == old(self).wf(),
            final(self).same_options(*old(self)),
            final(self).spec_next_packet_id() == old(self).spec_next_packet_id(),
            final(self).spec_io().written() == old(self).spec_io().written(),
            final(self).spec_io().slept() == old(self).spec_io().slept(),
            match res {
                Ok(p) => {
                    &&& p.wf()
                    &&& decodes_to(old(self).spec_io().to_read(), p)
                    &&& final(self).spec_io().to_read() == old(self).spec_io().to_read().skip(
                        spec_wire_size(old(self).spec_io().to_read()),
                    )
                },
                Err(e) => e is Io || e is MalformedPacket,
            },
            (res matches Err(e) && e is MalformedPacket) ==> !spec_wire_ok(
                old(self).spec_io().to_read(),
            ),
    {
        Packet::deserialize(&mut self.io)
    }

    /// Hands the transport back, consuming the connection.
    pub fn into_inner(self) -> (t: T)
        ensures
            t == self.spec_io(),
    {
        self.io
    }

    /// Hands out the current id and advances it; only positive ids are
    /// used, as the server reserves negative ids for signalling a failed
    /// authentication request.
    fn generate_packet_id(&mut self) -> (id: i32)
        requires
            old(self).wf(),
        ensures
            final(self).wf(),
            final(self).same_options(*old(self)),
            final(self).spec_io() == old(self).spec_io(),
            id == old(self).spec_next_packet_id(),
            id >= INITIAL_PACKET_ID,
            final(self).spec_next_packet_id() == spec_next_id(id),
    {
        let id = self.next_packet_id;
        self.next_packet_id = match self.next_packet_id.checked_add(1) {
            Some(n) => n,
            None => INITIAL_PACKET_ID,
        };
        id
    }
}

} // verus!
