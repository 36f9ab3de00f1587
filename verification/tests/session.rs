// Session-level tests: handshake, command dispatch, multi-packet
// reassembly and the per-variant quirks, driven over in-memory transports
// holding fabricated server responses.

use rcon::battlefield3::Btf3Connection;
use rcon::battlefield3::Btf3Packet;
use rcon::error::Error;
use rcon::factorio::FactorioPacket;
use rcon::packet::{Packet, PacketType};
use rcon::transport::MemoryTransport;
use rcon::{Builder, Connection};

fn response(id: i32, body: &str) -> Vec<u8> {
    Packet::new(id, PacketType::ResponseValue, String::from(body)).encode()
}

fn auth_response(id: i32) -> Vec<u8> {
    Packet::new(id, PacketType::AuthResponse, String::from("")).encode()
}

#[test]
fn multi_packet_reassembly() {
    // the response is split across two packets; a zero-length fragment
    // carrying the remembered end-marker id closes it
    let mut incoming = Vec::new();
    incoming.extend_from_slice(&response(1, "Hello, "));
    incoming.extend_from_slice(&response(1, "World!"));
    incoming.extend_from_slice(&response(2, ""));
    let t = MemoryTransport::new(incoming);
    let mut conn = Builder::new().handshake(t, "").unwrap();
    assert_eq!(conn.cmd("list").unwrap(), "Hello, World!");
}

#[test]
fn reassembly_discards_end_marker_body() {
    let mut incoming = Vec::new();
    incoming.extend_from_slice(&response(1, "payload"));
    incoming.extend_from_slice(&response(2, "ignored"));
    let t = MemoryTransport::new(incoming);
    let mut conn = Builder::new().handshake(t, "").unwrap();
    assert_eq!(conn.cmd("q").unwrap(), "payload");
}

#[test]
fn command_sends_packet_and_end_marker() {
    let mut incoming = Vec::new();
    incoming.extend_from_slice(&response(2, ""));
    let t = MemoryTransport::new(incoming);
    let mut conn = Builder::new().handshake(t, "").unwrap();
    assert_eq!(conn.cmd("status").unwrap(), "");
    // wire bytes: the command packet under id 1, then the empty
    // end-marker packet under id 2
    let mut expected = Packet::new(1, PacketType::ExecCommand, String::from("status")).encode();
    expected.extend_from_slice(&Packet::new(2, PacketType::ExecCommand, String::from("")).encode());
    assert_eq!(conn.into_inner().outgoing(), &expected);
}

#[test]
fn oversized_minecraft_command() {
    // one byte over the Minecraft payload bound: rejected, nothing sent
    let t = MemoryTransport::new(Vec::new());
    let mut conn = Builder::new()
        .enable_minecraft_quirks(true)
        .handshake(t, "")
        .unwrap();
    let long = "a".repeat(1414);
    assert_eq!(conn.cmd(&long), Err(Error::CommandTooLong));
    // no bytes were issued on the transport
    assert!(conn.into_inner().outgoing().is_empty());
}

#[test]
fn minecraft_bound_is_exact() {
    let mut incoming = Vec::new();
    incoming.extend_from_slice(&response(2, ""));
    let t = MemoryTransport::new(incoming);
    let mut conn = Builder::new()
        .enable_minecraft_quirks(true)
        .handshake(t, "")
        .unwrap();
    let edge = "a".repeat(1413);
    assert_eq!(conn.cmd(&edge).unwrap(), "");
}

#[test]
fn source_engine_has_no_length_bound() {
    let mut incoming = Vec::new();
    incoming.extend_from_slice(&response(2, ""));
    let t = MemoryTransport::new(incoming);
    let mut conn = Builder::new().handshake(t, "").unwrap();
    let long = "a".repeat(1414);
    assert_eq!(conn.cmd(&long).unwrap(), "");
}

#[test]
fn auth_failure_negative_id() {
    // the server echoes an AuthResponse carrying a negative id
    let t = MemoryTransport::new(auth_response(-1));
    match Connection::handshake(t, "wrong password") {
        Err(Error::Auth) => (),
        other => panic!("expected an authentication failure, got {:?}", other.map(|_| ())),
    }
}

#[test]
fn auth_success_positive_id() {
    let t = MemoryTransport::new(auth_response(1));
    assert!(Connection::handshake(t, "hunter2").is_ok());
}

#[test]
fn auth_skips_other_packet_types() {
    // junk before the real AuthResponse is discarded
    let mut incoming = Vec::new();
    incoming.extend_from_slice(&response(1, "noise"));
    incoming.extend_from_slice(&auth_response(1));
    let t = MemoryTransport::new(incoming);
    assert!(Connection::handshake(t, "hunter2").is_ok());
}

#[test]
fn empty_password_skips_handshake() {
    // no Auth packet exchange at all: nothing written, nothing read
    let t = MemoryTransport::new(auth_response(-1));
    let conn = Connection::handshake(t, "").unwrap();
    let t = conn.into_inner();
    assert!(t.outgoing().is_empty());
    assert_eq!(t.remaining(), auth_response(-1).len());
}

#[test]
fn factorio_auth_is_mandatory() {
    // with Factorio quirks even an empty password performs the exchange
    let t = MemoryTransport::new(auth_response(1));
    let conn = Builder::new().enable_factorio_quirks(true).handshake(t, "");
    assert!(conn.is_ok());
    let t2 = MemoryTransport::new(Vec::new());
    let conn2 = Builder::new().enable_factorio_quirks(true).handshake(t2, "");
    assert!(conn2.is_err());
}

#[test]
fn factorio_single_packet_response() {
    // single-packet-only mode: exactly one packet, no end marker awaited
    let mut incoming = Vec::new();
    incoming.extend_from_slice(&auth_response(1));
    incoming.extend_from_slice(&response(2, "1.1.0"));
    let t = MemoryTransport::new(incoming);
    let mut conn = Builder::new()
        .enable_factorio_quirks(true)
        .handshake(t, "pw")
        .unwrap();
    assert_eq!(conn.cmd("/version").unwrap(), "1.1.0");
}

#[test]
fn io_failure_surfaces_as_io_error() {
    // the stream ends before any response arrives
    let t = MemoryTransport::new(Vec::new());
    let mut conn = Builder::new().handshake(t, "").unwrap();
    match conn.cmd("anyone there") {
        Err(Error::Io(_)) => (),
        other => panic!("expected a transport failure, got {:?}", other),
    }
}

#[test]
fn malformed_response_surfaces_as_malformed() {
    let mut incoming = Vec::new();
    // declared length below the fixed header size
    incoming.extend_from_slice(&[5, 0, 0, 0, 1, 0, 0, 0, 0, 0, 0, 0, 0, 0]);
    let t = MemoryTransport::new(incoming);
    let mut conn = Builder::new().handshake(t, "").unwrap();
    assert_eq!(conn.cmd("x"), Err(Error::MalformedPacket));
}

#[test]
fn ids_advance_across_commands() {
    // two commands: ids 1 and 2 frame the first, 3 and 4 the second
    let mut incoming = Vec::new();
    incoming.extend_from_slice(&response(2, ""));
    incoming.extend_from_slice(&response(4, ""));
    let t = MemoryTransport::new(incoming);
    let mut conn = Builder::new().handshake(t, "").unwrap();
    assert_eq!(conn.cmd("first").unwrap(), "");
    assert_eq!(conn.cmd("second").unwrap(), "");
}

#[test]
fn bf3_login_with_ok_response() {
    let incoming = Btf3Packet::new(1, PacketType::ResponseValue, String::from("OK")).encode();
    let t = MemoryTransport::new(incoming);
    let conn = Btf3Connection::handshake(t, "pass").unwrap();
    // the login went out as a word-framed command carrying the password
    let expected =
        Btf3Packet::new(1, PacketType::ExecCommand, String::from("login.PlainText pass")).encode();
    assert_eq!(conn.into_inner().outgoing(), &expected);
}

#[test]
fn bf3_login_rejected_without_ok() {
    let incoming =
        Btf3Packet::new(1, PacketType::ResponseValue, String::from("InvalidPassword")).encode();
    let t = MemoryTransport::new(incoming);
    match Btf3Connection::handshake(t, "bad") {
        Err(Error::Auth) => (),
        other => panic!("expected an authentication failure, got {:?}", other.map(|_| ())),
    }
}

#[test]
fn bf3_empty_password_skips_login() {
    let t = MemoryTransport::new(Vec::new());
    let conn = Btf3Connection::handshake(t, "").unwrap();
    assert!(conn.into_inner().outgoing().is_empty());
}

#[test]
fn bf3_command_single_response() {
    let incoming =
        Btf3Packet::new(1, PacketType::ResponseValue, String::from("OK 48 players")).encode();
    let t = MemoryTransport::new(incoming);
    let mut conn = Btf3Connection::handshake(t, "").unwrap();
    assert_eq!(conn.cmd("listPlayers").unwrap(), "OK 48 players");
}

#[test]
fn bf3_oversized_command() {
    let t = MemoryTransport::new(Vec::new());
    let mut conn = Btf3Connection::handshake(t, "").unwrap();
    let long = "a".repeat(16385);
    assert_eq!(conn.cmd(&long), Err(Error::CommandTooLong));
    // the bound is exact: one byte less goes out (and then fails only
    // because no response follows)
    let edge = "a".repeat(16384);
    match conn.cmd(&edge) {
        Err(Error::Io(_)) => (),
        other => panic!("expected a transport failure, got {:?}", other),
    }
}

#[test]
fn factorio_packet_flow_uses_auth_tag() {
    let p = FactorioPacket::new(1, PacketType::Auth, String::from("pw"));
    let bytes = p.encode();
    assert_eq!(bytes[8..12], [3, 0, 0, 0]);
}

#[test]
fn builder_entry_point_on_connection() {
    let t = MemoryTransport::new(Vec::new());
    let b = Connection::<MemoryTransport>::builder();
    assert!(b.handshake(t, "").is_ok());
}

#[test]
fn custom_sleep_duration_keeps_protocol_intact() {
    let mut incoming = Vec::new();
    incoming.extend_from_slice(&response(2, ""));
    let t = MemoryTransport::new(incoming);
    let mut conn = Builder::new()
        .enable_minecraft_quirks(true)
        .sleep_fn(0)
        .handshake(t, "")
        .unwrap();
    assert_eq!(conn.cmd("seed").unwrap(), "");
}

#[test]
fn unknown_tag_decodes_as_unknown() {
    let mut bytes = Packet::new(1, PacketType::ResponseValue, String::from("x")).encode();
    bytes[8] = 9;
    let mut t = MemoryTransport::new(bytes);
    let p = Packet::deserialize(&mut t).unwrap();
    assert_eq!(p.get_type(), PacketType::Unknown(9));
}

#[test]
fn factorio_negative_id_is_error() {
    let p = FactorioPacket::new(-7, PacketType::ResponseValue, String::from(""));
    assert!(p.is_error());
}
