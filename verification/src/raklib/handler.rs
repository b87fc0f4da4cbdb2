//! Offline messages: the pings and handshake requests a server answers before a
//! connection exists.
use vstd::prelude::*;
use crate::binary::{BinaryStream, BinaryUtilError};
use crate::raklib::address::InternetAddress;
use crate::raklib::protocol::{check_magic, magic_bytes};
use crate::raklib::protocol::consts::{
    ID_UNCONNECTED_PING,
    ID_UNCONNECTED_PING_OPEN_CONNECTIONS,
    ID_UNCONNECTED_PONG,
    ID_OPEN_CONNECTION_REQUEST_1,
    ID_OPEN_CONNECTION_REQUEST_2,
    ID_OPEN_CONNECTION_REPLY_1,
    ID_OPEN_CONNECTION_REPLY_2,
    ID_INCOMPATIBLE_PROTOCOL_VERSION,
};
use crate::raklib::protocol::packets::{
    UnconnectedPing,
    UnconnectedPingOpenConnections,
    UnconnectedPong,
    OpenConnectionRequest1,
    OpenConnectionRequest2,
    OpenConnectionReply1,
    OpenConnectionReply2,
    IncompatibleProtocolVersion,
    enc_unconnected_pong,
    enc_reply1,
    enc_reply2,
    enc_incompatible,
    parse_unconnected_ping,
    parse_request2,
};
use vstd::utf8::encode_utf8;

verus! {

/// The largest MTU the server offers.
pub const SERVER_MTU: u16 = 1492;

/// The smallest MTU the server accepts for a connection.
pub const MIN_MTU_SIZE: u16 = 400;

/// Accepts exactly one RakNet protocol version.
#[derive(Debug, Clone, Copy, PartialEq, Eq, Structural)]
pub struct SimpleProtocolAcceptor {
    pub protocol_version: u8,
}

impl SimpleProtocolAcceptor {
    pub fn new(protocol_version: u8) -> (r: Self)
        ensures
            r.protocol_version == protocol_version,
    {
        SimpleProtocolAcceptor { protocol_version }
    }

    /// Whether a client speaking `protocol` is accepted.
    pub fn accepts(&self, protocol: u8) -> (r: bool)
        ensures
            r == (protocol == self.protocol_version),
    {
        protocol == self.protocol_version
    }

    /// The version the server speaks, told to clients it refuses.
    pub fn primary_version(&self) -> (r: u8)
        ensures
            r == self.protocol_version,
    {
        self.protocol_version
    }
}

/// An offline message a server answers.
#[derive(Debug, Clone)]
pub enum OfflinePacket {
    UnconnectedPing(UnconnectedPing),
    UnconnectedPingOpenConnections(UnconnectedPingOpenConnections),
    OpenConnectionRequest1(OpenConnectionRequest1),
    OpenConnectionRequest2(OpenConnectionRequest2),
}

/// Whether the bytes carry the offline marker right after the id byte.
pub open spec fn has_offline_magic(p: Seq<u8>) -> bool {
    p.len() >= 17 && p.subrange(1, 17) == magic_bytes()
}

/// What decoding an offline message from the bytes `p` gives: nothing when the bytes are
/// empty, lack the marker or carry another id; else the message, or the error of its
/// payload. A first open connection request takes its MTU from the size of the bytes.
pub open spec fn offline_decoded(
    p: Seq<u8>,
    r: Result<Option<OfflinePacket>, BinaryUtilError>,
) -> bool {
    if p.len() == 0 || !has_offline_magic(p) {
        r matches Ok(None)
    } else if p[0] == ID_UNCONNECTED_PING || p[0] == ID_UNCONNECTED_PING_OPEN_CONNECTIONS {
        match parse_unconnected_ping(p.skip(1)) {
            Ok((v, _)) => if p[0] == ID_UNCONNECTED_PING {
                r matches Ok(Some(OfflinePacket::UnconnectedPing(q))) && q == v
            } else {
                r matches Ok(Some(OfflinePacket::UnconnectedPingOpenConnections(q))) && q.0 == v
            },
            Err(short) => r matches Err(e) && e.is_short() == short,
        }
    } else if p[0] == ID_OPEN_CONNECTION_REQUEST_1 {
        if p.len() < 18 {
            r matches Err(e) && e.is_short()
        } else {
            r matches Ok(Some(OfflinePacket::OpenConnectionRequest1(q))) && q.protocol == p[17]
                && q.mtu_size == p.len() as u16
        }
    } else if p[0] == ID_OPEN_CONNECTION_REQUEST_2 {
        match parse_request2(p.skip(1)) {
            Ok((v, _)) => r matches Ok(Some(OfflinePacket::OpenConnectionRequest2(q)))
                && q.server_address@ == v.0 && q.mtu_size == v.1 && q.client_id == v.2,
            Err(short) => r matches Err(e) && e.is_short() == short,
        }
    } else {
        r matches Ok(None)
    }
}

/// Whether the bytes carry the offline marker right after the id byte.
pub fn check_offline_magic(payload: &[u8]) -> (r: bool)
    ensures
        r == has_offline_magic(payload@),
{
    if payload.len() < 17 {
        return false;
    }
    let marker = vstd::slice::slice_subrange(payload, 1, 17);
    check_magic(marker)
}

/// Decodes an offline message; see `offline_decoded`.
pub fn decode_offline(payload: &[u8]) -> (r: Result<Option<OfflinePacket>, BinaryUtilError>)
    ensures
        offline_decoded(payload@, r),
{
    if payload.len() == 0 {
        return Ok(None);
    }
    let packet_id = payload[0];
    if !check_offline_magic(payload) {
        return Ok(None);
    }
    let mut stream = BinaryStream::from_slice(payload);
    if packet_id == ID_UNCONNECTED_PING || packet_id == ID_UNCONNECTED_PING_OPEN_CONNECTIONS
        || packet_id == ID_OPEN_CONNECTION_REQUEST_1 || packet_id == ID_OPEN_CONNECTION_REQUEST_2 {
        let ghost s0 = stream;
        stream.get_u8()?;
        proof {
            BinaryStream::lemma_advanced(s0, stream, 1);
            assert(stream.remaining() =~= payload@.skip(1));
        }
        if packet_id == ID_UNCONNECTED_PING {
            let pk = UnconnectedPing::decode(&mut stream)?;
            Ok(Some(OfflinePacket::UnconnectedPing(pk)))
        } else if packet_id == ID_UNCONNECTED_PING_OPEN_CONNECTIONS {
            let pk = UnconnectedPingOpenConnections::decode(&mut stream)?;
            Ok(Some(OfflinePacket::UnconnectedPingOpenConnections(pk)))
        } else if packet_id == ID_OPEN_CONNECTION_REQUEST_1 {
            proof {
                assert(payload@.skip(1).take(16) =~= payload@.subrange(1, 17));
                if payload@.len() >= 18 {
                    assert(payload@.skip(1)[16] == payload@[17]);
                }
            }
            let mut pk = OpenConnectionRequest1::decode(&mut stream)?;
            pk.mtu_size = payload.len() as u16;
            Ok(Some(OfflinePacket::OpenConnectionRequest1(pk)))
        } else {
            let pk = OpenConnectionRequest2::decode(&mut stream)?;
            Ok(Some(OfflinePacket::OpenConnectionRequest2(pk)))
        }
    } else {
        Ok(None)
    }
}

/// What the server does with an offline message.
#[derive(Debug)]
pub enum OfflineReply {
    /// The bytes are not an offline message.
    Ignored,
    /// The message was handled and nothing is sent back.
    Dropped,
    /// The message was handled; these bytes go back to the sender.
    Send(Vec<u8>),
}

impl OfflineReply {
    /// Whether the bytes were an offline message.
    pub fn is_handled(&self) -> (r: bool)
        ensures
            r == !(self is Ignored),
    {
        match self {
            OfflineReply::Ignored => false,
            _ => true,
        }
    }
}

/// The smaller of the client's MTU and the server's.
pub open spec fn session_mtu(client_mtu: u16) -> u16 {
    if client_mtu < SERVER_MTU {
        client_mtu
    } else {
        SERVER_MTU
    }
}

/// The server's name in pong replies.
pub open spec fn server_name_chars() -> Seq<char> {
    "Rust RakNet Server"@
}

/// Answers offline messages for a server: pings get a pong, a first open connection
/// request gets the MTU or, for a protocol the server does not speak, its version, and a
/// second request gets the session's MTU unless it is too small.
#[derive(Debug)]
pub struct UnconnectedMessageHandler {
    server_id: u64,
    protocol_acceptor: SimpleProtocolAcceptor,
}

impl UnconnectedMessageHandler {
    pub closed spec fn spec_server_id(&self) -> u64 {
        self.server_id
    }

    pub closed spec fn spec_acceptor(&self) -> SimpleProtocolAcceptor {
        self.protocol_acceptor
    }

    pub fn new(server_id: u64, protocol_acceptor: SimpleProtocolAcceptor) -> (r: Self)
        ensures
            r.spec_server_id() == server_id,
            r.spec_acceptor() == protocol_acceptor,
    {
        UnconnectedMessageHandler { server_id, protocol_acceptor }
    }

    /// The answer to an offline message from `addr`.
    pub fn handle_offline_message(&self, packet: OfflinePacket, addr: InternetAddress) -> (r:
        Result<OfflineReply, BinaryUtilError>)
        ensures
            offline_answer(self.spec_server_id(), self.spec_acceptor(), packet, addr, r),
    {
        match packet {
            OfflinePacket::UnconnectedPing(pk) => self.pong(pk.send_ping_time),
            OfflinePacket::UnconnectedPingOpenConnections(pk) => self.pong(pk.0.send_ping_time),
            OfflinePacket::OpenConnectionRequest1(pk) => {
                let mut stream = BinaryStream::new();
                if !self.protocol_acceptor.accepts(pk.protocol) {
                    let reply = IncompatibleProtocolVersion::create(
                        self.protocol_acceptor.primary_version(),
                        self.server_id,
                    );
                    reply.encode(&mut stream)?;
                } else {
                    let reply_mtu = if pk.mtu_size < SERVER_MTU {
                        pk.mtu_size
                    } else {
                        SERVER_MTU
                    };
                    let reply = OpenConnectionReply1::create(self.server_id, false, reply_mtu);
                    reply.encode(&mut stream)?;
                }
                Ok(OfflineReply::Send(stream.into_inner()))
            },
            OfflinePacket::OpenConnectionRequest2(pk) => {
                let mtu = if pk.mtu_size < SERVER_MTU {
                    pk.mtu_size
                } else {
                    SERVER_MTU
                };
                if mtu < MIN_MTU_SIZE {
                    return Ok(OfflineReply::Dropped);
                }
                let reply = OpenConnectionReply2::create(self.server_id, addr, mtu, false);
                let mut stream = BinaryStream::new();
                reply.encode(&mut stream)?;
                Ok(OfflineReply::Send(stream.into_inner()))
            },
        }
    }

    /// A pong for a ping sent at `send_ping_time`.
    fn pong(&self, send_ping_time: u64) -> (r: Result<OfflineReply, BinaryUtilError>)
        ensures
            pong_reply(send_ping_time, self.spec_server_id(), r),
    {
        let name = "Rust RakNet Server".to_owned();
        let pong = UnconnectedPong::create(send_ping_time, self.server_id, name);
        let mut stream = BinaryStream::new();
        pong.encode(&mut stream)?;
        Ok(OfflineReply::Send(stream.into_inner()))
    }

    /// Handles bytes that arrived outside any connection: decodes an offline message and
    /// answers it, or tells that the bytes are no offline message, or gives the error of a
    /// message that does not decode.
    pub fn handle_raw(&self, payload: &[u8], addr: InternetAddress) -> (r: Result<
        OfflineReply,
        BinaryUtilError,
    >)
        ensures
            raw_outcome(self.spec_server_id(), self.spec_acceptor(), payload@, addr, r),
    {
        if payload.len() == 0 {
            assert(offline_decoded(payload@, Ok(None)));
            return Ok(OfflineReply::Ignored);
        }
        match decode_offline(payload) {
            Ok(Some(packet)) => self.handle_offline_message(packet, addr),
            Ok(None) => Ok(OfflineReply::Ignored),
            Err(e) => Err(e),
        }
    }
}

/// The bytes were no offline message.
pub open spec fn ignored(r: Result<OfflineReply, BinaryUtilError>) -> bool {
    r matches Ok(OfflineReply::Ignored)
}

/// What bytes from `addr` outside any connection lead to: nothing to answer when they are
/// empty or carry no offline marker or an unknown id; otherwise the answer to the message
/// they decode to, or the error of their decoding.
pub open spec fn raw_outcome(
    server_id: u64,
    acceptor: SimpleProtocolAcceptor,
    payload: Seq<u8>,
    addr: InternetAddress,
    r: Result<OfflineReply, BinaryUtilError>,
) -> bool {
    &&& payload.len() == 0 ==> ignored(r)
    &&& !has_offline_magic(payload) ==> ignored(r)
    &&& has_offline_magic(payload) && !(payload[0] == ID_UNCONNECTED_PING || payload[0]
        == ID_UNCONNECTED_PING_OPEN_CONNECTIONS || payload[0] == ID_OPEN_CONNECTION_REQUEST_1
        || payload[0] == ID_OPEN_CONNECTION_REQUEST_2) ==> ignored(r)
    &&& exists|d: Result<Option<OfflinePacket>, BinaryUtilError>|
        #![trigger offline_decoded(payload, d)]
        offline_decoded(payload, d) && match d {
            Ok(None) => ignored(r),
            Ok(Some(p)) => offline_answer(server_id, acceptor, p, addr, r),
            Err(e) => r == Err::<OfflineReply, BinaryUtilError>(e),
        }
}

/// The answer to an offline message from `addr`: pings get a pong; a first open
/// connection request gets the session MTU when its protocol is accepted, else the server's
/// version; a second request gets the session MTU and the client's address, unless the MTU
/// is below the minimum, when it is dropped.
pub open spec fn offline_answer(
    server_id: u64,
    acceptor: SimpleProtocolAcceptor,
    packet: OfflinePacket,
    addr: InternetAddress,
    r: Result<OfflineReply, BinaryUtilError>,
) -> bool {
    match packet {
        OfflinePacket::UnconnectedPing(pk) => pong_reply(
            pk.send_ping_time,
            server_id,
            r,
        ),
        OfflinePacket::UnconnectedPingOpenConnections(pk) => pong_reply(
            pk.0.send_ping_time,
            server_id,
            r,
        ),
        OfflinePacket::OpenConnectionRequest1(pk) => if pk.protocol
            == acceptor.protocol_version {
            r matches Ok(OfflineReply::Send(b)) && b@ == seq![ID_OPEN_CONNECTION_REPLY_1]
                + enc_reply1(
                OpenConnectionReply1 {
                    server_id: server_id,
                    server_security: false,
                    mtu_size: session_mtu(pk.mtu_size),
                },
            )
        } else {
            r matches Ok(OfflineReply::Send(b)) && b@ == seq![
                ID_INCOMPATIBLE_PROTOCOL_VERSION,
            ] + enc_incompatible(
                IncompatibleProtocolVersion {
                    protocol_version: acceptor.protocol_version,
                    server_id: server_id,
                },
            )
        },
        OfflinePacket::OpenConnectionRequest2(pk) => if session_mtu(pk.mtu_size)
            < MIN_MTU_SIZE {
            r matches Ok(OfflineReply::Dropped)
        } else {
            r matches Ok(OfflineReply::Send(b)) && exists|family: u16|
                b@ == seq![ID_OPEN_CONNECTION_REPLY_2] + enc_reply2(
                    OpenConnectionReply2 {
                        server_id: server_id,
                        client_address: addr,
                        mtu_size: session_mtu(pk.mtu_size),
                        server_security: false,
                    },
                    family,
                )
        },
    }
}

/// A pong for a ping sent at `time`, from the server with id `server_id`.
pub open spec fn pong_reply(time: u64, server_id: u64, r: Result<OfflineReply, BinaryUtilError>) -> bool {
    encode_utf8(server_name_chars()).len() <= 0xffff ==> (r matches Ok(OfflineReply::Send(b))
        && b@ == seq![ID_UNCONNECTED_PONG] + enc_unconnected_pong(
        time,
        server_id,
        server_name_chars(),
    ))
}

} // verus!
