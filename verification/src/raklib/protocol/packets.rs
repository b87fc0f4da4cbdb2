//! The RakNet handshake and connection packets.
use crate::binary::{
    be_u16, be_u64, enc_str16, lemma_u16_be, lemma_u64_be, parse_str16, u16_be, u64_be,
    BinaryStream, BinaryUtilError,
};
use crate::raklib::address::{
    af_inet6, enc_address, lemma_address_roundtrip, parse_address, InternetAddress, IpAddress,
};
use crate::raklib::protocol::consts::{
    ID_ADVERTISE_SYSTEM, ID_CONNECTED_PING, ID_CONNECTED_PONG, ID_CONNECTION_REQUEST,
    ID_CONNECTION_REQUEST_ACCEPTED, ID_DISCONNECTION_NOTIFICATION,
    ID_INCOMPATIBLE_PROTOCOL_VERSION, ID_NEW_INCOMING_CONNECTION, ID_OPEN_CONNECTION_REPLY_1,
    ID_OPEN_CONNECTION_REPLY_2, ID_OPEN_CONNECTION_REQUEST_1, ID_OPEN_CONNECTION_REQUEST_2,
    ID_UNCONNECTED_PING, ID_UNCONNECTED_PING_OPEN_CONNECTIONS, ID_UNCONNECTED_PONG,
};
use crate::raklib::protocol::{magic_bytes, read_magic, check_magic, write_magic};
use crate::raklib::DEFAULT_SYSTEM_ADDRESS_COUNT;
use vstd::prelude::*;
use vstd::utf8::encode_utf8;

verus! {

/// The outcome of a read from `before` that left `after`: the value and the bytes taken as
/// `p` says, or an error that says whether the bytes ran out.
pub open spec fn decoded<T>(
    before: BinaryStream,
    after: BinaryStream,
    r: Result<T, BinaryUtilError>,
    p: Result<(T, nat), bool>,
) -> bool {
    &&& after.data() == before.data()
    &&& match p {
        Ok((v, n)) => r == Ok::<T, BinaryUtilError>(v) && BinaryStream::advanced(before, after, n),
        Err(short) => r matches Err(e) && e.is_short() == short,
    }
}

/// A packet's id byte at the start of the bytes: an error if it is missing (`true`) or
/// another id (`false`).
pub open spec fn parse_id(s: Seq<u8>, id: u8) -> Result<nat, bool> {
    if s.len() < 1 {
        Err(true)
    } else if s[0] != id {
        Err(false)
    } else {
        Ok(1nat)
    }
}

/// Reads a packet's id byte and checks that it is `id`.
pub fn decode_header(stream: &mut BinaryStream, id: u8) -> (r: Result<(), BinaryUtilError>)
    ensures
        final(stream).data() == old(stream).data(),
        match parse_id(old(stream).remaining(), id) {
            Ok(n) => r is Ok && BinaryStream::advanced(*old(stream), *final(stream), n),
            Err(short) => r matches Err(e) && e.is_short() == short,
        },
{
    let b = stream.get_u8()?;
    if b != id {
        return Err(BinaryUtilError::InvalidData("Unexpected packet id".to_owned()));
    }
    Ok(())
}

/// Reads the offline marker and checks it.
fn expect_magic(stream: &mut BinaryStream) -> (r: Result<(), BinaryUtilError>)
    ensures
        final(stream).data() == old(stream).data(),
        old(stream).remaining().len() < 16 ==> (r matches Err(e) && e.is_short()),
        old(stream).remaining().len() >= 16 ==> BinaryStream::advanced(
            *old(stream),
            *final(stream),
            16,
        ) && (r is Ok <==> old(stream).remaining().take(16) == magic_bytes()) && (r matches Err(
            e,
        ) ==> !e.is_short()),
{
    let m = read_magic(stream)?;
    if !check_magic(m.as_slice()) {
        return Err(BinaryUtilError::InvalidData("Invalid magic".to_owned()));
    }
    Ok(())
}

/// The 64-bit value of the first eight bytes, big-endian, read back from its encoding.
proof fn lemma_u64_prefix(x: u64, rest: Seq<u8>)
    ensures
        be_u64(u64_be(x) + rest) == x,
{
    lemma_u64_be(x);
    assert((u64_be(x) + rest).subrange(0, 8) =~= u64_be(x));
    assert(be_u64(u64_be(x) + rest) == be_u64((u64_be(x) + rest).subrange(0, 8)));
}

/// The 16-bit value of the first two bytes, big-endian, read back from its encoding.
proof fn lemma_u16_prefix(x: u16, rest: Seq<u8>)
    ensures
        be_u16(u16_be(x) + rest) == x,
{
    lemma_u16_be(x);
    assert((u16_be(x) + rest).subrange(0, 2) =~= u16_be(x));
    assert(be_u16(u16_be(x) + rest) == be_u16((u16_be(x) + rest).subrange(0, 2)));
}

// ---------------------------------------------------------------------------
// UnconnectedPing
// ---------------------------------------------------------------------------

/// A ping sent before any connection, to find servers.
#[derive(Debug, Clone, Copy, PartialEq, Eq, Structural)]
pub struct UnconnectedPing {
    pub send_ping_time: u64,
    pub client_id: u64,
}

/// An unconnected ping's payload: the time, the marker, the client id.
pub open spec fn enc_unconnected_ping(p: UnconnectedPing) -> Seq<u8> {
    u64_be(p.send_ping_time) + magic_bytes() + u64_be(p.client_id)
}

/// Reads an unconnected ping's payload.
pub open spec fn parse_unconnected_ping(s: Seq<u8>) -> Result<(UnconnectedPing, nat), bool> {
    if s.len() < 24 {
        Err(true)
    } else if s.subrange(8, 24) != magic_bytes() {
        Err(false)
    } else if s.len() < 32 {
        Err(true)
    } else {
        Ok((UnconnectedPing { send_ping_time: be_u64(s), client_id: be_u64(s.skip(24)) }, 32nat))
    }
}

impl UnconnectedPing {
    pub fn id() -> (r: u8)
        ensures
            r == ID_UNCONNECTED_PING,
    {
        ID_UNCONNECTED_PING
    }

    pub fn encode(&self, stream: &mut BinaryStream) -> (r: Result<(), BinaryUtilError>)
        ensures
            r is Ok,
            final(stream).pos() == old(stream).pos(),
            final(stream).data() == old(stream).data() + seq![ID_UNCONNECTED_PING]
                + enc_unconnected_ping(*self),
    {
        stream.put_u8(ID_UNCONNECTED_PING);
        self.encode_payload(stream)?;
        proof {
            assert(stream.data() =~= old(stream).data() + seq![ID_UNCONNECTED_PING]
                + enc_unconnected_ping(*self));
        }
        Ok(())
    }

    pub fn encode_payload(&self, stream: &mut BinaryStream) -> (r: Result<(), BinaryUtilError>)
        ensures
            r is Ok,
            final(stream).pos() == old(stream).pos(),
            final(stream).data() == old(stream).data() + enc_unconnected_ping(*self),
    {
        stream.put_u64_be(self.send_ping_time);
        write_magic(stream);
        stream.put_u64_be(self.client_id);
        proof {
            assert(stream.data() =~= old(stream).data() + enc_unconnected_ping(*self));
        }
        Ok(())
    }

    /// Reads the payload; the id byte must already be read.
    pub fn decode(stream: &mut BinaryStream) -> (r: Result<Self, BinaryUtilError>)
        ensures
            decoded(*old(stream), *final(stream), r, parse_unconnected_ping(old(stream).remaining())),
    {
        let mut pk = UnconnectedPing { send_ping_time: 0, client_id: 0 };
        pk.decode_payload(stream)?;
        Ok(pk)
    }

    /// Reads the payload into this packet; on an error the packet is left as it was.
    pub fn decode_payload(&mut self, stream: &mut BinaryStream) -> (r: Result<(), BinaryUtilError>)
        ensures
            final(stream).data() == old(stream).data(),
            match parse_unconnected_ping(old(stream).remaining()) {
                Ok((v, n)) => r is Ok && *final(self) == v && BinaryStream::advanced(
                    *old(stream),
                    *final(stream),
                    n,
                ),
                Err(short) => (r matches Err(e) && e.is_short() == short) && *final(self) == *old(
                    self,
                ),
            },
    {
        let ghost s = stream.remaining();
        let ghost s0 = *stream;
        let send_ping_time = stream.get_u64_be()?;
        let ghost s1 = *stream;
        proof {
            BinaryStream::lemma_advanced(s0, s1, 8);
            if s.len() >= 24 {
                assert(s.skip(8).take(16) =~= s.subrange(8, 24));
            }
        }
        expect_magic(stream)?;
        let ghost s2 = *stream;
        proof {
            BinaryStream::lemma_advanced(s1, s2, 16);
            assert(s.skip(8).skip(16) =~= s.skip(24));
        }
        let client_id = stream.get_u64_be()?;
        self.send_ping_time = send_ping_time;
        self.client_id = client_id;
        Ok(())
    }
}

/// An unconnected ping reads back as itself.
pub proof fn lemma_unconnected_ping_roundtrip(p: UnconnectedPing, rest: Seq<u8>)
    ensures
        parse_unconnected_ping(enc_unconnected_ping(p) + rest) == Ok::<
            (UnconnectedPing, nat),
            bool,
        >((p, 32nat)),
{
    let s = enc_unconnected_ping(p) + rest;
    lemma_u64_prefix(p.send_ping_time, magic_bytes() + u64_be(p.client_id) + rest);
    assert(s =~= u64_be(p.send_ping_time) + (magic_bytes() + u64_be(p.client_id) + rest));
    assert(s.subrange(8, 24) =~= magic_bytes());
    assert(s.skip(24) =~= u64_be(p.client_id) + rest);
    lemma_u64_prefix(p.client_id, rest);
}

/// A ping sent before any connection, asking servers with open connections to answer.
#[derive(Debug, Clone, Copy, PartialEq, Eq, Structural)]
pub struct UnconnectedPingOpenConnections(pub UnconnectedPing);

impl UnconnectedPingOpenConnections {
    pub fn id() -> (r: u8)
        ensures
            r == ID_UNCONNECTED_PING_OPEN_CONNECTIONS,
    {
        ID_UNCONNECTED_PING_OPEN_CONNECTIONS
    }

    pub fn encode(&self, stream: &mut BinaryStream) -> (r: Result<(), BinaryUtilError>)
        ensures
            r is Ok,
            final(stream).pos() == old(stream).pos(),
            final(stream).data() == old(stream).data() + seq![ID_UNCONNECTED_PING_OPEN_CONNECTIONS]
                + enc_unconnected_ping(self.0),
    {
        stream.put_u8(ID_UNCONNECTED_PING_OPEN_CONNECTIONS);
        self.0.encode_payload(stream)?;
        proof {
            assert(stream.data() =~= old(stream).data() + seq![ID_UNCONNECTED_PING_OPEN_CONNECTIONS]
                + enc_unconnected_ping(self.0));
        }
        Ok(())
    }

    pub fn encode_payload(&self, stream: &mut BinaryStream) -> (r: Result<(), BinaryUtilError>)
        ensures
            r is Ok,
            final(stream).pos() == old(stream).pos(),
            final(stream).data() == old(stream).data() + enc_unconnected_ping(self.0),
    {
        self.0.encode_payload(stream)
    }

    /// Reads the payload; the id byte must already be read.
    pub fn decode(stream: &mut BinaryStream) -> (r: Result<Self, BinaryUtilError>)
        ensures
            final(stream).data() == old(stream).data(),
            match parse_unconnected_ping(old(stream).remaining()) {
                Ok((v, n)) => r == Ok::<Self, BinaryUtilError>(UnconnectedPingOpenConnections(v))
                    && BinaryStream::advanced(*old(stream), *final(stream), n),
                Err(short) => r matches Err(e) && e.is_short() == short,
            },
    {
        let inner = UnconnectedPing::decode(stream)?;
        Ok(UnconnectedPingOpenConnections(inner))
    }

    pub fn decode_payload(&mut self, stream: &mut BinaryStream) -> (r: Result<(), BinaryUtilError>)
        ensures
            final(stream).data() == old(stream).data(),
            match parse_unconnected_ping(old(stream).remaining()) {
                Ok((v, n)) => r is Ok && final(self).0 == v && BinaryStream::advanced(
                    *old(stream),
                    *final(stream),
                    n,
                ),
                Err(short) => (r matches Err(e) && e.is_short() == short) && *final(self) == *old(
                    self,
                ),
            },
    {
        self.0.decode_payload(stream)
    }
}

// ---------------------------------------------------------------------------
// UnconnectedPong
// ---------------------------------------------------------------------------

/// A server's answer to an unconnected ping.
#[derive(Debug, Clone)]
pub struct UnconnectedPong {
    pub send_ping_time: u64,
    pub server_id: u64,
    pub server_name: String,
}

/// An unconnected pong's payload: the ping time, the server id, the marker, the name.
pub open spec fn enc_unconnected_pong(time: u64, server_id: u64, name: Seq<char>) -> Seq<u8> {
    u64_be(time) + u64_be(server_id) + magic_bytes() + enc_str16(name)
}

/// Reads an unconnected pong's payload: the ping time, the server id and the name.
pub open spec fn parse_unconnected_pong(s: Seq<u8>) -> Result<((u64, u64, Seq<char>), nat), bool> {
    if s.len() < 32 {
        Err(true)
    } else if s.subrange(16, 32) != magic_bytes() {
        Err(false)
    } else {
        match parse_str16(s.skip(32)) {
            Ok((name, n)) => Ok(((be_u64(s), be_u64(s.skip(8)), name), 32 + n)),
            Err(short) => Err(short),
        }
    }
}

impl UnconnectedPong {
    pub fn create(send_ping_time: u64, server_id: u64, server_name: String) -> (r: Self)
        ensures
            r.send_ping_time == send_ping_time,
            r.server_id == server_id,
            r.server_name@ == server_name@,
    {
        UnconnectedPong { send_ping_time, server_id, server_name }
    }

    pub fn id() -> (r: u8)
        ensures
            r == ID_UNCONNECTED_PONG,
    {
        ID_UNCONNECTED_PONG
    }

    /// Writes the id and payload; a name longer than 65535 bytes is refused.
    pub fn encode(&self, stream: &mut BinaryStream) -> (r: Result<(), BinaryUtilError>)
        ensures
            final(stream).pos() == old(stream).pos(),
            encode_utf8(self.server_name@).len() <= 0xffff ==> r is Ok && final(stream).data()
                == old(stream).data() + seq![ID_UNCONNECTED_PONG] + enc_unconnected_pong(
                self.send_ping_time,
                self.server_id,
                self.server_name@,
            ),
            encode_utf8(self.server_name@).len() > 0xffff ==> r is Err,
    {
        stream.put_u8(ID_UNCONNECTED_PONG);
        self.encode_payload(stream)?;
        proof {
            assert(stream.data() =~= old(stream).data() + seq![ID_UNCONNECTED_PONG]
                + enc_unconnected_pong(self.send_ping_time, self.server_id, self.server_name@));
        }
        Ok(())
    }

    pub fn encode_payload(&self, stream: &mut BinaryStream) -> (r: Result<(), BinaryUtilError>)
        ensures
            final(stream).pos() == old(stream).pos(),
            encode_utf8(self.server_name@).len() <= 0xffff ==> r is Ok && final(stream).data()
                == old(stream).data() + enc_unconnected_pong(
                self.send_ping_time,
                self.server_id,
                self.server_name@,
            ),
            encode_utf8(self.server_name@).len() > 0xffff ==> r is Err,
    {
        stream.put_u64_be(self.send_ping_time);
        stream.put_u64_be(self.server_id);
        write_magic(stream);
        stream.put_string(self.server_name.as_str())?;
        proof {
            assert(stream.data() =~= old(stream).data() + enc_unconnected_pong(
                self.send_ping_time,
                self.server_id,
                self.server_name@,
            ));
        }
        Ok(())
    }

    /// Reads the payload; the id byte must already be read.
    pub fn decode(stream: &mut BinaryStream) -> (r: Result<Self, BinaryUtilError>)
        ensures
            final(stream).data() == old(stream).data(),
            match parse_unconnected_pong(old(stream).remaining()) {
                Ok((v, n)) => (r matches Ok(p) && p.send_ping_time == v.0 && p.server_id == v.1
                    && p.server_name@ == v.2) && BinaryStream::advanced(*old(stream), *final(stream), n),
                Err(short) => r matches Err(e) && e.is_short() == short,
            },
    {
        let ghost s = stream.remaining();
        let ghost s0 = *stream;
        let send_ping_time = stream.get_u64_be()?;
        let ghost s1 = *stream;
        proof {
            BinaryStream::lemma_advanced(s0, s1, 8);
        }
        let server_id = stream.get_u64_be()?;
        let ghost s2 = *stream;
        proof {
            BinaryStream::lemma_advanced(s1, s2, 8);
            assert(s.skip(8).skip(8) =~= s.skip(16));
            if s.len() >= 32 {
                assert(s.skip(16).take(16) =~= s.subrange(16, 32));
            }
        }
        expect_magic(stream)?;
        let ghost s3 = *stream;
        proof {
            BinaryStream::lemma_advanced(s2, s3, 16);
            assert(s.skip(16).skip(16) =~= s.skip(32));
        }
        let server_name = stream.get_string()?;
        Ok(UnconnectedPong { send_ping_time, server_id, server_name })
    }
}

// ---------------------------------------------------------------------------
// OpenConnectionRequest1
// ---------------------------------------------------------------------------

/// The first request of a connection handshake; the packet's size tells the MTU.
#[derive(Debug, Clone, Copy, PartialEq, Eq, Structural)]
pub struct OpenConnectionRequest1 {
    pub protocol: u8,
    /// The size of the packet as received; when encoding, the size it is padded towards.
    pub mtu_size: u16,
}

/// The bytes of an open connection request before its padding: the id, the marker and
/// the protocol.
pub open spec fn request1_header_len() -> nat {
    18
}

/// The zero padding an open connection request gets: up to `mtu` bytes in all, the id
/// byte included; none when the MTU is zero.
pub open spec fn request1_padding(mtu: u16) -> nat {
    if mtu > request1_header_len() {
        (mtu - request1_header_len()) as nat
    } else {
        0
    }
}

/// An MTU too small to hold the request's id, marker and protocol; zero asks for no
/// padding.
pub open spec fn request1_mtu_too_small(mtu: u16) -> bool {
    0 < mtu < request1_header_len()
}

impl OpenConnectionRequest1 {
    pub fn id() -> (r: u8)
        ensures
            r == ID_OPEN_CONNECTION_REQUEST_1,
    {
        ID_OPEN_CONNECTION_REQUEST_1
    }

    /// Writes the id byte and the payload: a request with a non-zero MTU is exactly
    /// `mtu_size` bytes long.
    pub fn encode(&self, stream: &mut BinaryStream) -> (r: Result<(), BinaryUtilError>)
        ensures
            final(stream).pos() == old(stream).pos(),
            request1_mtu_too_small(self.mtu_size) ==> r is Err,
            !request1_mtu_too_small(self.mtu_size) ==> r is Ok && final(stream).data() == old(
                stream,
            ).data() + seq![ID_OPEN_CONNECTION_REQUEST_1] + magic_bytes() + seq![self.protocol]
                + Seq::new(request1_padding(self.mtu_size), |i: int| 0u8),
            r is Ok && self.mtu_size > 0 ==> final(stream).data().len() == old(stream).data().len()
                + self.mtu_size,
    {
        stream.put_u8(ID_OPEN_CONNECTION_REQUEST_1);
        self.encode_payload(stream)?;
        proof {
            assert(stream.data() =~= old(stream).data() + seq![ID_OPEN_CONNECTION_REQUEST_1]
                + magic_bytes() + seq![self.protocol] + Seq::new(
                request1_padding(self.mtu_size),
                |i: int| 0u8,
            ));
        }
        Ok(())
    }

    /// Writes the marker and protocol, then zeros so that, with the id byte written before
    /// them, the request is `mtu_size` bytes long. An MTU too small for that is refused.
    pub fn encode_payload(&self, stream: &mut BinaryStream) -> (r: Result<(), BinaryUtilError>)
        ensures
            final(stream).pos() == old(stream).pos(),
            request1_mtu_too_small(self.mtu_size) ==> r is Err,
            !request1_mtu_too_small(self.mtu_size) ==> r is Ok && final(stream).data() == old(
                stream,
            ).data() + magic_bytes() + seq![self.protocol] + Seq::new(
                request1_padding(self.mtu_size),
                |i: int| 0u8,
            ),
    {
        if self.mtu_size > 0 && self.mtu_size < 18 {
            return Err(BinaryUtilError::InvalidData("Cannot pad OpenConnectionRequest1 to MTU".to_owned()));
        }
        write_magic(stream);
        stream.put_u8(self.protocol);
        let padding_len: usize = if self.mtu_size > 18 {
            (self.mtu_size - 18) as usize
        } else {
            0
        };
        let mut zeros: Vec<u8> = Vec::new();
        let mut i: usize = 0;
        while i < padding_len
            invariant
                i <= padding_len,
                zeros@ == Seq::new(i as nat, |k: int| 0u8),
            decreases padding_len - i,
        {
            zeros.push(0u8);
            proof {
                assert(zeros@ =~= Seq::new((i + 1) as nat, |k: int| 0u8));
            }
            i = i + 1;
        }
        stream.put(zeros.as_slice());
        proof {
            assert(stream.data() =~= old(stream).data() + magic_bytes() + seq![self.protocol]
                + Seq::new(request1_padding(self.mtu_size), |i: int| 0u8));
        }
        Ok(())
    }

    /// Reads the payload (the id byte must already be read) and drops the padding; the
    /// MTU is left at zero for the caller to set from the packet's size.
    pub fn decode(stream: &mut BinaryStream) -> (r: Result<Self, BinaryUtilError>)
        ensures
            final(stream).data() == old(stream).data(),
            old(stream).remaining().len() < 16 ==> (r matches Err(e) && e.is_short()),
            old(stream).remaining().len() >= 16 && old(stream).remaining().take(16)
                != magic_bytes() ==> (r matches Err(e) && !e.is_short()),
            old(stream).remaining().len() >= 16 && old(stream).remaining().take(16)
                == magic_bytes() && old(stream).remaining().len() < 17 ==> (r matches Err(e)
                && e.is_short()),
            old(stream).remaining().len() >= 17 && old(stream).remaining().take(16)
                == magic_bytes() ==> r == Ok::<Self, BinaryUtilError>(
                OpenConnectionRequest1 { protocol: old(stream).remaining()[16], mtu_size: 0 },
            ) && final(stream).remaining().len() == 0,
    {
        let ghost s = stream.remaining();
        let ghost s0 = *stream;
        expect_magic(stream)?;
        let ghost s1 = *stream;
        proof {
            BinaryStream::lemma_advanced(s0, s1, 16);
        }
        let protocol = stream.get_u8()?;
        let _ = stream.get_remaining();
        proof {
            stream.lemma_pos();
        }
        Ok(OpenConnectionRequest1 { protocol, mtu_size: 0 })
    }
}

// ---------------------------------------------------------------------------
// OpenConnectionReply1
// ---------------------------------------------------------------------------

/// The server's answer to the first request: its id, whether it wants security, the MTU.
#[derive(Debug, Clone, Copy, PartialEq, Eq, Structural)]
pub struct OpenConnectionReply1 {
    pub server_id: u64,
    pub server_security: bool,
    pub mtu_size: u16,
}

/// An open connection reply's payload: the marker, the server id, the security byte, the
/// MTU.
pub open spec fn enc_reply1(p: OpenConnectionReply1) -> Seq<u8> {
    magic_bytes() + u64_be(p.server_id) + seq![
        if p.server_security {
            1u8
        } else {
            0u8
        },
    ] + u16_be(p.mtu_size)
}

pub open spec fn parse_reply1(s: Seq<u8>) -> Result<(OpenConnectionReply1, nat), bool> {
    if s.len() < 16 {
        Err(true)
    } else if s.take(16) != magic_bytes() {
        Err(false)
    } else if s.len() < 27 {
        Err(true)
    } else {
        Ok(
            (
                OpenConnectionReply1 {
                    server_id: be_u64(s.skip(16)),
                    server_security: s[24] != 0,
                    mtu_size: be_u16(s.skip(25)),
                },
                27nat,
            ),
        )
    }
}

impl OpenConnectionReply1 {
    pub fn create(server_id: u64, server_security: bool, mtu_size: u16) -> (r: Self)
        ensures
            r == (OpenConnectionReply1 { server_id, server_security, mtu_size }),
    {
        OpenConnectionReply1 { server_id, server_security, mtu_size }
    }

    pub fn id() -> (r: u8)
        ensures
            r == ID_OPEN_CONNECTION_REPLY_1,
    {
        ID_OPEN_CONNECTION_REPLY_1
    }

    pub fn encode(&self, stream: &mut BinaryStream) -> (r: Result<(), BinaryUtilError>)
        ensures
            r is Ok,
            final(stream).pos() == old(stream).pos(),
            final(stream).data() == old(stream).data() + seq![ID_OPEN_CONNECTION_REPLY_1]
                + enc_reply1(*self),
    {
        stream.put_u8(ID_OPEN_CONNECTION_REPLY_1);
        write_magic(stream);
        stream.put_u64_be(self.server_id);
        stream.put_u8(if self.server_security { 1 } else { 0 });
        stream.put_u16_be(self.mtu_size);
        proof {
            assert(stream.data() =~= old(stream).data() + seq![ID_OPEN_CONNECTION_REPLY_1]
                + enc_reply1(*self));
        }
        Ok(())
    }

    /// Reads the payload; the id byte must already be read.
    pub fn decode(stream: &mut BinaryStream) -> (r: Result<Self, BinaryUtilError>)
        ensures
            decoded(*old(stream), *final(stream), r, parse_reply1(old(stream).remaining())),
    {
        let ghost s = stream.remaining();
        let ghost s0 = *stream;
        expect_magic(stream)?;
        let ghost s1 = *stream;
        proof {
            BinaryStream::lemma_advanced(s0, s1, 16);
        }
        let server_id = stream.get_u64_be()?;
        let ghost s2 = *stream;
        proof {
            BinaryStream::lemma_advanced(s1, s2, 8);
            assert(s.skip(16).skip(8) =~= s.skip(24));
        }
        let sec = stream.get_u8()?;
        let ghost s3 = *stream;
        proof {
            BinaryStream::lemma_advanced(s2, s3, 1);
            assert(s.skip(24).skip(1) =~= s.skip(25));
        }
        let mtu_size = stream.get_u16_be()?;
        Ok(OpenConnectionReply1 { server_id, server_security: sec != 0, mtu_size })
    }
}

/// An open connection reply reads back as itself.
pub proof fn lemma_reply1_roundtrip(p: OpenConnectionReply1, rest: Seq<u8>)
    ensures
        parse_reply1(enc_reply1(p) + rest) == Ok::<(OpenConnectionReply1, nat), bool>((p, 27nat)),
{
    let s = enc_reply1(p) + rest;
    assert(s.take(16) =~= magic_bytes());
    assert(s.skip(16) =~= u64_be(p.server_id) + (s.skip(24)));
    lemma_u64_prefix(p.server_id, s.skip(24));
    assert(s.skip(25) =~= u16_be(p.mtu_size) + rest);
    lemma_u16_prefix(p.mtu_size, rest);
}

// ---------------------------------------------------------------------------
// OpenConnectionRequest2 / OpenConnectionReply2
// ---------------------------------------------------------------------------

/// The second request of a connection handshake.
#[derive(Debug, Clone, Copy, PartialEq, Eq)]
pub struct OpenConnectionRequest2 {
    pub server_address: InternetAddress,
    pub mtu_size: u16,
    pub client_id: u64,
}

/// The second request's payload: the marker, the server address, the MTU, the client id.
pub open spec fn enc_request2(p: OpenConnectionRequest2, family: u16) -> Seq<u8> {
    magic_bytes() + enc_address(p.server_address@, family) + u16_be(p.mtu_size) + u64_be(
        p.client_id,
    )
}

/// Reads the second request's payload: the server address, the MTU and the client id.
pub open spec fn parse_request2(s: Seq<u8>) -> Result<(((Seq<u8>, u16), u16, u64), nat), bool> {
    if s.len() < 16 {
        Err(true)
    } else if s.take(16) != magic_bytes() {
        Err(false)
    } else {
        match parse_address(s.skip(16)) {
            Err(short) => Err(short),
            Ok((a, k)) => if s.len() < 16 + k + 10 {
                Err(true)
            } else {
                Ok(
                    (
                        (a, be_u16(s.skip((16 + k) as int)), be_u64(s.skip((16 + k + 2) as int))),
                        (16 + k + 10) as nat,
                    ),
                )
            },
        }
    }
}

impl OpenConnectionRequest2 {
    pub fn id() -> (r: u8)
        ensures
            r == ID_OPEN_CONNECTION_REQUEST_2,
    {
        ID_OPEN_CONNECTION_REQUEST_2
    }

    pub fn encode(&self, stream: &mut BinaryStream) -> (r: Result<(), BinaryUtilError>)
        ensures
            r is Ok,
            final(stream).pos() == old(stream).pos(),
            exists|family: u16|
                final(stream).data() == old(stream).data() + seq![ID_OPEN_CONNECTION_REQUEST_2]
                    + enc_request2(*self, family),
    {
        let family = af_inet6();
        stream.put_u8(ID_OPEN_CONNECTION_REQUEST_2);
        write_magic(stream);
        self.server_address.write_with_family(stream, family);
        stream.put_u16_be(self.mtu_size);
        stream.put_u64_be(self.client_id);
        proof {
            assert(stream.data() =~= old(stream).data() + seq![ID_OPEN_CONNECTION_REQUEST_2]
                + enc_request2(*self, family));
        }
        Ok(())
    }

    /// Reads the payload; the id byte must already be read.
    pub fn decode(stream: &mut BinaryStream) -> (r: Result<Self, BinaryUtilError>)
        ensures
            final(stream).data() == old(stream).data(),
            match parse_request2(old(stream).remaining()) {
                Ok((v, n)) => (r matches Ok(p) && p.server_address@ == v.0 && p.mtu_size == v.1
                    && p.client_id == v.2) && BinaryStream::advanced(*old(stream), *final(stream), n),
                Err(short) => r matches Err(e) && e.is_short() == short,
            },
    {
        let ghost s = stream.remaining();
        let ghost s0 = *stream;
        expect_magic(stream)?;
        let ghost s1 = *stream;
        proof {
            BinaryStream::lemma_advanced(s0, s1, 16);
        }
        let server_address = InternetAddress::read_from(stream)?;
        let ghost k: nat = match parse_address(s.skip(16)) {
            Ok((_, j)) => j,
            Err(_) => 0,
        };
        let ghost s2 = *stream;
        proof {
            BinaryStream::lemma_advanced(s1, s2, k);
            assert(s.skip(16).skip(k as int) =~= s.skip((16 + k) as int));
        }
        let mtu_size = stream.get_u16_be()?;
        let ghost s3 = *stream;
        proof {
            BinaryStream::lemma_advanced(s2, s3, 2);
            assert(s.skip((16 + k) as int).skip(2) =~= s.skip((16 + k + 2) as int));
        }
        let client_id = stream.get_u64_be()?;
        Ok(OpenConnectionRequest2 { server_address, mtu_size, client_id })
    }
}

/// The server's answer to the second request.
#[derive(Debug, Clone, Copy, PartialEq, Eq)]
pub struct OpenConnectionReply2 {
    pub server_id: u64,
    pub client_address: InternetAddress,
    pub mtu_size: u16,
    pub server_security: bool,
}

/// The second reply's payload: the marker, the server id, the client address, the MTU,
/// the security byte.
pub open spec fn enc_reply2(p: OpenConnectionReply2, family: u16) -> Seq<u8> {
    magic_bytes() + u64_be(p.server_id) + enc_address(p.client_address@, family) + u16_be(
        p.mtu_size,
    ) + seq![
        if p.server_security {
            1u8
        } else {
            0u8
        },
    ]
}

impl OpenConnectionReply2 {
    pub fn create(
        server_id: u64,
        client_address: InternetAddress,
        mtu_size: u16,
        server_security: bool,
    ) -> (r: Self)
        ensures
            r == (OpenConnectionReply2 { server_id, client_address, mtu_size, server_security }),
    {
        OpenConnectionReply2 { server_id, client_address, mtu_size, server_security }
    }

    pub fn id() -> (r: u8)
        ensures
            r == ID_OPEN_CONNECTION_REPLY_2,
    {
        ID_OPEN_CONNECTION_REPLY_2
    }

    pub fn encode(&self, stream: &mut BinaryStream) -> (r: Result<(), BinaryUtilError>)
        ensures
            r is Ok,
            final(stream).pos() == old(stream).pos(),
            exists|family: u16|
                final(stream).data() == old(stream).data() + seq![ID_OPEN_CONNECTION_REPLY_2]
                    + enc_reply2(*self, family),
    {
        let family = af_inet6();
        stream.put_u8(ID_OPEN_CONNECTION_REPLY_2);
        write_magic(stream);
        stream.put_u64_be(self.server_id);
        self.client_address.write_with_family(stream, family);
        stream.put_u16_be(self.mtu_size);
        stream.put_u8(if self.server_security { 1 } else { 0 });
        proof {
            assert(stream.data() =~= old(stream).data() + seq![ID_OPEN_CONNECTION_REPLY_2]
                + enc_reply2(*self, family));
        }
        Ok(())
    }
}

// ---------------------------------------------------------------------------
// Connected packets with fixed layouts
// ---------------------------------------------------------------------------

/// A client's request to open a connection, sent inside a datagram.
#[derive(Debug, Clone, Copy, PartialEq, Eq, Structural)]
pub struct ConnectionRequest {
    pub client_id: u64,
    pub send_ping_time: u64,
    pub use_security: bool,
}

/// A connection request's payload: the client id, the time, the security byte.
pub open spec fn enc_connection_request(p: ConnectionRequest) -> Seq<u8> {
    u64_be(p.client_id) + u64_be(p.send_ping_time) + seq![
        if p.use_security {
            1u8
        } else {
            0u8
        },
    ]
}

/// Reads a connection request: its id byte, then its payload.
pub open spec fn parse_connection_request(s: Seq<u8>) -> Result<(ConnectionRequest, nat), bool> {
    match parse_id(s, ID_CONNECTION_REQUEST) {
        Err(short) => Err(short),
        Ok(_) => if s.len() < 18 {
            Err(true)
        } else {
            Ok(
                (
                    ConnectionRequest {
                        client_id: be_u64(s.skip(1)),
                        send_ping_time: be_u64(s.skip(9)),
                        use_security: s[17] != 0,
                    },
                    18nat,
                ),
            )
        },
    }
}

impl ConnectionRequest {
    pub fn id() -> (r: u8)
        ensures
            r == ID_CONNECTION_REQUEST,
    {
        ID_CONNECTION_REQUEST
    }

    pub fn encode(&self, stream: &mut BinaryStream) -> (r: Result<(), BinaryUtilError>)
        ensures
            r is Ok,
            final(stream).pos() == old(stream).pos(),
            final(stream).data() == old(stream).data() + seq![ID_CONNECTION_REQUEST]
                + enc_connection_request(*self),
    {
        stream.put_u8(ID_CONNECTION_REQUEST);
        stream.put_u64_be(self.client_id);
        stream.put_u64_be(self.send_ping_time);
        stream.put_u8(if self.use_security { 1 } else { 0 });
        proof {
            assert(stream.data() =~= old(stream).data() + seq![ID_CONNECTION_REQUEST]
                + enc_connection_request(*self));
        }
        Ok(())
    }

    /// Reads the id byte and the payload.
    pub fn decode(stream: &mut BinaryStream) -> (r: Result<Self, BinaryUtilError>)
        ensures
            decoded(
                *old(stream),
                *final(stream),
                r,
                parse_connection_request(old(stream).remaining()),
            ),
    {
        let ghost s = stream.remaining();
        let ghost s0 = *stream;
        decode_header(stream, ID_CONNECTION_REQUEST)?;
        let ghost s1 = *stream;
        proof {
            BinaryStream::lemma_advanced(s0, s1, 1);
        }
        let client_id = stream.get_u64_be()?;
        let ghost s2 = *stream;
        proof {
            BinaryStream::lemma_advanced(s1, s2, 8);
            assert(s.skip(1).skip(8) =~= s.skip(9));
        }
        let send_ping_time = stream.get_u64_be()?;
        let ghost s3 = *stream;
        proof {
            BinaryStream::lemma_advanced(s2, s3, 8);
        }
        let sec = stream.get_u8()?;
        Ok(ConnectionRequest { client_id, send_ping_time, use_security: sec != 0 })
    }
}

/// A connection request reads back as itself.
pub proof fn lemma_connection_request_roundtrip(p: ConnectionRequest, rest: Seq<u8>)
    ensures
        parse_connection_request(seq![ID_CONNECTION_REQUEST] + enc_connection_request(p) + rest)
            == Ok::<(ConnectionRequest, nat), bool>((p, 18nat)),
{
    let s = seq![ID_CONNECTION_REQUEST] + enc_connection_request(p) + rest;
    assert(s.skip(1) =~= u64_be(p.client_id) + s.skip(9));
    lemma_u64_prefix(p.client_id, s.skip(9));
    assert(s.skip(9) =~= u64_be(p.send_ping_time) + s.skip(17));
    lemma_u64_prefix(p.send_ping_time, s.skip(17));
}

/// A notice that the peer closes the connection; it has no payload.
#[derive(Debug, Clone, Copy, PartialEq, Eq, Default, Structural)]
pub struct DisconnectionNotification {}

impl DisconnectionNotification {
    pub fn id() -> (r: u8)
        ensures
            r == ID_DISCONNECTION_NOTIFICATION,
    {
        ID_DISCONNECTION_NOTIFICATION
    }

    pub fn encode(&self, stream: &mut BinaryStream) -> (r: Result<(), BinaryUtilError>)
        ensures
            r is Ok,
            final(stream).pos() == old(stream).pos(),
            final(stream).data() == old(stream).data() + seq![ID_DISCONNECTION_NOTIFICATION],
    {
        stream.put_u8(ID_DISCONNECTION_NOTIFICATION);
        Ok(())
    }

    /// Reads the id byte.
    pub fn decode(stream: &mut BinaryStream) -> (r: Result<Self, BinaryUtilError>)
        ensures
            final(stream).data() == old(stream).data(),
            match parse_id(old(stream).remaining(), ID_DISCONNECTION_NOTIFICATION) {
                Ok(n) => r is Ok && BinaryStream::advanced(*old(stream), *final(stream), n),
                Err(short) => r matches Err(e) && e.is_short() == short,
            },
    {
        decode_header(stream, ID_DISCONNECTION_NOTIFICATION)?;
        Ok(DisconnectionNotification {})
    }
}

/// A ping inside a connection.
#[derive(Debug, Clone, Copy, PartialEq, Eq, Structural)]
pub struct ConnectedPing {
    pub send_ping_time: u64,
}

pub open spec fn parse_connected_ping(s: Seq<u8>) -> Result<(ConnectedPing, nat), bool> {
    match parse_id(s, ID_CONNECTED_PING) {
        Err(short) => Err(short),
        Ok(_) => if s.len() < 9 {
            Err(true)
        } else {
            Ok((ConnectedPing { send_ping_time: be_u64(s.skip(1)) }, 9nat))
        },
    }
}

impl ConnectedPing {
    pub fn create(send_ping_time: u64) -> (r: Self)
        ensures
            r.send_ping_time == send_ping_time,
    {
        ConnectedPing { send_ping_time }
    }

    pub fn id() -> (r: u8)
        ensures
            r == ID_CONNECTED_PING,
    {
        ID_CONNECTED_PING
    }

    pub fn encode(&self, stream: &mut BinaryStream) -> (r: Result<(), BinaryUtilError>)
        ensures
            r is Ok,
            final(stream).pos() == old(stream).pos(),
            final(stream).data() == old(stream).data() + seq![ID_CONNECTED_PING] + u64_be(
                self.send_ping_time,
            ),
    {
        stream.put_u8(ID_CONNECTED_PING);
        stream.put_u64_be(self.send_ping_time);
        proof {
            assert(stream.data() =~= old(stream).data() + seq![ID_CONNECTED_PING] + u64_be(
                self.send_ping_time,
            ));
        }
        Ok(())
    }

    /// Reads the id byte and the payload.
    pub fn decode(stream: &mut BinaryStream) -> (r: Result<Self, BinaryUtilError>)
        ensures
            decoded(*old(stream), *final(stream), r, parse_connected_ping(old(stream).remaining())),
    {
        let ghost s0 = *stream;
        decode_header(stream, ID_CONNECTED_PING)?;
        proof {
            BinaryStream::lemma_advanced(s0, *stream, 1);
        }
        let send_ping_time = stream.get_u64_be()?;
        Ok(ConnectedPing { send_ping_time })
    }
}

/// A connected ping reads back as itself.
pub proof fn lemma_connected_ping_roundtrip(p: ConnectedPing, rest: Seq<u8>)
    ensures
        parse_connected_ping(seq![ID_CONNECTED_PING] + u64_be(p.send_ping_time) + rest) == Ok::<
            (ConnectedPing, nat),
            bool,
        >((p, 9nat)),
{
    let s = seq![ID_CONNECTED_PING] + u64_be(p.send_ping_time) + rest;
    assert(s.skip(1) =~= u64_be(p.send_ping_time) + rest);
    lemma_u64_prefix(p.send_ping_time, rest);
}

/// The answer to a connected ping.
#[derive(Debug, Clone, Copy, PartialEq, Eq, Structural)]
pub struct ConnectedPong {
    pub send_ping_time: u64,
    pub send_pong_time: u64,
}

pub open spec fn parse_connected_pong(s: Seq<u8>) -> Result<(ConnectedPong, nat), bool> {
    match parse_id(s, ID_CONNECTED_PONG) {
        Err(short) => Err(short),
        Ok(_) => if s.len() < 17 {
            Err(true)
        } else {
            Ok(
                (
                    ConnectedPong {
                        send_ping_time: be_u64(s.skip(1)),
                        send_pong_time: be_u64(s.skip(9)),
                    },
                    17nat,
                ),
            )
        },
    }
}

impl ConnectedPong {
    pub fn create(send_ping_time: u64, send_pong_time: u64) -> (r: Self)
        ensures
            r.send_ping_time == send_ping_time,
            r.send_pong_time == send_pong_time,
    {
        ConnectedPong { send_ping_time, send_pong_time }
    }

    pub fn id() -> (r: u8)
        ensures
            r == ID_CONNECTED_PONG,
    {
        ID_CONNECTED_PONG
    }

    pub fn encode(&self, stream: &mut BinaryStream) -> (r: Result<(), BinaryUtilError>)
        ensures
            r is Ok,
            final(stream).pos() == old(stream).pos(),
            final(stream).data() == old(stream).data() + seq![ID_CONNECTED_PONG] + u64_be(
                self.send_ping_time,
            ) + u64_be(self.send_pong_time),
    {
        stream.put_u8(ID_CONNECTED_PONG);
        stream.put_u64_be(self.send_ping_time);
        stream.put_u64_be(self.send_pong_time);
        proof {
            assert(stream.data() =~= old(stream).data() + seq![ID_CONNECTED_PONG] + u64_be(
                self.send_ping_time,
            ) + u64_be(self.send_pong_time));
        }
        Ok(())
    }

    /// Reads the id byte and the payload.
    pub fn decode(stream: &mut BinaryStream) -> (r: Result<Self, BinaryUtilError>)
        ensures
            decoded(*old(stream), *final(stream), r, parse_connected_pong(old(stream).remaining())),
    {
        let ghost s = stream.remaining();
        let ghost s0 = *stream;
        decode_header(stream, ID_CONNECTED_PONG)?;
        let ghost s1 = *stream;
        proof {
            BinaryStream::lemma_advanced(s0, s1, 1);
        }
        let send_ping_time = stream.get_u64_be()?;
        proof {
            BinaryStream::lemma_advanced(s1, *stream, 8);
            assert(s.skip(1).skip(8) =~= s.skip(9));
        }
        let send_pong_time = stream.get_u64_be()?;
        Ok(ConnectedPong { send_ping_time, send_pong_time })
    }
}

/// A connected pong reads back as itself.
pub proof fn lemma_connected_pong_roundtrip(p: ConnectedPong, rest: Seq<u8>)
    ensures
        parse_connected_pong(
            seq![ID_CONNECTED_PONG] + u64_be(p.send_ping_time) + u64_be(p.send_pong_time) + rest,
        ) == Ok::<(ConnectedPong, nat), bool>((p, 17nat)),
{
    let s = seq![ID_CONNECTED_PONG] + u64_be(p.send_ping_time) + u64_be(p.send_pong_time) + rest;
    assert(s.skip(1) =~= u64_be(p.send_ping_time) + s.skip(9));
    lemma_u64_prefix(p.send_ping_time, s.skip(9));
    assert(s.skip(9) =~= u64_be(p.send_pong_time) + rest);
    lemma_u64_prefix(p.send_pong_time, rest);
}

/// The server's refusal of a client that speaks another protocol version.
#[derive(Debug, Clone, Copy, PartialEq, Eq, Structural)]
pub struct IncompatibleProtocolVersion {
    pub protocol_version: u8,
    pub server_id: u64,
}

/// Its payload: the server's protocol version, the marker, the server id.
pub open spec fn enc_incompatible(p: IncompatibleProtocolVersion) -> Seq<u8> {
    seq![p.protocol_version] + magic_bytes() + u64_be(p.server_id)
}

pub open spec fn parse_incompatible(s: Seq<u8>) -> Result<(IncompatibleProtocolVersion, nat), bool> {
    if s.len() < 17 {
        Err(true)
    } else if s.subrange(1, 17) != magic_bytes() {
        Err(false)
    } else if s.len() < 25 {
        Err(true)
    } else {
        Ok(
            (
                IncompatibleProtocolVersion { protocol_version: s[0], server_id: be_u64(s.skip(17)) },
                25nat,
            ),
        )
    }
}

impl IncompatibleProtocolVersion {
    pub fn create(protocol_version: u8, server_id: u64) -> (r: Self)
        ensures
            r.protocol_version == protocol_version,
            r.server_id == server_id,
    {
        IncompatibleProtocolVersion { protocol_version, server_id }
    }

    pub fn id() -> (r: u8)
        ensures
            r == ID_INCOMPATIBLE_PROTOCOL_VERSION,
    {
        ID_INCOMPATIBLE_PROTOCOL_VERSION
    }

    pub fn encode(&self, stream: &mut BinaryStream) -> (r: Result<(), BinaryUtilError>)
        ensures
            r is Ok,
            final(stream).pos() == old(stream).pos(),
            final(stream).data() == old(stream).data() + seq![ID_INCOMPATIBLE_PROTOCOL_VERSION]
                + enc_incompatible(*self),
    {
        stream.put_u8(ID_INCOMPATIBLE_PROTOCOL_VERSION);
        stream.put_u8(self.protocol_version);
        write_magic(stream);
        stream.put_u64_be(self.server_id);
        proof {
            assert(stream.data() =~= old(stream).data() + seq![ID_INCOMPATIBLE_PROTOCOL_VERSION]
                + enc_incompatible(*self));
        }
        Ok(())
    }

    /// Reads the payload; the id byte must already be read.
    pub fn decode(stream: &mut BinaryStream) -> (r: Result<Self, BinaryUtilError>)
        ensures
            decoded(*old(stream), *final(stream), r, parse_incompatible(old(stream).remaining())),
    {
        let ghost s = stream.remaining();
        let ghost s0 = *stream;
        let protocol_version = stream.get_u8()?;
        let ghost s1 = *stream;
        proof {
            BinaryStream::lemma_advanced(s0, s1, 1);
            if s.len() >= 17 {
                assert(s.skip(1).take(16) =~= s.subrange(1, 17));
            }
        }
        expect_magic(stream)?;
        proof {
            BinaryStream::lemma_advanced(s1, *stream, 16);
            assert(s.skip(1).skip(16) =~= s.skip(17));
        }
        let server_id = stream.get_u64_be()?;
        Ok(IncompatibleProtocolVersion { protocol_version, server_id })
    }
}

/// An incompatible-version reply reads back as itself.
pub proof fn lemma_incompatible_roundtrip(p: IncompatibleProtocolVersion, rest: Seq<u8>)
    ensures
        parse_incompatible(enc_incompatible(p) + rest) == Ok::<
            (IncompatibleProtocolVersion, nat),
            bool,
        >((p, 25nat)),
{
    let s = enc_incompatible(p) + rest;
    assert(s.subrange(1, 17) =~= magic_bytes());
    assert(s.skip(17) =~= u64_be(p.server_id) + rest);
    lemma_u64_prefix(p.server_id, rest);
}

/// A server's advertisement of itself by name.
#[derive(Debug, Clone)]
pub struct AdvertiseSystem {
    pub server_name: String,
}

impl AdvertiseSystem {
    pub fn id() -> (r: u8)
        ensures
            r == ID_ADVERTISE_SYSTEM,
    {
        ID_ADVERTISE_SYSTEM
    }

    /// Writes the id and the name; a name longer than 65535 bytes is refused.
    pub fn encode(&self, stream: &mut BinaryStream) -> (r: Result<(), BinaryUtilError>)
        ensures
            final(stream).pos() == old(stream).pos(),
            encode_utf8(self.server_name@).len() <= 0xffff ==> r is Ok && final(stream).data()
                == old(stream).data() + seq![ID_ADVERTISE_SYSTEM] + enc_str16(self.server_name@),
            encode_utf8(self.server_name@).len() > 0xffff ==> r is Err,
    {
        stream.put_u8(ID_ADVERTISE_SYSTEM);
        stream.put_string(self.server_name.as_str())?;
        proof {
            assert(stream.data() =~= old(stream).data() + seq![ID_ADVERTISE_SYSTEM] + enc_str16(
                self.server_name@,
            ));
        }
        Ok(())
    }

    /// Reads the id byte and the name.
    pub fn decode(stream: &mut BinaryStream) -> (r: Result<Self, BinaryUtilError>)
        ensures
            final(stream).data() == old(stream).data(),
            match parse_id(old(stream).remaining(), ID_ADVERTISE_SYSTEM) {
                Err(short) => r matches Err(e) && e.is_short() == short,
                Ok(_) => match parse_str16(old(stream).remaining().skip(1)) {
                    Ok((name, n)) => (r matches Ok(p) && p.server_name@ == name)
                        && BinaryStream::advanced(*old(stream), *final(stream), n + 1),
                    Err(short) => r matches Err(e) && e.is_short() == short,
                },
            },
    {
        let ghost s0 = *stream;
        decode_header(stream, ID_ADVERTISE_SYSTEM)?;
        proof {
            BinaryStream::lemma_advanced(s0, *stream, 1);
        }
        let server_name = stream.get_string()?;
        Ok(AdvertiseSystem { server_name })
    }
}

// ---------------------------------------------------------------------------
// Packets that carry the system addresses
// ---------------------------------------------------------------------------

/// Addresses, one after another.
pub open spec fn enc_addresses(addrs: Seq<(Seq<u8>, u16)>, family: u16) -> Seq<u8>
    decreases addrs.len(),
{
    if addrs.len() == 0 {
        Seq::empty()
    } else {
        enc_addresses(addrs.drop_last(), family) + enc_address(addrs.last(), family)
    }
}

/// Reads `count` more addresses after those in `acc`; before each, at least 23 bytes
/// (an IPv4 address and two timestamps) must be left.
pub open spec fn parse_addresses(s: Seq<u8>, count: nat, acc: Seq<(Seq<u8>, u16)>) -> Result<
    (Seq<(Seq<u8>, u16)>, nat),
    bool,
>
    decreases count,
{
    if count == 0 {
        Ok((acc, 0nat))
    } else if s.len() < 23 {
        Err(true)
    } else {
        match parse_address(s) {
            Err(short) => Err(short),
            Ok((a, k)) => match parse_addresses(s.skip(k as int), (count - 1) as nat, acc.push(a)) {
                Ok((r, m)) => Ok((r, k + m)),
                Err(e) => Err(e),
            },
        }
    }
}

/// The views of addresses.
pub open spec fn addresses_view(v: Seq<InternetAddress>) -> Seq<(Seq<u8>, u16)> {
    v.map_values(|a: InternetAddress| a@)
}

/// The address 0.0.0.0, port 0, that fills unused address slots.
pub fn unspecified_address() -> (r: InternetAddress)
    ensures
        r@ == (seq![0u8, 0u8, 0u8, 0u8], 0u16),
{
    let a = InternetAddress::new(IpAddress::V4([0u8, 0u8, 0u8, 0u8]), 0);
    assert(a@.0 =~= seq![0u8, 0u8, 0u8, 0u8]);
    a
}

/// Writes addresses with the given version 6 family number.
fn write_addresses(
    stream: &mut BinaryStream,
    addrs: &Vec<InternetAddress>,
    count: usize,
    family: u16,
)
    requires
        count <= addrs@.len(),
    ensures
        final(stream).pos() == old(stream).pos(),
        final(stream).data() == old(stream).data() + enc_addresses(
            addresses_view(addrs@.take(count as int)),
            family,
        ),
{
    let mut i: usize = 0;
    proof {
        assert(addresses_view(addrs@.take(0)) =~= Seq::<(Seq<u8>, u16)>::empty());
        assert(stream.data() =~= old(stream).data() + enc_addresses(
            addresses_view(addrs@.take(0)),
            family,
        ));
    }
    while i < count
        invariant
            i <= count,
            count <= addrs@.len(),
            stream.pos() == old(stream).pos(),
            stream.data() == old(stream).data() + enc_addresses(
                addresses_view(addrs@.take(i as int)),
                family,
            ),
        decreases count - i,
    {
        addrs[i].write_with_family(stream, family);
        proof {
            assert(addresses_view(addrs@.take(i + 1)).drop_last() =~= addresses_view(
                addrs@.take(i as int),
            ));
            assert(addresses_view(addrs@.take(i + 1)).last() == addrs@[i as int]@);
        }
        i = i + 1;
    }
}

/// Reads `count` addresses, each after a check that at least 23 bytes are left.
fn read_addresses(stream: &mut BinaryStream, count: usize) -> (r: Result<
    Vec<InternetAddress>,
    BinaryUtilError,
>)
    ensures
        final(stream).data() == old(stream).data(),
        match parse_addresses(old(stream).remaining(), count as nat, Seq::empty()) {
            Ok((v, n)) => (r matches Ok(x) && addresses_view(x@) == v) && BinaryStream::advanced(
                *old(stream),
                *final(stream),
                n,
            ),
            Err(short) => r matches Err(e) && e.is_short() == short,
        },
{
    let ghost s = stream.remaining();
    let mut out: Vec<InternetAddress> = Vec::new();
    let ghost mut c: nat = 0;
    let mut i: usize = 0;
    proof {
        stream.lemma_pos();
        assert(s.skip(0) =~= s);
        assert(addresses_view(out@) =~= Seq::<(Seq<u8>, u16)>::empty());
    }
    while i < count
        invariant
            i <= count,
            s == old(stream).remaining(),
            c <= s.len(),
            stream.data() == old(stream).data(),
            BinaryStream::advanced(*old(stream), *stream, c),
            stream.remaining() == s.skip(c as int),
            parse_addresses(s, count as nat, Seq::empty()) == match parse_addresses(
                stream.remaining(),
                (count - i) as nat,
                addresses_view(out@),
            ) {
                Ok((v, m)) => Ok((v, m + c)),
                Err(e) => Err(e),
            },
        decreases count - i,
    {
        let remaining = stream.remaining_len();
        if remaining < 23 {
            return Err(BinaryUtilError::NotEnoughData { needed: 23, have: remaining });
        }
        let ghost before = *stream;
        let a = InternetAddress::read_from(stream)?;
        let ghost k: nat = match parse_address(before.remaining()) {
            Ok((_, j)) => j,
            Err(_) => 0,
        };
        proof {
            BinaryStream::lemma_advanced(before, *stream, k);
            assert(s.skip(c as int).skip(k as int) =~= s.skip((c + k) as int));
            assert(addresses_view(out@.push(a)) =~= addresses_view(out@).push(a@));
        }
        out.push(a);
        proof {
            c = c + k;
        }
        i = i + 1;
    }
    Ok(out)
}

/// The server's acceptance of a connection request.
#[derive(Debug, Clone)]
pub struct ConnectionRequestAccepted {
    pub address: InternetAddress,
    /// Exactly the default number of system addresses, once made by `create`.
    pub system_addresses: Vec<InternetAddress>,
    pub send_ping_time: u64,
    pub send_pong_time: u64,
}

/// The acceptance's payload: the client address, a zero system index, the system
/// addresses, then the two times.
pub open spec fn enc_request_accepted(
    address: (Seq<u8>, u16),
    system: Seq<(Seq<u8>, u16)>,
    ping: u64,
    pong: u64,
    family: u16,
) -> Seq<u8> {
    enc_address(address, family) + u16_be(0) + enc_addresses(system, family) + u64_be(ping)
        + u64_be(pong)
}

/// Reads an acceptance: its id byte, then its payload. The result: the address, the
/// system addresses and the two times.
pub open spec fn parse_request_accepted(s: Seq<u8>) -> Result<
    (((Seq<u8>, u16), Seq<(Seq<u8>, u16)>, u64, u64), nat),
    bool,
> {
    match parse_id(s, ID_CONNECTION_REQUEST_ACCEPTED) {
        Err(short) => Err(short),
        Ok(_) => match parse_address(s.skip(1)) {
            Err(short) => Err(short),
            Ok((a, k)) => if s.len() < 1 + k + 2 {
                Err(true)
            } else {
                match parse_addresses(s.skip((1 + k + 2) as int), 20, Seq::empty()) {
                    Err(short) => Err(short),
                    Ok((sys, m)) => if s.len() < 1 + k + 2 + m + 16 {
                        Err(true)
                    } else {
                        Ok(
                            (
                                (
                                    a,
                                    sys,
                                    be_u64(s.skip((1 + k + 2 + m) as int)),
                                    be_u64(s.skip((1 + k + 2 + m + 8) as int)),
                                ),
                                (1 + k + 2 + m + 16) as nat,
                            ),
                        )
                    },
                }
            },
        },
    }
}

impl ConnectionRequestAccepted {
    /// An acceptance whose system addresses are cut or padded (with 0.0.0.0:0) to the
    /// default number.
    pub fn create(
        address: InternetAddress,
        system_addresses: Vec<InternetAddress>,
        send_ping_time: u64,
        send_pong_time: u64,
    ) -> (r: Self)
        ensures
            r.address == address,
            r.send_ping_time == send_ping_time,
            r.send_pong_time == send_pong_time,
            r.system_addresses@.len() == DEFAULT_SYSTEM_ADDRESS_COUNT,
            forall|i: int|
                0 <= i < DEFAULT_SYSTEM_ADDRESS_COUNT ==> #[trigger] r.system_addresses@[i]@ == if i
                    < system_addresses@.len() {
                    system_addresses@[i]@
                } else {
                    (seq![0u8, 0u8, 0u8, 0u8], 0u16)
                },
    {
        let mut padded: Vec<InternetAddress> = Vec::new();
        let mut i: usize = 0;
        while i < DEFAULT_SYSTEM_ADDRESS_COUNT
            invariant
                i <= DEFAULT_SYSTEM_ADDRESS_COUNT,
                padded@.len() == i,
                forall|j: int|
                    0 <= j < i ==> #[trigger] padded@[j]@ == if j < system_addresses@.len() {
                        system_addresses@[j]@
                    } else {
                        (seq![0u8, 0u8, 0u8, 0u8], 0u16)
                    },
            decreases DEFAULT_SYSTEM_ADDRESS_COUNT - i,
        {
            if i < system_addresses.len() {
                padded.push(system_addresses[i]);
            } else {
                padded.push(unspecified_address());
            }
            i = i + 1;
        }
        ConnectionRequestAccepted {
            address,
            system_addresses: padded,
            send_ping_time,
            send_pong_time,
        }
    }

    pub fn id() -> (r: u8)
        ensures
            r == ID_CONNECTION_REQUEST_ACCEPTED,
    {
        ID_CONNECTION_REQUEST_ACCEPTED
    }

    /// Writes the id and payload; the first default-number system addresses are written,
    /// so there must be at least that many.
    pub fn encode(&self, stream: &mut BinaryStream) -> (r: Result<(), BinaryUtilError>)
        requires
            self.system_addresses@.len() >= DEFAULT_SYSTEM_ADDRESS_COUNT,
        ensures
            r is Ok,
            final(stream).pos() == old(stream).pos(),
            exists|family: u16|
                final(stream).data() == old(stream).data() + seq![ID_CONNECTION_REQUEST_ACCEPTED]
                    + enc_request_accepted(
                    self.address@,
                    addresses_view(self.system_addresses@.take(20)),
                    self.send_ping_time,
                    self.send_pong_time,
                    family,
                ),
    {
        let family = af_inet6();
        stream.put_u8(ID_CONNECTION_REQUEST_ACCEPTED);
        self.address.write_with_family(stream, family);
        stream.put_u16_be(0);
        write_addresses(stream, &self.system_addresses, DEFAULT_SYSTEM_ADDRESS_COUNT, family);
        stream.put_u64_be(self.send_ping_time);
        stream.put_u64_be(self.send_pong_time);
        proof {
            assert(stream.data() =~= old(stream).data() + seq![ID_CONNECTION_REQUEST_ACCEPTED]
                + enc_request_accepted(
                self.address@,
                addresses_view(self.system_addresses@.take(20)),
                self.send_ping_time,
                self.send_pong_time,
                family,
            ));
        }
        Ok(())
    }

    /// Reads the id byte and the payload.
    pub fn decode(stream: &mut BinaryStream) -> (r: Result<Self, BinaryUtilError>)
        ensures
            final(stream).data() == old(stream).data(),
            match parse_request_accepted(old(stream).remaining()) {
                Ok((v, n)) => (r matches Ok(p) && p.address@ == v.0 && addresses_view(
                    p.system_addresses@,
                ) == v.1 && p.send_ping_time == v.2 && p.send_pong_time == v.3)
                    && BinaryStream::advanced(*old(stream), *final(stream), n),
                Err(short) => r matches Err(e) && e.is_short() == short,
            },
    {
        let ghost s = stream.remaining();
        let ghost s0 = *stream;
        decode_header(stream, ID_CONNECTION_REQUEST_ACCEPTED)?;
        let ghost s1 = *stream;
        proof {
            BinaryStream::lemma_advanced(s0, s1, 1);
        }
        let address = InternetAddress::read_from(stream)?;
        let ghost k: nat = match parse_address(s.skip(1)) {
            Ok((_, j)) => j,
            Err(_) => 0,
        };
        let ghost s2 = *stream;
        proof {
            BinaryStream::lemma_advanced(s1, s2, k);
            assert(s.skip(1).skip(k as int) =~= s.skip((1 + k) as int));
        }
        let _system_index = stream.get_u16_be()?;
        let ghost s3 = *stream;
        proof {
            BinaryStream::lemma_advanced(s2, s3, 2);
            assert(s.skip((1 + k) as int).skip(2) =~= s.skip((1 + k + 2) as int));
        }
        let system_addresses = read_addresses(stream, DEFAULT_SYSTEM_ADDRESS_COUNT)?;
        let ghost m: nat = match parse_addresses(s.skip((1 + k + 2) as int), 20, Seq::empty()) {
            Ok((_, j)) => j,
            Err(_) => 0,
        };
        let ghost s4 = *stream;
        proof {
            BinaryStream::lemma_advanced(s3, s4, m);
            assert(s.skip((1 + k + 2) as int).skip(m as int) =~= s.skip((1 + k + 2 + m) as int));
        }
        let remaining = stream.remaining_len();
        if remaining < 16 {
            return Err(BinaryUtilError::NotEnoughData { needed: 16, have: remaining });
        }
        let send_ping_time = stream.get_u64_be()?;
        proof {
            BinaryStream::lemma_advanced(s4, *stream, 8);
            assert(s.skip((1 + k + 2 + m) as int).skip(8) =~= s.skip((1 + k + 2 + m + 8) as int));
        }
        let send_pong_time = stream.get_u64_be()?;
        Ok(ConnectionRequestAccepted { address, system_addresses, send_ping_time, send_pong_time })
    }
}

/// The client's confirmation that the connection is open.
#[derive(Debug, Clone)]
pub struct NewIncomingConnection {
    pub server_address: InternetAddress,
    pub system_addresses: Vec<InternetAddress>,
    pub send_ping_time: u64,
    pub send_pong_time: u64,
}

/// The confirmation's payload: the server address, the default number of system
/// addresses, then the two times.
pub open spec fn enc_new_incoming(
    address: (Seq<u8>, u16),
    system: Seq<(Seq<u8>, u16)>,
    ping: u64,
    pong: u64,
    family: u16,
) -> Seq<u8> {
    enc_address(address, family) + enc_addresses(system, family) + u64_be(ping) + u64_be(pong)
}

/// The system addresses a confirmation writes: the first ones given, then 0.0.0.0:0 up to
/// the default number.
pub open spec fn padded_addresses(v: Seq<(Seq<u8>, u16)>) -> Seq<(Seq<u8>, u16)> {
    Seq::new(
        20,
        |i: int|
            if i < v.len() {
                v[i]
            } else {
                (seq![0u8, 0u8, 0u8, 0u8], 0u16)
            },
    )
}

/// Reads a confirmation: its id byte, then its payload.
pub open spec fn parse_new_incoming(s: Seq<u8>) -> Result<
    (((Seq<u8>, u16), Seq<(Seq<u8>, u16)>, u64, u64), nat),
    bool,
> {
    match parse_id(s, ID_NEW_INCOMING_CONNECTION) {
        Err(short) => Err(short),
        Ok(_) => match parse_address(s.skip(1)) {
            Err(short) => Err(short),
            Ok((a, k)) => match parse_addresses(s.skip((1 + k) as int), 20, Seq::empty()) {
                Err(short) => Err(short),
                Ok((sys, m)) => if s.len() < 1 + k + m + 16 {
                    Err(true)
                } else {
                    Ok(
                        (
                            (a, sys, be_u64(s.skip((1 + k + m) as int)), be_u64(s.skip((1 + k + m + 8) as int))),
                            (1 + k + m + 16) as nat,
                        ),
                    )
                },
            },
        },
    }
}

impl NewIncomingConnection {
    pub fn id() -> (r: u8)
        ensures
            r == ID_NEW_INCOMING_CONNECTION,
    {
        ID_NEW_INCOMING_CONNECTION
    }

    /// Writes the id and payload: the first system addresses given, padded with 0.0.0.0:0
    /// to the default number.
    pub fn encode(&self, stream: &mut BinaryStream) -> (r: Result<(), BinaryUtilError>)
        ensures
            r is Ok,
            final(stream).pos() == old(stream).pos(),
            exists|family: u16|
                final(stream).data() == old(stream).data() + seq![ID_NEW_INCOMING_CONNECTION]
                    + enc_new_incoming(
                    self.server_address@,
                    padded_addresses(addresses_view(self.system_addresses@)),
                    self.send_ping_time,
                    self.send_pong_time,
                    family,
                ),
    {
        let family = af_inet6();
        stream.put_u8(ID_NEW_INCOMING_CONNECTION);
        self.server_address.write_with_family(stream, family);
        let mut slots: Vec<InternetAddress> = Vec::new();
        let mut i: usize = 0;
        while i < DEFAULT_SYSTEM_ADDRESS_COUNT
            invariant
                i <= DEFAULT_SYSTEM_ADDRESS_COUNT,
                slots@.len() == i,
                forall|j: int|
                    0 <= j < i ==> #[trigger] slots@[j]@ == padded_addresses(
                        addresses_view(self.system_addresses@),
                    )[j],
            decreases DEFAULT_SYSTEM_ADDRESS_COUNT - i,
        {
            if i < self.system_addresses.len() {
                slots.push(self.system_addresses[i]);
            } else {
                slots.push(unspecified_address());
            }
            i = i + 1;
        }
        write_addresses(stream, &slots, DEFAULT_SYSTEM_ADDRESS_COUNT, family);
        stream.put_u64_be(self.send_ping_time);
        stream.put_u64_be(self.send_pong_time);
        proof {
            assert(addresses_view(slots@.take(20)) =~= padded_addresses(
                addresses_view(self.system_addresses@),
            ));
            assert(stream.data() =~= old(stream).data() + seq![ID_NEW_INCOMING_CONNECTION]
                + enc_new_incoming(
                self.server_address@,
                padded_addresses(addresses_view(self.system_addresses@)),
                self.send_ping_time,
                self.send_pong_time,
                family,
            ));
        }
        Ok(())
    }

    /// Reads the id byte and the payload.
    pub fn decode(stream: &mut BinaryStream) -> (r: Result<Self, BinaryUtilError>)
        ensures
            final(stream).data() == old(stream).data(),
            match parse_new_incoming(old(stream).remaining()) {
                Ok((v, n)) => (r matches Ok(p) && p.server_address@ == v.0 && addresses_view(
                    p.system_addresses@,
                ) == v.1 && p.send_ping_time == v.2 && p.send_pong_time == v.3)
                    && BinaryStream::advanced(*old(stream), *final(stream), n),
                Err(short) => r matches Err(e) && e.is_short() == short,
            },
    {
        let ghost s = stream.remaining();
        let ghost s0 = *stream;
        decode_header(stream, ID_NEW_INCOMING_CONNECTION)?;
        let ghost s1 = *stream;
        proof {
            BinaryStream::lemma_advanced(s0, s1, 1);
        }
        let server_address = InternetAddress::read_from(stream)?;
        let ghost k: nat = match parse_address(s.skip(1)) {
            Ok((_, j)) => j,
            Err(_) => 0,
        };
        let ghost s2 = *stream;
        proof {
            BinaryStream::lemma_advanced(s1, s2, k);
            assert(s.skip(1).skip(k as int) =~= s.skip((1 + k) as int));
        }
        let system_addresses = read_addresses(stream, DEFAULT_SYSTEM_ADDRESS_COUNT)?;
        let ghost m: nat = match parse_addresses(s.skip((1 + k) as int), 20, Seq::empty()) {
            Ok((_, j)) => j,
            Err(_) => 0,
        };
        let ghost s3 = *stream;
        proof {
            BinaryStream::lemma_advanced(s2, s3, m);
            assert(s.skip((1 + k) as int).skip(m as int) =~= s.skip((1 + k + m) as int));
        }
        let remaining = stream.remaining_len();
        if remaining < 16 {
            return Err(BinaryUtilError::NotEnoughData { needed: 16, have: remaining });
        }
        let send_ping_time = stream.get_u64_be()?;
        proof {
            BinaryStream::lemma_advanced(s3, *stream, 8);
            assert(s.skip((1 + k + m) as int).skip(8) =~= s.skip((1 + k + m + 8) as int));
        }
        let send_pong_time = stream.get_u64_be()?;
        Ok(NewIncomingConnection { server_address, system_addresses, send_ping_time, send_pong_time })
    }
}

/// The bytes of an open connection reply 1, by position: the id 0x06, the 16 bytes of
/// magic, the server id in 8 bytes big-endian (bytes 17 to 24), the security flag as one
/// byte, 1 or 0 (byte 25), and the MTU in 2 bytes big-endian (bytes 26 and 27); nothing
/// more.
pub proof fn law_reply1_layout(p: OpenConnectionReply1)
    ensures
        ({
            let b = seq![ID_OPEN_CONNECTION_REPLY_1] + enc_reply1(p);
            &&& b.len() == 28
            &&& b[0] == 0x06u8
            &&& b.subrange(1, 17) == magic_bytes()
            &&& be_u64(b.subrange(17, 25)) == p.server_id
            &&& b[25] == (if p.server_security {
                1u8
            } else {
                0u8
            })
            &&& be_u16(b.subrange(26, 28)) == p.mtu_size
        }),
{
    let b = seq![ID_OPEN_CONNECTION_REPLY_1] + enc_reply1(p);
    lemma_u64_be(p.server_id);
    lemma_u16_be(p.mtu_size);
    assert(b.subrange(1, 17) =~= magic_bytes());
    assert(b.subrange(17, 25) =~= u64_be(p.server_id));
    assert(b.subrange(26, 28) =~= u16_be(p.mtu_size));
}

/// The bytes of an unconnected pong, by position: the id 0x1c, the ping time it answers
/// in 8 bytes big-endian (bytes 1 to 8), the server id in 8 bytes big-endian (bytes 9 to
/// 16), the 16 bytes of magic (bytes 17 to 32), then the server name.
pub proof fn law_unconnected_pong_layout(time: u64, server_id: u64, name: Seq<char>)
    ensures
        ({
            let b = seq![ID_UNCONNECTED_PONG] + enc_unconnected_pong(time, server_id, name);
            &&& b.len() >= 33
            &&& b[0] == 0x1cu8
            &&& be_u64(b.subrange(1, 9)) == time
            &&& be_u64(b.subrange(9, 17)) == server_id
            &&& b.subrange(17, 33) == magic_bytes()
            &&& b.skip(33) == enc_str16(name)
        }),
{
    let b = seq![ID_UNCONNECTED_PONG] + enc_unconnected_pong(time, server_id, name);
    lemma_u64_be(time);
    lemma_u64_be(server_id);
    assert(b.subrange(1, 9) =~= u64_be(time));
    assert(b.subrange(9, 17) =~= u64_be(server_id));
    assert(b.subrange(17, 33) =~= magic_bytes());
    assert(b.skip(33) =~= enc_str16(name));
}

} // verus!
