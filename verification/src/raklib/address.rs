//! Internet addresses and their RakNet encoding.
use crate::binary::{be_u16, error_text, u16_be, u16_le, u32_be, BinaryStream, BinaryUtilError};
use crate::text::{decimal, decimal_string};
use byteorder::ByteOrder;
use vstd::prelude::*;

verus! {

/// An IP address: four octets for version 4, sixteen for version 6.
#[derive(Debug, Clone, Copy, PartialEq, Eq, Hash)]
pub enum IpAddress {
    V4([u8; 4]),
    V6([u8; 16]),
}

/// An IP address and a port.
#[derive(Debug, Clone, Copy, PartialEq, Eq, Hash)]
pub struct InternetAddress {
    ip: IpAddress,
    port: u16,
}

/// The octets of an IP address.
pub open spec fn ip_octets(ip: IpAddress) -> Seq<u8> {
    match ip {
        IpAddress::V4(o) => o@,
        IpAddress::V6(o) => o@,
    }
}

impl View for InternetAddress {
    /// The octets (four or sixteen) and the port.
    type V = (Seq<u8>, u16);

    open spec fn view(&self) -> (Seq<u8>, u16) {
        (ip_octets(self.spec_ip()), self.spec_port())
    }
}

/// The bytes of an address, with `family` as the address family number written for
/// version 6: the version, then for version 4 each octet inverted and the big-endian
/// port; for version 6 the little-endian family, the big-endian port, a zero flow label,
/// the octets and a zero scope.
pub open spec fn enc_address(a: (Seq<u8>, u16), family: u16) -> Seq<u8> {
    if a.0.len() == 4 {
        seq![4u8, !a.0[0], !a.0[1], !a.0[2], !a.0[3]] + u16_be(a.1)
    } else {
        seq![6u8] + u16_le(family) + u16_be(a.1) + u32_be(0) + a.0 + u32_be(0)
    }
}

/// Reads an address: the address and the bytes it took, or whether the bytes ran out
/// (`true`) or named an unknown version (`false`).
pub open spec fn parse_address(s: Seq<u8>) -> Result<((Seq<u8>, u16), nat), bool> {
    if s.len() < 1 {
        Err(true)
    } else if s[0] == 4 {
        if s.len() < 7 {
            Err(true)
        } else {
            Ok(((seq![!s[1], !s[2], !s[3], !s[4]], be_u16(s.skip(5))), 7nat))
        }
    } else if s[0] == 6 {
        if s.len() < 29 {
            Err(true)
        } else {
            Ok(((s.subrange(9, 25), be_u16(s.skip(3))), 29nat))
        }
    } else {
        Err(false)
    }
}

/// Calls byteorder's `LittleEndian::read_u16`, which reads the first two bytes of the
/// buffer as a little-endian value (and panics on fewer than two bytes).
#[verifier::external_body]
fn read_u16_le_bytes(buf: &[u8]) -> (r: u16)
    requires
        buf@.len() >= 2,
    ensures
        r == crate::binary::le_u16(buf@),
{
    byteorder::LittleEndian::read_u16(buf)
}

/// The `AF_INET6` address family number of the platform, from libc. It differs from one
/// platform to another, so nothing is promised of it.
#[verifier::external_body]
pub(crate) fn af_inet6() -> (r: u16) {
    libc::AF_INET6 as u16
}

impl InternetAddress {
    pub closed spec fn spec_ip(&self) -> IpAddress {
        self.ip
    }

    pub closed spec fn spec_port(&self) -> u16 {
        self.port
    }

    pub fn new(ip: IpAddress, port: u16) -> (r: Self)
        ensures
            r.spec_ip() == ip,
            r.spec_port() == port,
    {
        InternetAddress { ip, port }
    }

    pub fn ip(&self) -> (r: IpAddress)
        ensures
            r == self.spec_ip(),
    {
        self.ip
    }

    pub fn port(&self) -> (r: u16)
        ensures
            r == self.spec_port(),
    {
        self.port
    }

    /// The IP version: 4 or 6.
    pub fn version(&self) -> (r: u8)
        ensures
            r == (if self.spec_ip() is V4 {
                4u8
            } else {
                6u8
            }),
    {
        match self.ip {
            IpAddress::V4(_) => 4,
            IpAddress::V6(_) => 6,
        }
    }

    /// Reads an address in the RakNet encoding.
    pub fn read_from(stream: &mut BinaryStream) -> (r: Result<Self, BinaryUtilError>)
        ensures
            final(stream).data() == old(stream).data(),
            match parse_address(old(stream).remaining()) {
                Ok((a, n)) => (r matches Ok(x) && x@ == a) && BinaryStream::advanced(
                    *old(stream),
                    *final(stream),
                    n,
                ),
                Err(short) => r matches Err(e) && e.is_short() == short,
            },
            old(stream).remaining().len() > 0 && old(stream).remaining()[0] != 4 && old(stream).remaining()[0] != 6
                ==> (r matches Err(e) && error_text(e) == "Unknown IP address version "@ + decimal(
                old(stream).remaining()[0] as nat,
            )),
    {
        let ghost s = stream.remaining();
        proof {
            stream.lemma_pos();
        }
        let version = stream.get_u8()?;
        if version == 4 {
            let b1 = !stream.get_u8()?;
            let b2 = !stream.get_u8()?;
            let b3 = !stream.get_u8()?;
            let b4 = !stream.get_u8()?;
            let port = stream.get_u16_be()?;
            proof {
                stream.lemma_pos();
                assert(s.skip(5) =~= old(stream).remaining().skip(5));
            }
            let a = InternetAddress { ip: IpAddress::V4([b1, b2, b3, b4]), port };
            proof {
                assert(a@.0 =~= seq![!s[1], !s[2], !s[3], !s[4]]);
            }
            Ok(a)
        } else if version == 6 {
            let family_bytes = stream.get(2)?;
            let _family = read_u16_le_bytes(family_bytes.as_slice());
            let port = stream.get_u16_be()?;
            let _flow_info = stream.get_u32_be()?;
            let ip_bytes = stream.get(16)?;
            let _scope_id = stream.get_u32_be()?;
            let mut octets = [0u8; 16];
            let mut i: usize = 0;
            while i < 16
                invariant
                    i <= 16,
                    ip_bytes@.len() == 16,
                    forall|j: int| 0 <= j < i ==> octets@[j] == ip_bytes@[j],
                decreases 16 - i,
            {
                octets[i] = ip_bytes[i];
                i = i + 1;
            }
            proof {
                stream.lemma_pos();
                assert(octets@ =~= ip_bytes@);
                assert(ip_bytes@ =~= s.subrange(9, 25));
            }
            Ok(InternetAddress { ip: IpAddress::V6(octets), port })
        } else {
            let mut message = "Unknown IP address version ".to_owned();
            message.append(decimal_string(version as u64).as_str());
            Err(BinaryUtilError::InvalidData(message))
        }
    }

    /// Writes the address, with `family` as the version 6 address family number.
    pub(crate) fn write_with_family(&self, stream: &mut BinaryStream, family: u16)
        ensures
            final(stream).data() == old(stream).data() + enc_address(self@, family),
            final(stream).pos() == old(stream).pos(),
    {
        match self.ip {
            IpAddress::V4(o) => {
                stream.put_u8(4);
                stream.put_u8(!o[0]);
                stream.put_u8(!o[1]);
                stream.put_u8(!o[2]);
                stream.put_u8(!o[3]);
                stream.put_u16_be(self.port);
                proof {
                    assert(stream.data() =~= old(stream).data() + enc_address(self@, family));
                }
            },
            IpAddress::V6(o) => {
                stream.put_u8(6);
                stream.put_u16_le(family);
                stream.put_u16_be(self.port);
                stream.put_u32_be(0);
                stream.put(&o);
                stream.put_u32_be(0);
                proof {
                    assert(stream.data() =~= old(stream).data() + enc_address(self@, family));
                }
            },
        }
    }

    /// Writes the address in the RakNet encoding; version 6 carries the platform's
    /// `AF_INET6` number.
    pub fn write_to(&self, stream: &mut BinaryStream) -> (r: Result<(), BinaryUtilError>)
        ensures
            r is Ok,
            final(stream).pos() == old(stream).pos(),
            exists|family: u16| final(stream).data() == old(stream).data() + enc_address(self@, family),
    {
        let family = af_inet6();
        self.write_with_family(stream, family);
        Ok(())
    }
}

proof fn lemma_not_not(b: u8)
    ensures
        !(!b) == b,
{
    assert(!(!b) == b) by (bit_vector);
}

/// An address written with any family number reads back as itself.
pub proof fn lemma_address_roundtrip(a: InternetAddress, family: u16, rest: Seq<u8>)
    ensures
        parse_address(enc_address(a@, family) + rest) == Ok::<((Seq<u8>, u16), nat), bool>(
            (a@, enc_address(a@, family).len()),
        ),
{
    let s = enc_address(a@, family) + rest;
    crate::binary::lemma_u16_be(a@.1);
    match a.spec_ip() {
        IpAddress::V4(o) => {
            lemma_not_not(o@[0]);
            lemma_not_not(o@[1]);
            lemma_not_not(o@[2]);
            lemma_not_not(o@[3]);
            assert(s.skip(5).subrange(0, 2) =~= u16_be(a@.1));
            assert(be_u16(s.skip(5)) == be_u16(s.skip(5).subrange(0, 2)));
            assert(seq![!s[1], !s[2], !s[3], !s[4]] =~= a@.0);
        },
        IpAddress::V6(o) => {
            assert(s.skip(3).subrange(0, 2) =~= u16_be(a@.1));
            assert(be_u16(s.skip(3)) == be_u16(s.skip(3).subrange(0, 2)));
            assert(s.subrange(9, 25) =~= a@.0);
        },
    }
}

} // verus!
