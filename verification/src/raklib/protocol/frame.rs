//! Datagrams and the encapsulated packets they carry.
use crate::binary::{
    be_u16, be_u32, le_u24, u16_be, u24_le, u32_be, BinaryStream, BinaryUtilError,
};
use crate::raklib::protocol::consts::{
    is_reliable, is_sequenced, is_sequenced_or_ordered, spec_is_reliable, spec_is_sequenced,
    spec_is_sequenced_or_ordered, UNRELIABLE,
};
use vstd::prelude::*;

verus! {

/// Where a part of a split packet belongs.
#[derive(Debug, Clone, Copy, PartialEq, Eq, Structural)]
pub struct SplitPacketInfo {
    pub id: u16,
    pub part_index: u32,
    pub total_part_count: u32,
}

/// A split header's bytes: the part count, the split id and the part index, big-endian.
pub open spec fn enc_split(i: SplitPacketInfo) -> Seq<u8> {
    u32_be(i.total_part_count) + u16_be(i.id) + u32_be(i.part_index)
}

/// The split header at the start of the bytes (ten of them are needed).
pub open spec fn split_at(s: Seq<u8>) -> SplitPacketInfo {
    SplitPacketInfo {
        total_part_count: be_u32(s),
        id: be_u16(s.skip(4)),
        part_index: be_u32(s.skip(6)),
    }
}

impl SplitPacketInfo {
    /// The bytes a split header takes.
    pub const ENCODED_LENGTH: usize = 10;

    pub fn read_from(stream: &mut BinaryStream) -> (r: Result<Self, BinaryUtilError>)
        ensures
            final(stream).data() == old(stream).data(),
            old(stream).remaining().len() >= 10 ==> r == Ok::<SplitPacketInfo, BinaryUtilError>(
                split_at(old(stream).remaining()),
            ) && BinaryStream::advanced(*old(stream), *final(stream), 10),
            old(stream).remaining().len() < 10 ==> (r matches Err(e) && e.is_short()),
            old(stream).remaining().len() < 4 ==> final(stream).pos() == old(stream).pos(),
            4 <= old(stream).remaining().len() < 6 ==> final(stream).pos() == old(stream).pos() + 4,
            6 <= old(stream).remaining().len() < 10 ==> final(stream).pos() == old(stream).pos() + 6,
    {
        let ghost s0 = *stream;
        proof {
            s0.lemma_pos();
        }
        let total_part_count = stream.get_u32_be()?;
        let ghost s1 = *stream;
        proof {
            BinaryStream::lemma_advanced(s0, s1, 4);
        }
        let id = stream.get_u16_be()?;
        let ghost s2 = *stream;
        proof {
            BinaryStream::lemma_advanced(s1, s2, 2);
        }
        let part_index = stream.get_u32_be()?;
        proof {
            BinaryStream::lemma_advanced(s2, *stream, 4);
            assert(s0.remaining().skip(4).skip(2) =~= s0.remaining().skip(6));
        }
        Ok(SplitPacketInfo { total_part_count, id, part_index })
    }

    pub fn write_to(&self, stream: &mut BinaryStream) -> (r: Result<(), BinaryUtilError>)
        ensures
            r is Ok,
            final(stream).pos() == old(stream).pos(),
            final(stream).data() == old(stream).data() + enc_split(*self),
    {
        stream.put_u32_be(self.total_part_count);
        stream.put_u16_be(self.id);
        stream.put_u32_be(self.part_index);
        proof {
            assert(stream.data() =~= old(stream).data() + enc_split(*self));
        }
        Ok(())
    }
}

/// The abstract value of an encapsulated packet.
pub struct EncapsulatedView {
    pub reliability: u8,
    pub message_index: Option<u32>,
    pub sequence_index: Option<u32>,
    pub order_index: Option<u32>,
    pub order_channel: Option<u8>,
    pub split_info: Option<SplitPacketInfo>,
    pub buffer: Seq<u8>,
    pub identifier_ack: Option<u32>,
}

/// A packet inside a datagram, with its reliability, ordering and split headers.
#[derive(Debug, Clone)]
pub struct EncapsulatedPacket {
    pub reliability: u8,
    pub message_index: Option<u32>,
    pub sequence_index: Option<u32>,
    pub order_index: Option<u32>,
    pub order_channel: Option<u8>,
    pub split_info: Option<SplitPacketInfo>,
    pub buffer: Vec<u8>,
    /// Set by the sender to be told when the packet is acknowledged; never written.
    pub identifier_ack: Option<u32>,
}

impl View for EncapsulatedPacket {
    type V = EncapsulatedView;

    open spec fn view(&self) -> EncapsulatedView {
        EncapsulatedView {
            reliability: self.reliability,
            message_index: self.message_index,
            sequence_index: self.sequence_index,
            order_index: self.order_index,
            order_channel: self.order_channel,
            split_info: self.split_info,
            buffer: self.buffer@,
            identifier_ack: self.identifier_ack,
        }
    }
}

/// The flags byte: the reliability in the top three bits, and the split bit.
pub open spec fn enc_flags(p: EncapsulatedView) -> u8 {
    (p.reliability << 5u8) | (if p.split_info is Some {
        0x10u8
    } else {
        0u8
    })
}

/// The payload length in bits, as a 16-bit value (only its low 16 bits are kept).
pub open spec fn bit_length(len: nat) -> u16 {
    ((len % 8192) * 8) as u16
}

/// The index fields of a packet's bytes: the message index if reliable, the sequence
/// index if sequenced, the order index and channel if sequenced or ordered (each index the
/// low 24 bits, little-endian). A field is written only when it is set.
pub open spec fn enc_indices(p: EncapsulatedView) -> Seq<u8> {
    (if spec_is_reliable(p.reliability) && p.message_index is Some {
        u24_le(p.message_index.unwrap())
    } else {
        Seq::empty()
    }) + (if spec_is_sequenced(p.reliability) && p.sequence_index is Some {
        u24_le(p.sequence_index.unwrap())
    } else {
        Seq::empty()
    }) + (if spec_is_sequenced_or_ordered(p.reliability) && p.order_index is Some
        && p.order_channel is Some {
        u24_le(p.order_index.unwrap()) + seq![p.order_channel.unwrap()]
    } else {
        Seq::empty()
    })
}

/// The split header, if split, then the payload.
pub open spec fn enc_tail(p: EncapsulatedView) -> Seq<u8> {
    (if p.split_info is Some {
        enc_split(p.split_info.unwrap())
    } else {
        Seq::empty()
    }) + p.buffer
}

/// An encapsulated packet's bytes: flags, the bit length (big-endian), the index fields,
/// the split header and the payload.
pub open spec fn enc_encapsulated(p: EncapsulatedView) -> Seq<u8> {
    seq![enc_flags(p)] + u16_be(bit_length(p.buffer.len())) + enc_indices(p) + enc_tail(p)
}

/// The index fields a reliability class calls for, read from the start of the bytes,
/// and the bytes they took; or the bytes read before the bytes ran out.
pub open spec fn parse_indices(t: Seq<u8>, rel: u8) -> Result<
    ((Option<u32>, Option<u32>, Option<u32>, Option<u8>), nat),
    nat,
> {
    let p2: nat = if spec_is_reliable(rel) {
        3
    } else {
        0
    };
    let p3: nat = if spec_is_sequenced(rel) {
        p2 + 3
    } else {
        p2
    };
    let p4: nat = if spec_is_sequenced_or_ordered(rel) {
        p3 + 4
    } else {
        p3
    };
    if spec_is_reliable(rel) && t.len() < 3 {
        Err(0nat)
    } else if spec_is_sequenced(rel) && t.len() < p2 + 3 {
        Err(p2)
    } else if spec_is_sequenced_or_ordered(rel) && t.len() < p3 + 3 {
        Err(p3)
    } else if spec_is_sequenced_or_ordered(rel) && t.len() < p3 + 4 {
        Err(p3 + 3)
    } else {
        Ok(
            (
                (
                    if spec_is_reliable(rel) {
                        Some(le_u24(t))
                    } else {
                        None
                    },
                    if spec_is_sequenced(rel) {
                        Some(le_u24(t.skip(p2 as int)))
                    } else {
                        None
                    },
                    if spec_is_sequenced_or_ordered(rel) {
                        Some(le_u24(t.skip(p3 as int)))
                    } else {
                        None
                    },
                    if spec_is_sequenced_or_ordered(rel) {
                        Some(t[(p3 + 3) as int])
                    } else {
                        None
                    },
                ),
                p4,
            ),
        )
    }
}

/// The split header (if the packet is split) and a payload of `blen` bytes, read from
/// the start of the bytes, and the bytes they took; or the bytes read before the bytes
/// ran out.
pub open spec fn parse_tail(t: Seq<u8>, has_split: bool, blen: nat) -> Result<
    ((Option<SplitPacketInfo>, Seq<u8>), nat),
    nat,
> {
    let p5: nat = if has_split {
        10
    } else {
        0
    };
    if has_split && t.len() < 4 {
        Err(0nat)
    } else if has_split && t.len() < 6 {
        Err(4nat)
    } else if has_split && t.len() < 10 {
        Err(6nat)
    } else if t.len() < p5 + blen {
        Err(p5)
    } else {
        Ok(
            (
                (
                    if has_split {
                        Some(split_at(t))
                    } else {
                        None
                    },
                    t.subrange(p5 as int, (p5 + blen) as int),
                ),
                p5 + blen,
            ),
        )
    }
}

/// Reads an encapsulated packet: the packet and the bytes it took, or whether the bytes
/// ran out (`true`; else the length was zero) together with the bytes read before the
/// read that failed.
pub open spec fn parse_encapsulated(s: Seq<u8>) -> Result<(EncapsulatedView, nat), (bool, nat)> {
    if s.len() < 1 {
        Err((true, 0nat))
    } else if s.len() < 3 {
        Err((true, 1nat))
    } else {
        let rel = (s[0] & 0xe0u8) >> 5u8;
        let has_split = (s[0] & 0x10u8) != 0;
        let blen = ((be_u16(s.skip(1)) as nat) + 7) / 8;
        if blen == 0 {
            Err((false, 3nat))
        } else {
            match parse_indices(s.skip(3), rel) {
                Err(c) => Err((true, 3 + c)),
                Ok((ix, k)) => match parse_tail(s.skip((3 + k) as int), has_split, blen) {
                    Err(c) => Err((true, 3 + k + c)),
                    Ok((tl, m)) => Ok(
                        (
                            EncapsulatedView {
                                reliability: rel,
                                message_index: ix.0,
                                sequence_index: ix.1,
                                order_index: ix.2,
                                order_channel: ix.3,
                                split_info: tl.0,
                                buffer: tl.1,
                                identifier_ack: None,
                            },
                            3 + k + m,
                        ),
                    ),
                },
            }
        }
    }
}

/// The bytes of the headers of a packet, as `header_length` counts them.
pub open spec fn header_len(p: EncapsulatedView) -> nat {
    3 + (if spec_is_reliable(p.reliability) {
        3nat
    } else {
        0nat
    }) + (if spec_is_sequenced(p.reliability) {
        3nat
    } else {
        0nat
    }) + (if spec_is_sequenced_or_ordered(p.reliability) {
        4nat
    } else {
        0nat
    }) + (if p.split_info is Some {
        10nat
    } else {
        0nat
    })
}

impl EncapsulatedPacket {
    pub fn new() -> (r: Self)
        ensures
            r.reliability == UNRELIABLE,
            r.message_index is None,
            r.sequence_index is None,
            r.order_index is None,
            r.order_channel is None,
            r.split_info is None,
            r.buffer@ == Seq::<u8>::empty(),
            r.identifier_ack is None,
    {
        EncapsulatedPacket {
            reliability: UNRELIABLE,
            message_index: None,
            sequence_index: None,
            order_index: None,
            order_channel: None,
            split_info: None,
            buffer: Vec::new(),
            identifier_ack: None,
        }
    }

    /// A copy of the packet, field for field.
    pub fn clone_packet(&self) -> (r: Self)
        ensures
            r@ == self@,
    {
        let buffer = self.buffer.clone();
        proof {
            assert(buffer@ =~= self.buffer@);
        }
        EncapsulatedPacket {
            reliability: self.reliability,
            message_index: self.message_index,
            sequence_index: self.sequence_index,
            order_index: self.order_index,
            order_channel: self.order_channel,
            split_info: self.split_info,
            buffer,
            identifier_ack: self.identifier_ack,
        }
    }

    /// Reads an encapsulated packet.
    pub fn from_binary(stream: &mut BinaryStream) -> (r: Result<Self, BinaryUtilError>)
        ensures
            final(stream).data() == old(stream).data(),
            match parse_encapsulated(old(stream).remaining()) {
                Ok((p, n)) => (r matches Ok(x) && x@ == p) && BinaryStream::advanced(
                    *old(stream),
                    *final(stream),
                    n,
                ),
                Err((short, c)) => (r matches Err(e) && e.is_short() == short)
                    && BinaryStream::advanced(*old(stream), *final(stream), c),
            },
    {
        let ghost s = stream.remaining();
        let ghost s0 = *stream;
        proof {
            stream.lemma_pos();
        }
        let flags = stream.get_u8()?;
        let ghost s1 = *stream;
        proof {
            BinaryStream::lemma_advanced(s0, s1, 1);
        }
        let reliability = (flags & 0xe0) >> 5u8;
        let has_split = (flags & 0x10) != 0;
        let bit_length = stream.get_u16_be()?;
        proof {
            BinaryStream::lemma_advanced(s1, *stream, 2);
            assert(s.skip(1).skip(2) =~= s.skip(3));
        }
        let byte_length = (bit_length as usize + 7) / 8;
        if byte_length == 0 {
            return Err(
                BinaryUtilError::InvalidData("Encapsulated payload length cannot be zero".to_owned()),
            );
        }
        let ghost s3 = *stream;
        let (message_index, sequence_index, order_index, order_channel) = match Self::read_indices(
            stream,
            reliability,
        ) {
            Ok(ix) => ix,
            Err(e) => {
                return Err(e);
            },
        };
        let ghost k: nat = match parse_indices(s.skip(3), reliability) {
            Ok((_, j)) => j,
            Err(_) => 0,
        };
        let ghost s4 = *stream;
        proof {
            BinaryStream::lemma_advanced(s3, s4, k);
            assert(s.skip(3).skip(k as int) =~= s.skip((3 + k) as int));
        }
        let (split_info, buffer) = match Self::read_tail(stream, has_split, byte_length) {
            Ok(t) => t,
            Err(e) => {
                return Err(e);
            },
        };
        Ok(EncapsulatedPacket {
            reliability,
            message_index,
            sequence_index,
            order_index,
            order_channel,
            split_info,
            buffer,
            identifier_ack: None,
        })
    }

    /// Reads the index fields that a reliability class calls for.
    fn read_indices(stream: &mut BinaryStream, reliability: u8) -> (r: Result<
        (Option<u32>, Option<u32>, Option<u32>, Option<u8>),
        BinaryUtilError,
    >)
        ensures
            final(stream).data() == old(stream).data(),
            match parse_indices(old(stream).remaining(), reliability) {
                Ok((ix, n)) => r == Ok::<_, BinaryUtilError>(ix) && BinaryStream::advanced(
                    *old(stream),
                    *final(stream),
                    n,
                ),
                Err(c) => (r matches Err(e) && e.is_short()) && BinaryStream::advanced(
                    *old(stream),
                    *final(stream),
                    c,
                ),
            },
    {
        let ghost t = old(stream).remaining();
        let ghost s0 = *stream;
        proof {
            s0.lemma_pos();
        }
        let message_index = if is_reliable(reliability) {
            Some(stream.get_u24_le()?)
        } else {
            None
        };
        let ghost s1 = *stream;
        let ghost p2: nat = if is_reliable(reliability) {
            3
        } else {
            0
        };
        proof {
            BinaryStream::lemma_advanced(s0, s1, p2);
        }
        let sequence_index = if is_sequenced(reliability) {
            Some(stream.get_u24_le()?)
        } else {
            None
        };
        let ghost s2 = *stream;
        let ghost p3: nat = if is_sequenced(reliability) {
            p2 + 3
        } else {
            p2
        };
        proof {
            BinaryStream::lemma_advanced(s1, s2, (p3 - p2) as nat);
            assert(t.skip(p2 as int).skip(p3 - p2) =~= t.skip(p3 as int));
        }
        if is_sequenced_or_ordered(reliability) {
            let oi = stream.get_u24_le()?;
            let ghost s3 = *stream;
            proof {
                BinaryStream::lemma_advanced(s2, s3, 3);
            }
            let oc = stream.get_u8()?;
            proof {
                BinaryStream::lemma_advanced(s3, *stream, 1);
                assert(t.skip(p3 as int).skip(3)[0] == t[(p3 + 3) as int]);
            }
            Ok((message_index, sequence_index, Some(oi), Some(oc)))
        } else {
            Ok((message_index, sequence_index, None, None))
        }
    }

    /// Reads the split header (if split) and a payload of `byte_length` bytes.
    fn read_tail(stream: &mut BinaryStream, has_split: bool, byte_length: usize) -> (r: Result<
        (Option<SplitPacketInfo>, Vec<u8>),
        BinaryUtilError,
    >)
        ensures
            final(stream).data() == old(stream).data(),
            match parse_tail(old(stream).remaining(), has_split, byte_length as nat) {
                Ok((tl, n)) => (r matches Ok(x) && x.0 == tl.0 && x.1@ == tl.1)
                    && BinaryStream::advanced(*old(stream), *final(stream), n),
                Err(c) => (r matches Err(e) && e.is_short()) && BinaryStream::advanced(
                    *old(stream),
                    *final(stream),
                    c,
                ),
            },
    {
        let ghost t = old(stream).remaining();
        let ghost s0 = *stream;
        proof {
            s0.lemma_pos();
        }
        let split_info = if has_split {
            Some(SplitPacketInfo::read_from(stream)?)
        } else {
            None
        };
        let ghost s1 = *stream;
        let ghost p5: nat = if has_split {
            10
        } else {
            0
        };
        proof {
            BinaryStream::lemma_advanced(s0, s1, p5);
        }
        let buffer = stream.get(byte_length)?;
        proof {
            BinaryStream::lemma_advanced(s1, *stream, byte_length as nat);
            assert(buffer@ =~= t.subrange(p5 as int, (p5 + byte_length) as int));
        }
        Ok((split_info, buffer))
    }

    /// The packet's bytes.
    pub fn to_binary(&self) -> (r: Result<Vec<u8>, BinaryUtilError>)
        ensures
            r matches Ok(v) && v@ == enc_encapsulated(self@),
    {
        let mut stream = BinaryStream::new();
        self.write_to(&mut stream)?;
        proof {
            assert(Seq::<u8>::empty() + enc_encapsulated(self@) =~= enc_encapsulated(self@));
        }
        Ok(stream.into_inner())
    }

    /// Writes the packet.
    pub fn write_to(&self, stream: &mut BinaryStream) -> (r: Result<(), BinaryUtilError>)
        ensures
            r is Ok,
            final(stream).pos() == old(stream).pos(),
            final(stream).data() == old(stream).data() + enc_encapsulated(self@),
    {
        let flags = (self.reliability << 5u8) | if self.split_info.is_some() {
            0x10u8
        } else {
            0u8
        };
        stream.put_u8(flags);
        let len = self.buffer.len();
        let bits = ((len % 8192) * 8) as u16;
        stream.put_u16_be(bits);
        let ghost h = stream.data();
        proof {
            assert(bits == bit_length(self.buffer@.len()));
            assert(h =~= old(stream).data() + seq![enc_flags(self@)] + u16_be(bits));
        }
        self.write_indices(stream);
        let ghost h2 = stream.data();
        match self.split_info {
            Some(info) => {
                info.write_to(stream)?;
            },
            None => {},
        }
        stream.put(self.buffer.as_slice());
        proof {
            assert(stream.data() =~= h2 + enc_tail(self@));
            assert(stream.data() =~= old(stream).data() + enc_encapsulated(self@));
        }
        Ok(())
    }

    /// Writes the index fields that are set and that the reliability class calls for.
    fn write_indices(&self, stream: &mut BinaryStream)
        ensures
            final(stream).pos() == old(stream).pos(),
            final(stream).data() == old(stream).data() + enc_indices(self@),
    {
        match self.message_index {
            Some(index) => {
                if is_reliable(self.reliability) {
                    stream.put_u24_le(index);
                }
            },
            None => {},
        }
        let ghost a = stream.data();
        match self.sequence_index {
            Some(index) => {
                if is_sequenced(self.reliability) {
                    stream.put_u24_le(index);
                }
            },
            None => {},
        }
        let ghost b = stream.data();
        match (self.order_index, self.order_channel) {
            (Some(index), Some(channel)) => {
                if is_sequenced_or_ordered(self.reliability) {
                    stream.put_u24_le(index);
                    stream.put_u8(channel);
                }
            },
            _ => {},
        }
        proof {
            assert(stream.data() =~= old(stream).data() + enc_indices(self@));
        }
    }

    /// The bytes of the headers: flags, length, and the indices, channel and split header
    /// that the reliability class and split state call for.
    pub fn header_length(&self) -> (r: usize)
        ensures
            r == header_len(self@),
    {
        1 + 2 + if is_reliable(self.reliability) {
            3
        } else {
            0
        } + if is_sequenced(self.reliability) {
            3
        } else {
            0
        } + if is_sequenced_or_ordered(self.reliability) {
            3 + 1
        } else {
            0
        } + if self.split_info.is_some() {
            SplitPacketInfo::ENCODED_LENGTH
        } else {
            0
        }
    }

    /// The headers and the payload together.
    pub fn total_length(&self) -> (r: usize)
        requires
            header_len(self@) + self.buffer@.len() <= usize::MAX,
        ensures
            r == header_len(self@) + self.buffer@.len(),
    {
        self.header_length() + self.buffer.len()
    }
}

/// The abstract value of a datagram.
pub struct DatagramView {
    pub header_flags: u8,
    pub seq_number: u32,
    pub packets: Seq<EncapsulatedView>,
}

/// A datagram: a header and the encapsulated packets it carries.
#[derive(Debug, Clone)]
pub struct Datagram {
    /// Flags such as ACK and NACK; the valid bit is added when writing and dropped when
    /// reading.
    pub header_flags: u8,
    pub seq_number: u32,
    pub packets: Vec<EncapsulatedPacket>,
}

/// The views of packets.
pub open spec fn packets_view(ps: Seq<EncapsulatedPacket>) -> Seq<EncapsulatedView> {
    ps.map_values(|p: EncapsulatedPacket| p@)
}

impl View for Datagram {
    type V = DatagramView;

    open spec fn view(&self) -> DatagramView {
        DatagramView {
            header_flags: self.header_flags,
            seq_number: self.seq_number,
            packets: packets_view(self.packets@),
        }
    }
}

/// Packets, one after another.
pub open spec fn enc_packets(ps: Seq<EncapsulatedView>) -> Seq<u8>
    decreases ps.len(),
{
    if ps.len() == 0 {
        Seq::empty()
    } else {
        enc_packets(ps.drop_last()) + enc_encapsulated(ps.last())
    }
}

/// A datagram's bytes: the flags with the valid bit set, the low 24 bits of the sequence
/// number (little-endian), then the packets.
pub open spec fn enc_datagram(d: DatagramView) -> Seq<u8> {
    seq![d.header_flags | 0x80u8] + u24_le(d.seq_number) + enc_packets(d.packets)
}

/// Reads packets until the bytes end, after those in `acc`. A packet cut short by the
/// end of the bytes, with nothing left after the failed read, ends the list; any other
/// failure is an error (`true` if the bytes ran out).
pub open spec fn parse_packets(acc: Seq<EncapsulatedView>, s: Seq<u8>) -> Result<
    Seq<EncapsulatedView>,
    bool,
>
    decreases s.len(),
{
    if s.len() == 0 {
        Ok(acc)
    } else {
        match parse_encapsulated(s) {
            Ok((p, n)) => if n == 0 || n > s.len() {
                Err(false)
            } else {
                parse_packets(acc.push(p), s.skip(n as int))
            },
            Err((short, c)) => if short && c == s.len() {
                Ok(acc)
            } else {
                Err(short)
            },
        }
    }
}

/// Reads a datagram that fills the bytes: an error says whether the bytes ran out
/// (`true`) or were invalid.
pub open spec fn parse_datagram(s: Seq<u8>) -> Result<DatagramView, bool> {
    if s.len() < 1 {
        Err(true)
    } else if s[0] & 0x80u8 == 0 {
        Err(false)
    } else if s.len() < 4 {
        Err(true)
    } else {
        match parse_packets(Seq::empty(), s.skip(4)) {
            Ok(ps) => Ok(
                DatagramView {
                    header_flags: s[0] & 0x7fu8,
                    seq_number: le_u24(s.skip(1)),
                    packets: ps,
                },
            ),
            Err(short) => Err(short),
        }
    }
}

/// The bytes of packets' headers and payloads together.
pub open spec fn packets_len(ps: Seq<EncapsulatedView>) -> nat
    decreases ps.len(),
{
    if ps.len() == 0 {
        0
    } else {
        packets_len(ps.drop_last()) + header_len(ps.last()) + ps.last().buffer.len()
    }
}

impl Datagram {
    pub const BITFLAG_VALID: u8 = 0x80;
    pub const BITFLAG_ACK: u8 = 0x40;
    pub const BITFLAG_NAK: u8 = 0x20;
    /// The flags byte and the sequence number.
    pub const HEADER_SIZE: usize = 4;

    pub fn new() -> (r: Self)
        ensures
            r.header_flags == 0,
            r.seq_number == 0,
            r.packets@ == Seq::<EncapsulatedPacket>::empty(),
    {
        Datagram { header_flags: 0, seq_number: 0, packets: Vec::new() }
    }

    /// Writes the datagram.
    pub fn encode(&self, stream: &mut BinaryStream) -> (r: Result<(), BinaryUtilError>)
        ensures
            r is Ok,
            final(stream).pos() == old(stream).pos(),
            final(stream).data() == old(stream).data() + enc_datagram(self@),
    {
        stream.put_u8(self.header_flags | Self::BITFLAG_VALID);
        stream.put_u24_le(self.seq_number);
        let ghost head = stream.data();
        let ghost ps = packets_view(self.packets@);
        let mut i: usize = 0;
        proof {
            assert(ps.take(0) =~= Seq::<EncapsulatedView>::empty());
            assert(stream.data() =~= head + enc_packets(ps.take(0)));
        }
        while i < self.packets.len()
            invariant
                i <= self.packets@.len(),
                ps == packets_view(self.packets@),
                stream.pos() == old(stream).pos(),
                stream.data() == head + enc_packets(ps.take(i as int)),
            decreases self.packets@.len() - i,
        {
            self.packets[i].write_to(stream)?;
            proof {
                assert(ps.take(i + 1).drop_last() =~= ps.take(i as int));
                assert(ps.take(i + 1).last() == self.packets@[i as int]@);
            }
            i = i + 1;
        }
        proof {
            assert(ps.take(ps.len() as int) =~= ps);
            assert(stream.data() =~= old(stream).data() + enc_datagram(self@));
        }
        Ok(())
    }

    /// Reads a datagram that runs to the end of the bytes.
    pub fn decode(stream: &mut BinaryStream) -> (r: Result<Self, BinaryUtilError>)
        ensures
            final(stream).data() == old(stream).data(),
            match parse_datagram(old(stream).remaining()) {
                Ok(d) => (r matches Ok(x) && x@ == d) && final(stream).remaining().len() == 0,
                Err(short) => r matches Err(e) && e.is_short() == short,
            },
    {
        let ghost s = stream.remaining();
        let ghost s0 = *stream;
        proof {
            s0.lemma_pos();
        }
        let flags = stream.get_u8()?;
        if (flags & Self::BITFLAG_VALID) == 0 {
            return Err(BinaryUtilError::InvalidData("Datagram VALID bit not set".to_owned()));
        }
        let header_flags = flags & 0x7f;
        let ghost s1 = *stream;
        proof {
            BinaryStream::lemma_advanced(s0, s1, 1);
        }
        let seq_number = stream.get_u24_le()?;
        proof {
            BinaryStream::lemma_advanced(s1, *stream, 3);
            assert(s.skip(1).skip(3) =~= s.skip(4));
        }
        let mut packets: Vec<EncapsulatedPacket> = Vec::new();
        proof {
            assert(packets_view(packets@) =~= Seq::<EncapsulatedView>::empty());
        }
        while !stream.feof()
            invariant
                stream.data() == old(stream).data(),
                s == old(stream).remaining(),
                s.len() >= 4,
                s[0] & 0x80u8 != 0,
                header_flags == s[0] & 0x7fu8,
                seq_number == le_u24(s.skip(1)),
                parse_packets(Seq::empty(), s.skip(4)) == parse_packets(
                    packets_view(packets@),
                    stream.remaining(),
                ),
            decreases stream.remaining().len(),
        {
            let ghost cur = *stream;
            proof {
                cur.lemma_pos();
            }
            match EncapsulatedPacket::from_binary(stream) {
                Ok(pk) => {
                    proof {
                        let n = match parse_encapsulated(cur.remaining()) {
                            Ok((_, j)) => j,
                            Err(_) => 0,
                        };
                        BinaryStream::lemma_advanced(cur, *stream, n);
                        assert(packets_view(packets@.push(pk)) =~= packets_view(packets@).push(
                            pk@,
                        ));
                    }
                    packets.push(pk);
                },
                Err(e) => {
                    let ghost c = match parse_encapsulated(cur.remaining()) {
                        Ok(_) => 0,
                        Err((_, j)) => j,
                    };
                    proof {
                        BinaryStream::lemma_advanced(cur, *stream, c);
                        stream.lemma_pos();
                    }
                    if e.is_not_enough_data() && stream.feof() {
                        return Ok(Datagram { header_flags, seq_number, packets });
                    }
                    return Err(e);
                },
            }
        }
        proof {
            stream.lemma_pos();
        }
        Ok(Datagram { header_flags, seq_number, packets })
    }

    /// The header and every packet's headers and payload together.
    pub fn length(&self) -> (r: usize)
        requires
            4 + packets_len(packets_view(self.packets@)) <= usize::MAX,
        ensures
            r == 4 + packets_len(packets_view(self.packets@)),
    {
        let ghost ps = packets_view(self.packets@);
        let mut total: usize = Self::HEADER_SIZE;
        let mut i: usize = 0;
        proof {
            assert(ps.take(0) =~= Seq::<EncapsulatedView>::empty());
        }
        while i < self.packets.len()
            invariant
                i <= self.packets@.len(),
                ps == packets_view(self.packets@),
                4 + packets_len(ps) <= usize::MAX,
                total == 4 + packets_len(ps.take(i as int)),
            decreases self.packets@.len() - i,
        {
            proof {
                assert(ps.take(i + 1).drop_last() =~= ps.take(i as int));
                assert(ps.take(i + 1).last() == self.packets@[i as int]@);
                lemma_packets_len_prefix(ps, i + 1);
            }
            total = total + self.packets[i].total_length();
            i = i + 1;
        }
        proof {
            assert(ps.take(ps.len() as int) =~= ps);
        }
        total
    }

    pub fn is_ack(&self) -> (r: bool)
        ensures
            r == (self.header_flags & 0x40u8 != 0),
    {
        (self.header_flags & Self::BITFLAG_ACK) != 0
    }

    pub fn is_nack(&self) -> (r: bool)
        ensures
            r == (self.header_flags & 0x20u8 != 0),
    {
        (self.header_flags & Self::BITFLAG_NAK) != 0
    }
}

/// The bytes of the first packets are at most those of all.
proof fn lemma_packets_len_prefix(ps: Seq<EncapsulatedView>, j: int)
    requires
        0 <= j <= ps.len(),
    ensures
        packets_len(ps.take(j)) <= packets_len(ps),
    decreases ps.len() - j,
{
    if j < ps.len() {
        lemma_packets_len_prefix(ps, j + 1);
        assert(ps.take(j + 1).drop_last() =~= ps.take(j));
    } else {
        assert(ps.take(j) =~= ps);
    }
}

} // verus!
