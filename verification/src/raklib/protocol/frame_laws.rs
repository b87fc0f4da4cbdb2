//! What reading gives back of what writing wrote, for encapsulated packets and datagrams.
use vstd::prelude::*;
use crate::binary::{
    be_u16, be_u32, le_u24, lemma_u16_be, lemma_u24_le, lemma_u32_be, u16_be, u24_le, u32_be,
};
use crate::raklib::protocol::consts::{
    spec_is_reliable, spec_is_sequenced, spec_is_sequenced_or_ordered,
};
use crate::raklib::protocol::frame::{
    DatagramView, EncapsulatedView, SplitPacketInfo, bit_length, enc_datagram, enc_encapsulated,
    enc_flags, enc_indices, enc_packets, enc_split, enc_tail, header_len, packets_len,
    parse_datagram, parse_encapsulated, parse_indices, parse_packets, parse_tail, split_at,
};

verus! {

/// A packet the wire format carries whole: a reliability class of three bits, a payload of
/// 1 to 8191 bytes, exactly the indices its class calls for, each of 24 bits, and no
/// receipt id, which never travels.
pub open spec fn wire_ready(p: EncapsulatedView) -> bool {
    &&& p.reliability < 8
    &&& 0 < p.buffer.len() < 8192
    &&& (spec_is_reliable(p.reliability) <==> p.message_index is Some)
    &&& (spec_is_sequenced(p.reliability) <==> p.sequence_index is Some)
    &&& (spec_is_sequenced_or_ordered(p.reliability) <==> p.order_index is Some)
    &&& (spec_is_sequenced_or_ordered(p.reliability) <==> p.order_channel is Some)
    &&& (p.message_index matches Some(i) ==> i < 0x1000000)
    &&& (p.sequence_index matches Some(i) ==> i < 0x1000000)
    &&& (p.order_index matches Some(i) ==> i < 0x1000000)
    &&& p.identifier_ack is None
}

/// The flags byte gives back the reliability class and whether the packet is split.
proof fn lemma_flags(r: u8, split: bool)
    requires
        r < 8,
    ensures
        (((r << 5u8) | (if split { 0x10u8 } else { 0u8 })) & 0xe0u8) >> 5u8 == r,
        ((((r << 5u8) | (if split { 0x10u8 } else { 0u8 })) & 0x10u8) != 0) == split,
{
    let f: u8 = if split {
        0x10u8
    } else {
        0u8
    };
    assert(r < 8 && (f == 0 || f == 0x10) ==> (((r << 5u8) | f) & 0xe0u8) >> 5u8 == r)
        by (bit_vector);
    assert(r < 8 && (f == 0 || f == 0x10) ==> ((((r << 5u8) | f) & 0x10u8) != 0) == (f
        == 0x10)) by (bit_vector);
}

/// A split header gives back its fields.
proof fn lemma_split(i: SplitPacketInfo, rest: Seq<u8>)
    ensures
        enc_split(i).len() == 10,
        split_at(enc_split(i) + rest) == i,
{
    lemma_u32_be(i.total_part_count);
    lemma_u16_be(i.id);
    lemma_u32_be(i.part_index);
    let b = enc_split(i) + rest;
    assert(b.take(4) =~= u32_be(i.total_part_count));
    assert(b.skip(4).take(2) =~= u16_be(i.id));
    assert(b.skip(6).take(4) =~= u32_be(i.part_index));
    assert(be_u32(b) == be_u32(u32_be(i.total_part_count)));
    assert(be_u16(b.skip(4)) == be_u16(u16_be(i.id)));
    assert(be_u32(b.skip(6)) == be_u32(u32_be(i.part_index)));
}

/// The index fields written for a packet read back as its indices.
proof fn lemma_indices(p: EncapsulatedView, rest: Seq<u8>)
    requires
        wire_ready(p),
    ensures
        parse_indices(enc_indices(p) + rest, p.reliability) == Ok::<
            ((Option<u32>, Option<u32>, Option<u32>, Option<u8>), nat),
            nat,
        >(((p.message_index, p.sequence_index, p.order_index, p.order_channel), enc_indices(p).len())),
{
    let rel = p.reliability;
    let t = enc_indices(p) + rest;
    let p2: nat = if spec_is_reliable(rel) {
        3
    } else {
        0
    };
    let p3: nat = if spec_is_sequenced(rel) {
        p2 + 3
    } else {
        p2
    };
    let m = if spec_is_reliable(rel) {
        u24_le(p.message_index.unwrap())
    } else {
        Seq::empty()
    };
    let q = if spec_is_sequenced(rel) {
        u24_le(p.sequence_index.unwrap())
    } else {
        Seq::empty()
    };
    let o = if spec_is_sequenced_or_ordered(rel) {
        u24_le(p.order_index.unwrap()) + seq![p.order_channel.unwrap()]
    } else {
        Seq::empty()
    };
    assert(enc_indices(p) =~= m + q + o);
    assert(t =~= m + q + o + rest);
    if spec_is_reliable(rel) {
        lemma_u24_le(p.message_index.unwrap());
        assert(t.take(3) =~= u24_le(p.message_index.unwrap()));
        assert(le_u24(t) == le_u24(u24_le(p.message_index.unwrap())));
    }
    if spec_is_sequenced(rel) {
        lemma_u24_le(p.sequence_index.unwrap());
        assert(t.skip(p2 as int).take(3) =~= u24_le(p.sequence_index.unwrap()));
        assert(le_u24(t.skip(p2 as int)) == le_u24(u24_le(p.sequence_index.unwrap())));
    }
    if spec_is_sequenced_or_ordered(rel) {
        lemma_u24_le(p.order_index.unwrap());
        assert(t.skip(p3 as int).take(3) =~= u24_le(p.order_index.unwrap()));
        assert(le_u24(t.skip(p3 as int)) == le_u24(u24_le(p.order_index.unwrap())));
        assert(t[(p3 + 3) as int] == p.order_channel.unwrap());
    }
}

/// The split header and payload written for a packet read back as its own.
proof fn lemma_tail(p: EncapsulatedView, rest: Seq<u8>)
    ensures
        parse_tail(enc_tail(p) + rest, p.split_info is Some, p.buffer.len()) == Ok::<
            ((Option<SplitPacketInfo>, Seq<u8>), nat),
            nat,
        >(((p.split_info, p.buffer), enc_tail(p).len())),
{
    let u = enc_tail(p) + rest;
    if p.split_info is Some {
        lemma_split(p.split_info.unwrap(), p.buffer + rest);
        assert(u =~= enc_split(p.split_info.unwrap()) + (p.buffer + rest));
        assert(u.subrange(10, 10 + p.buffer.len() as int) =~= p.buffer);
    } else {
        assert(u =~= p.buffer + rest);
        assert(u.subrange(0, p.buffer.len() as int) =~= p.buffer);
    }
}

/// The bit length written for a payload of 1 to 8191 bytes reads back as its byte count.
proof fn lemma_bit_length(len: nat)
    requires
        0 < len < 8192,
    ensures
        bit_length(len) as nat == len * 8,
        ((bit_length(len) as nat) + 7) / 8 == len,
{
    assert(len % 8192 == len);
    assert(len * 8 < 65536);
    assert(((len * 8 + 7) / 8) == len) by (nonlinear_arith)
        requires
            len > 0,
    ;
}

/// An encapsulated packet round trip: reading the bytes written for a packet the wire
/// carries whole, whatever follows them, gives back the packet and the number of bytes
/// written.
#[verifier::rlimit(40)]
pub proof fn lemma_encapsulated_roundtrip(p: EncapsulatedView, rest: Seq<u8>)
    requires
        wire_ready(p),
    ensures
        parse_encapsulated(enc_encapsulated(p) + rest) == Ok::<(EncapsulatedView, nat), (bool, nat)>(
            (p, enc_encapsulated(p).len()),
        ),
{
    let rel = p.reliability;
    let s = enc_encapsulated(p) + rest;
    let len = p.buffer.len();
    lemma_flags(rel, p.split_info is Some);
    assert(s[0] == enc_flags(p));
    let bl = bit_length(len);
    lemma_bit_length(len);
    lemma_u16_be(bl);
    assert(s.skip(1).take(2) =~= u16_be(bl));
    assert(be_u16(s.skip(1)) == bl);
    let k = enc_indices(p).len();
    lemma_indices(p, enc_tail(p) + rest);
    assert(s.skip(3) =~= enc_indices(p) + (enc_tail(p) + rest));
    lemma_tail(p, rest);
    assert(s.skip((3 + k) as int) =~= enc_tail(p) + rest);
    assert(enc_encapsulated(p).len() == 3 + k + enc_tail(p).len());
}

/// Writing packets one after another: the first packet's bytes, then the rest's.
proof fn lemma_enc_packets_prepend(p: EncapsulatedView, ps: Seq<EncapsulatedView>)
    ensures
        enc_packets(seq![p] + ps) == enc_encapsulated(p) + enc_packets(ps),
    decreases ps.len(),
{
    if ps.len() == 0 {
        assert((seq![p] + ps).drop_last() =~= Seq::<EncapsulatedView>::empty());
        assert(enc_packets(Seq::<EncapsulatedView>::empty()) =~= Seq::<u8>::empty());
        assert(enc_packets(seq![p] + ps) =~= enc_encapsulated(p) + enc_packets(ps));
    } else {
        assert((seq![p] + ps).drop_last() =~= seq![p] + ps.drop_last());
        lemma_enc_packets_prepend(p, ps.drop_last());
        assert(enc_packets(seq![p] + ps) =~= enc_encapsulated(p) + enc_packets(ps));
    }
}

/// Reading packets back from their bytes gives them after those read before.
proof fn lemma_packets_roundtrip(acc: Seq<EncapsulatedView>, ps: Seq<EncapsulatedView>)
    requires
        forall|i: int| 0 <= i < ps.len() ==> wire_ready(#[trigger] ps[i]),
    ensures
        parse_packets(acc, enc_packets(ps)) == Ok::<Seq<EncapsulatedView>, bool>(acc + ps),
    decreases ps.len(),
{
    if ps.len() == 0 {
        assert(enc_packets(ps) =~= Seq::<u8>::empty());
        assert(acc + ps =~= acc);
    } else {
        let p = ps[0];
        let tail = ps.drop_first();
        assert(ps =~= seq![p] + tail);
        lemma_enc_packets_prepend(p, tail);
        assert(wire_ready(p));
        lemma_encapsulated_roundtrip(p, enc_packets(tail));
        let s = enc_packets(ps);
        let n = enc_encapsulated(p).len();
        assert(s == enc_encapsulated(p) + enc_packets(tail));
        assert(s.skip(n as int) =~= enc_packets(tail));
        assert forall|i: int| 0 <= i < tail.len() implies wire_ready(#[trigger] tail[i]) by {
            assert(tail[i] == ps[i + 1]);
        }
        lemma_packets_roundtrip(acc.push(p), tail);
        assert(acc.push(p) + tail =~= acc + ps);
    }
}

/// A datagram round trip: reading the bytes written for a datagram with plain flags, a
/// 24-bit sequence number and packets the wire carries whole gives back the datagram.
pub proof fn lemma_datagram_roundtrip(d: DatagramView)
    requires
        d.header_flags < 0x80,
        d.seq_number < 0x1000000,
        forall|i: int| 0 <= i < d.packets.len() ==> wire_ready(#[trigger] d.packets[i]),
    ensures
        parse_datagram(enc_datagram(d)) == Ok::<DatagramView, bool>(d),
{
    let s = enc_datagram(d);
    let f = d.header_flags;
    assert(f < 0x80 ==> (f | 0x80u8) & 0x80u8 != 0 && (f | 0x80u8) & 0x7fu8 == f)
        by (bit_vector);
    lemma_u24_le(d.seq_number);
    assert(s.skip(1).take(3) =~= u24_le(d.seq_number));
    assert(le_u24(s.skip(1)) == le_u24(u24_le(d.seq_number)));
    assert(s.skip(4) =~= enc_packets(d.packets));
    lemma_packets_roundtrip(Seq::empty(), d.packets);
    assert(Seq::<EncapsulatedView>::empty() + d.packets =~= d.packets);
}

/// Whether a packet carries exactly the indices its reliability class calls for.
pub open spec fn indices_match(p: EncapsulatedView) -> bool {
    &&& (spec_is_reliable(p.reliability) <==> p.message_index is Some)
    &&& (spec_is_sequenced(p.reliability) <==> p.sequence_index is Some)
    &&& (spec_is_sequenced_or_ordered(p.reliability) <==> p.order_index is Some)
    &&& (spec_is_sequenced_or_ordered(p.reliability) <==> p.order_channel is Some)
}

/// A packet that carries exactly the indices its class calls for is written in as many
/// bytes as its headers and payload count.
pub proof fn law_encapsulated_length(p: EncapsulatedView)
    requires
        indices_match(p),
    ensures
        enc_encapsulated(p).len() == header_len(p) + p.buffer.len(),
{
    if p.split_info is Some {
        lemma_split(p.split_info.unwrap(), Seq::empty());
    }
}

/// A datagram whose packets each carry exactly the indices their class calls for is
/// written in as many bytes as `Datagram::length` counts: four for its header, then each
/// packet's headers and payload.
pub proof fn law_datagram_length(d: DatagramView)
    requires
        forall|i: int| 0 <= i < d.packets.len() ==> indices_match(#[trigger] d.packets[i]),
    ensures
        enc_datagram(d).len() == 4 + packets_len(d.packets),
{
    lemma_packets_length(d.packets);
}

/// Packets are written in as many bytes as their headers and payloads count.
proof fn lemma_packets_length(ps: Seq<EncapsulatedView>)
    requires
        forall|i: int| 0 <= i < ps.len() ==> indices_match(#[trigger] ps[i]),
    ensures
        enc_packets(ps).len() == packets_len(ps),
    decreases ps.len(),
{
    if ps.len() > 0 {
        assert(indices_match(ps[ps.len() - 1]));
        assert forall|i: int| 0 <= i < ps.drop_last().len() implies indices_match(
            #[trigger] ps.drop_last()[i],
        ) by {
            assert(ps.drop_last()[i] == ps[i]);
        }
        lemma_packets_length(ps.drop_last());
        law_encapsulated_length(ps.last());
    }
}

} // verus!
