//! The reliability layers of a connection: what it numbers, splits, sends, resends and
//! acknowledges, and how it puts received packets back together and in order.
pub mod send;

use vstd::prelude::*;
use crate::binary::{BinaryStream, BinaryUtilError};
use crate::raklib::protocol::ack::{AcknowledgePacket, ACK, NACK, enc_ack_payload};
use crate::raklib::protocol::consts::{
    ID_ACK,
    ID_NACK,
    MAX_ORDER_CHANNELS,
    is_sequenced,
    is_sequenced_or_ordered,
    spec_is_sequenced,
    spec_is_sequenced_or_ordered,
};
use crate::raklib::protocol::frame::{Datagram, EncapsulatedPacket, EncapsulatedView};
use crate::raklib::table::{SeqMap, SeqSet, strictly_increasing};

verus! {

/// Sequence numbers, message indices and order indices count modulo this.
pub const SEQ_MODULUS: u32 = 0x1000000;

/// The number after `x`, modulo 2^24.
pub open spec fn next24(x: u32) -> u32 {
    ((x + 1) % 0x1000000) as u32
}

/// The number after `x`, modulo 2^24.
pub fn next_index(x: u32) -> (r: u32)
    ensures
        r == next24(x),
{
    let y: u64 = x as u64 + 1;
    assert(y & 0xFFFFFF == y % 0x1000000) by (bit_vector);
    (y & 0xFFFFFF) as u32
}

/// How far `b` lies after `a` on the circle of 24-bit numbers.
pub open spec fn dist(a: u32, b: u32) -> int {
    if b >= a {
        b - a
    } else {
        b + 0x1000000 - a
    }
}

/// `a` moved `k` places forward on the circle of 24-bit numbers.
pub open spec fn shift(a: u32, k: int) -> u32 {
    if a + k < 0x1000000 {
        (a + k) as u32
    } else {
        (a + k - 0x1000000) as u32
    }
}

/// Whether `s1` comes after `s2`, within half the circle.
pub open spec fn spec_seq_greater_than(s1: u32, s2: u32) -> bool {
    (s1 > s2 && s1 - s2 <= 0x7FFFFF) || (s1 < s2 && s2 - s1 > 0x7FFFFF)
}

/// Whether `s1` comes before `s2`, within half the circle.
pub open spec fn spec_seq_less_than(s1: u32, s2: u32) -> bool {
    (s1 < s2 && s2 - s1 <= 0x7FFFFF) || (s1 > s2 && s1 - s2 > 0x7FFFFF)
}

/// Whether `s1` comes after `s2`, within half the circle.
#[verifier::when_used_as_spec(spec_seq_greater_than)]
pub fn seq_greater_than(s1: u32, s2: u32) -> (r: bool)
    ensures
        r == spec_seq_greater_than(s1, s2),
{
    (s1 > s2 && s1 - s2 <= 0x7FFFFF) || (s1 < s2 && s2 - s1 > 0x7FFFFF)
}

/// Whether `s1` comes before `s2`, within half the circle.
#[verifier::when_used_as_spec(spec_seq_less_than)]
pub fn seq_less_than(s1: u32, s2: u32) -> (r: bool)
    ensures
        r == spec_seq_less_than(s1, s2),
{
    (s1 < s2 && s2 - s1 <= 0x7FFFFF) || (s1 > s2 && s1 - s2 > 0x7FFFFF)
}

/// Whether `seq` lies in the window that starts at `start` and ends before `end`.
pub open spec fn in_window(start: u32, end: u32, seq: u32) -> bool {
    seq < 0x1000000 && dist(start, seq) < dist(start, end)
}

/// The length of the run of numbers in `a` that starts at `s`.
pub open spec fn run_len(s: u32, a: Set<u32>, fuel: nat) -> nat
    decreases fuel,
{
    if fuel == 0 || !a.contains(s) {
        0
    } else {
        1 + run_len(next24(s), a, (fuel - 1) as nat)
    }
}

/// The sequence-number state of the receiving side.
pub struct ReceiveWindow {
    pub start: u32,
    pub end: u32,
    /// Datagrams received and not yet acknowledged.
    pub acks: Set<u32>,
    /// Datagrams found missing and not yet reported.
    pub nacks: Set<u32>,
    /// The highest sequence number received, or -1.
    pub highest: i64,
}

/// The acknowledgements a receive window gives: an ACK of the datagrams received, then a
/// NACK of those found missing, each in increasing order and only when not empty.
pub open spec fn acks_reported(w: ReceiveWindow, r: Seq<AcknowledgePacketWrapper>) -> bool {
    &&& r.len() == (if w.acks != Set::<u32>::empty() {
        1int
    } else {
        0
    }) + (if w.nacks != Set::<u32>::empty() {
        1int
    } else {
        0
    })
    &&& w.acks != Set::<u32>::empty() ==> (r[0] matches AcknowledgePacketWrapper::Ack(a)
        && a.0.packets@.to_set() == w.acks && strictly_increasing(a.0.packets@))
    &&& w.nacks != Set::<u32>::empty() ==> (r.last() matches AcknowledgePacketWrapper::Nack(n)
        && n.0.packets@.to_set() == w.nacks && strictly_increasing(n.0.packets@))
}

/// Whether a datagram with this number is taken: inside the window, and not seen before.
pub open spec fn accepts(w: ReceiveWindow, seq: u32) -> bool {
    in_window(w.start, w.end, seq) && !w.acks.contains(seq)
}

/// The numbers skipped between the window's start and `seq` that have not arrived.
pub open spec fn missing_before(w: ReceiveWindow, seq: u32) -> Set<u32> {
    let acks = w.acks.insert(seq);
    if spec_seq_greater_than(seq, w.start) {
        Set::new(|x: u32| x < 0x1000000 && dist(w.start, x) < dist(w.start, seq) && !acks.contains(x))
    } else {
        Set::empty()
    }
}

/// The window after a datagram with number `seq` is taken: `seq` is acknowledged, the
/// numbers skipped before it are reported missing, and the window moves past the run of
/// received numbers at its start, which need no acknowledgement of their own.
pub open spec fn window_after(w: ReceiveWindow, seq: u32) -> ReceiveWindow {
    let acks = w.acks.insert(seq);
    let k = run_len(w.start, acks, 0x1000000);
    ReceiveWindow {
        start: shift(w.start, k as int),
        end: shift(w.end, k as int),
        acks: Set::new(|x: u32| acks.contains(x) && dist(w.start, x) >= k),
        nacks: w.nacks.remove(seq).union(missing_before(w, seq)),
        highest: if w.highest < 0 || spec_seq_greater_than(seq, w.highest as u32) {
            seq as i64
        } else {
            w.highest
        },
    }
}

/// A run of received numbers that starts `j` places into a window of `width` numbers, all
/// of whose received numbers lie inside it, ends inside the window.
proof fn lemma_run_in_window(s0: u32, s: u32, a: Set<u32>, fuel: nat, j: nat, width: int)
    requires
        s0 < 0x1000000,
        s < 0x1000000,
        dist(s0, s) == j,
        j <= width,
        width < 0x1000000,
        forall|x: u32| #[trigger] a.contains(x) ==> x < 0x1000000 && dist(s0, x) < width,
    ensures
        j + run_len(s, a, fuel) <= width,
    decreases fuel,
{
    if fuel > 0 && a.contains(s) {
        lemma_run_in_window(s0, next24(s), a, (fuel - 1) as nat, j + 1, width);
    }
}

/// A datagram is taken at most once: once a number is taken, a datagram with the same
/// number is refused, as long as the window spans no more than half the numbers.
pub proof fn lemma_taken_once(w: ReceiveWindow, seq: u32)
    requires
        w.start < 0x1000000,
        w.end < 0x1000000,
        forall|x: u32| #[trigger] w.acks.contains(x) ==> in_window(w.start, w.end, x),
        dist(w.start, w.end) <= 0x800000,
        accepts(w, seq),
    ensures
        !accepts(window_after(w, seq), seq),
{
    let acks = w.acks.insert(seq);
    let width = dist(w.start, w.end);
    assert forall|x: u32| #[trigger] acks.contains(x) implies x < 0x1000000 && dist(w.start, x)
        < width by {
        if x != seq {
            assert(w.acks.contains(x));
        }
    }
    lemma_run_in_window(w.start, w.start, acks, 0x1000000, 0, width);
    let k = run_len(w.start, acks, 0x1000000);
    let after = window_after(w, seq);
    if dist(w.start, seq) >= k {
        assert(after.acks.contains(seq));
    } else {
        assert(dist(after.start, after.end) == width);
        assert(dist(after.start, seq) == dist(w.start, seq) - k + 0x1000000);
    }
}

/// Why a split packet is refused; each ends the connection.
#[derive(Debug, Clone, Copy, PartialEq, Eq, Structural)]
pub enum SplitPacketError {
    /// The part count is zero or above the limit.
    TooLarge { part_count: u32 },
    /// The part index is not below the part count.
    InvalidPartIndex { part_index: u32, part_count: u32 },
    /// A new split packet would exceed the number of those being put together at once.
    TooManyConcurrent { limit: usize },
    /// The part count differs from that of the parts already received.
    InconsistentHeader { split_id: u16, part_count: u32, expected: usize },
}

/// The payloads of the parts, one after another.
pub open spec fn concat_parts(s: Seq<Option<EncapsulatedPacket>>) -> Seq<u8>
    decreases s.len(),
{
    if s.len() == 0 {
        Seq::empty()
    } else {
        concat_parts(s.drop_last()) + match s.last() {
            Some(p) => p.buffer@,
            None => Seq::empty(),
        }
    }
}

/// Whether every part has arrived.
pub open spec fn all_parts(s: Seq<Option<EncapsulatedPacket>>) -> bool {
    forall|i: int| 0 <= i < s.len() ==> s[i] is Some
}

/// The packet the parts make: the first part's headers, every part's payload, no split
/// header.
pub open spec fn reassembled(s: Seq<Option<EncapsulatedPacket>>) -> EncapsulatedView {
    let first = match s[0] {
        Some(p) => p@,
        None => arbitrary(),
    };
    EncapsulatedView { split_info: None, buffer: concat_parts(s), ..first }
}

/// What taking a part of split packet `id` does to the parts received, `parts`, and what it
/// gives back: a refusal when the header is out of bounds or inconsistent, or when a new
/// split packet would exceed the limit; nothing when the part arrived before or parts are
/// still missing; the whole packet, which leaves the table, once the last part arrives.
pub open spec fn split_outcome(
    parts: Map<u32, Seq<Option<EncapsulatedPacket>>>,
    count: nat,
    max_parts: usize,
    max_concurrent: usize,
    info: crate::raklib::protocol::frame::SplitPacketInfo,
    packet: EncapsulatedPacket,
    parts_after: Map<u32, Seq<Option<EncapsulatedPacket>>>,
    r: Result<Option<EncapsulatedPacket>, SplitPacketError>,
) -> bool {
    let t = info.total_part_count;
    let i = info.part_index;
    let key = info.id as u32;
    if t == 0 || t > max_parts {
        r == Err::<Option<EncapsulatedPacket>, _>(SplitPacketError::TooLarge { part_count: t })
            && parts_after == parts
    } else if i >= t {
        r == Err::<Option<EncapsulatedPacket>, _>(
            SplitPacketError::InvalidPartIndex { part_index: i, part_count: t },
        ) && parts_after == parts
    } else if !parts.contains_key(key) && count >= max_concurrent {
        r == Err::<Option<EncapsulatedPacket>, _>(
            SplitPacketError::TooManyConcurrent { limit: max_concurrent },
        ) && parts_after == parts
    } else if parts.contains_key(key) && parts[key].len() != t {
        r == Err::<Option<EncapsulatedPacket>, _>(
            SplitPacketError::InconsistentHeader {
                split_id: info.id,
                part_count: t,
                expected: parts[key].len() as usize,
            },
        ) && parts_after == parts.remove(key)
    } else {
        let before = if parts.contains_key(key) {
            parts[key]
        } else {
            Seq::new(t as nat, |j: int| None::<EncapsulatedPacket>)
        };
        let after = before.update(i as int, Some(packet));
        if before[i as int] is Some {
            r == Ok::<_, SplitPacketError>(None::<EncapsulatedPacket>) && parts_after
                == parts.insert(key, before)
        } else if all_parts(after) {
            &&& r matches Ok(Some(p))
            &&& p@ == reassembled(after)
            &&& parts_after == parts.remove(key)
        } else {
            r == Ok::<_, SplitPacketError>(None::<EncapsulatedPacket>) && parts_after
                == parts.insert(key, after)
        }
    }
}

/// The packets buffered on a channel from `start` on without a gap, where the run ends,
/// and what stays buffered.
pub open spec fn ordered_run(m: Map<u32, EncapsulatedPacket>, start: u32, fuel: nat) -> (
    Seq<EncapsulatedPacket>,
    u32,
    Map<u32, EncapsulatedPacket>,
)
    decreases fuel,
{
    if fuel == 0 || !m.contains_key(start) {
        (Seq::empty(), start, m)
    } else {
        let rest = ordered_run(m.remove(start), next24(start), (fuel - 1) as nat);
        (seq![m[start]] + rest.0, rest.1, rest.2)
    }
}

/// The index `k` places after `start`, modulo 2^24.
pub open spec fn index_after(start: u32, k: int) -> u32 {
    ((start + k) % 0x1000000) as u32
}

/// What draining a channel's buffer from index `start` gives, when the fuel covers every
/// buffered packet: the packets at `start`, `start + 1`, ... as long as they are all
/// there, in that order; the channel then expects the index after the last of them, and
/// nothing waits under that index; every other packet stays buffered as it was.
pub proof fn law_ordered_run(m: Map<u32, EncapsulatedPacket>, start: u32, fuel: nat)
    requires
        start < 0x1000000,
        m.dom().finite(),
        m.dom().len() <= fuel,
    ensures
        !ordered_run(m, start, fuel).2.contains_key(ordered_run(m, start, fuel).1),
        ordered_run(m, start, fuel).1 == index_after(start, ordered_run(m, start, fuel).0.len() as int),
        forall|k: int|
            0 <= k < ordered_run(m, start, fuel).0.len() ==> m.contains_key(
                #[trigger] index_after(start, k),
            ),
        forall|k: int|
            0 <= k < ordered_run(m, start, fuel).0.len() ==> #[trigger] ordered_run(m, start, fuel).0[k]
                == m[index_after(start, k)],
        forall|x: u32|
            #[trigger] ordered_run(m, start, fuel).2.contains_key(x) <==> (m.contains_key(x) && !(
            exists|k: int| 0 <= k < ordered_run(m, start, fuel).0.len() && x == index_after(start, k))),
        forall|x: u32|
            #[trigger] ordered_run(m, start, fuel).2.contains_key(x) ==> ordered_run(
                m,
                start,
                fuel,
            ).2[x] == m[x],
    decreases fuel,
{
    let r = ordered_run(m, start, fuel);
    if fuel == 0 {
        m.dom().lemma_len0_is_empty();
        assert(!m.contains_key(start));
    }
    if !m.contains_key(start) {
        assert(r.0 =~= Seq::<EncapsulatedPacket>::empty());
    } else {
        let m1 = m.remove(start);
        let s1 = next24(start);
        assert(m1.dom() =~= m.dom().remove(start));
        law_ordered_run(m1, s1, (fuel - 1) as nat);
        let r1 = ordered_run(m1, s1, (fuel - 1) as nat);
        assert(r == (seq![m[start]] + r1.0, r1.1, r1.2));
        assert forall|k: int| 0 <= k implies index_after(s1, k) == index_after(start, k + 1) by {
            if start + 1 == 0x1000000 {
                vstd::arithmetic::div_mod::lemma_mod_add_multiples_vanish(k, 0x1000000);
            }
        }
        assert(index_after(start, 0) == start);
        assert forall|k: int|
            0 <= k < ordered_run(m, start, fuel).0.len() implies m.contains_key(index_after(start, k))
                && #[trigger] ordered_run(m, start, fuel).0[k] == m[index_after(start, k)] by {
            if k > 0 {
                assert(r.0[k] == r1.0[k - 1]);
                assert(index_after(s1, k - 1) == index_after(start, k));
                let x = index_after(s1, k - 1);
                assert(m1.contains_key(x) && r1.0[k - 1] == m1[x]);
                assert(m1[x] == m[x]);
            } else {
                assert(r.0[0] == m[start]);
            }
        }
        assert forall|k: int| 0 <= k < r.0.len() implies m.contains_key(#[trigger] index_after(start, k)) by {
            if k > 0 {
                assert(index_after(s1, k - 1) == index_after(start, k));
                assert(m1.contains_key(index_after(s1, k - 1)));
            }
        }
        assert forall|x: u32| #[trigger] r.2.contains_key(x) <==> (m.contains_key(x) && !(exists|k: int|
            0 <= k < r.0.len() && x == index_after(start, k))) by {
            if r.2.contains_key(x) {
                assert(x != start);
                if exists|k: int| 0 <= k < r.0.len() && x == index_after(start, k) {
                    let k = choose|k: int| 0 <= k < r.0.len() && x == index_after(start, k);
                    assert(k > 0);
                    assert(index_after(s1, k - 1) == x);
                }
            } else if m.contains_key(x) && x != start {
                let k1 = choose|k: int| 0 <= k < r1.0.len() && x == index_after(s1, k);
                assert(index_after(start, k1 + 1) == x);
            }
        }
    }
}

/// The outcome of step `i` of a run of `k` steps ending in `r`: only a last step can fail.
pub open spec fn step_outcome(r: Result<(), SplitPacketError>, i: int, k: int) -> Result<
    (),
    SplitPacketError,
> {
    if r is Err && i == k - 1 {
        r
    } else {
        Ok(())
    }
}

/// What a packet that arrives does, a split part being put together first: a refused
/// part gives its error and a part that completes nothing gives nothing; a whole packet
/// is then ordered as `order_outcome` says.
pub open spec fn split_then_ordered(
    parts: Map<u32, Seq<Option<EncapsulatedPacket>>>,
    count: nat,
    max_parts: usize,
    max_concurrent: usize,
    info: crate::raklib::protocol::frame::SplitPacketInfo,
    packet: EncapsulatedPacket,
    parts_after: Map<u32, Seq<Option<EncapsulatedPacket>>>,
    r: Result<(), SplitPacketError>,
    ordered: Seq<u32>,
    sequenced: Seq<u32>,
    buffers: Seq<Map<u32, EncapsulatedPacket>>,
    lens: Seq<nat>,
    window_size: u32,
    delivered: Seq<EncapsulatedPacket>,
    ordered_after: Seq<u32>,
    sequenced_after: Seq<u32>,
    buffers_after: Seq<Map<u32, EncapsulatedPacket>>,
    delivered_after: Seq<EncapsulatedPacket>,
) -> bool {
    exists|s: Result<Option<EncapsulatedPacket>, SplitPacketError>|
        #![trigger split_outcome(parts, count, max_parts, max_concurrent, info, packet, parts_after, s)]
        split_outcome(parts, count, max_parts, max_concurrent, info, packet, parts_after, s)
            && match s {
            Err(e) => r == Err::<(), SplitPacketError>(e) && ordered_after == ordered
                && sequenced_after == sequenced && buffers_after == buffers && delivered_after
                == delivered,
            Ok(None) => r is Ok && ordered_after == ordered && sequenced_after == sequenced
                && buffers_after == buffers && delivered_after == delivered,
            Ok(Some(w)) => r is Ok && order_outcome(
                ordered,
                sequenced,
                buffers,
                lens,
                window_size,
                w,
                delivered,
                ordered_after,
                sequenced_after,
                buffers_after,
                delivered_after,
            ),
        }
}

/// What handing a whole packet on does: a packet neither sequenced nor ordered is delivered
/// at once; one on a channel past the last is dropped; a sequenced packet is delivered
/// unless it is older than the last ordered or sequenced packet of its channel; an ordered
/// packet is delivered when it is the one expected, with the run of buffered packets that
/// follow it, is buffered when it comes early and the channel's buffer has room, and is
/// dropped otherwise.
pub open spec fn order_outcome(
    ordered: Seq<u32>,
    sequenced: Seq<u32>,
    buffers: Seq<Map<u32, EncapsulatedPacket>>,
    lens: Seq<nat>,
    window_size: u32,
    packet: EncapsulatedPacket,
    delivered: Seq<EncapsulatedPacket>,
    ordered_after: Seq<u32>,
    sequenced_after: Seq<u32>,
    buffers_after: Seq<Map<u32, EncapsulatedPacket>>,
    delivered_after: Seq<EncapsulatedPacket>,
) -> bool {
    let rel = packet.reliability;
    let c: int = match packet.order_channel {
        Some(c) => c as int,
        None => 0,
    };
    let order_idx: u32 = match packet.order_index {
        Some(i) => i,
        None => 0,
    };
    let seq_idx: u32 = match packet.sequence_index {
        Some(i) => i,
        None => 0,
    };
    let unchanged = ordered_after == ordered && sequenced_after == sequenced && buffers_after
        == buffers;
    if !spec_is_sequenced_or_ordered(rel) {
        unchanged && delivered_after == delivered.push(packet)
    } else if c >= MAX_ORDER_CHANNELS {
        unchanged && delivered_after == delivered
    } else if spec_is_sequenced(rel) {
        if spec_seq_less_than(order_idx, ordered[c]) || spec_seq_less_than(seq_idx, sequenced[c]) {
            unchanged && delivered_after == delivered
        } else {
            &&& ordered_after == ordered
            &&& sequenced_after == sequenced.update(c, next24(seq_idx))
            &&& buffers_after == buffers
            &&& delivered_after == delivered.push(packet)
        }
    } else if order_idx == ordered[c] {
        let run = ordered_run(buffers[c], next24(order_idx), lens[c]);
        &&& ordered_after == ordered.update(c, run.1)
        &&& sequenced_after == sequenced.update(c, 0)
        &&& buffers_after == buffers.update(c, run.2)
        &&& delivered_after == delivered.push(packet) + run.0
    } else if spec_seq_greater_than(order_idx, ordered[c]) && lens[c] < window_size {
        &&& ordered_after == ordered
        &&& sequenced_after == sequenced
        &&& buffers_after == buffers.update(c, buffers[c].insert(order_idx, packet))
        &&& delivered_after == delivered
    } else {
        unchanged && delivered_after == delivered
    }
}

/// An acknowledgement on its way out: an ACK or a NACK.
#[derive(Debug)]
pub enum AcknowledgePacketWrapper {
    Ack(ACK),
    Nack(NACK),
}

impl AcknowledgePacketWrapper {
    /// The sequence numbers it carries.
    pub open spec fn numbers(&self) -> Seq<u32> {
        match self {
            AcknowledgePacketWrapper::Ack(a) => a.0.packets@,
            AcknowledgePacketWrapper::Nack(n) => n.0.packets@,
        }
    }

    /// Writes the packet: its id byte and its records.
    pub fn encode(&self, stream: &mut BinaryStream) -> (r: Result<(), BinaryUtilError>)
        ensures
            r is Ok,
            final(stream).pos() == old(stream).pos(),
            final(stream).data() == old(stream).data() + seq![self.spec_id()] + enc_ack_payload(
                self.numbers(),
            ),
    {
        match self {
            AcknowledgePacketWrapper::Ack(ack) => ack.encode(stream),
            AcknowledgePacketWrapper::Nack(nack) => nack.encode(stream),
        }
    }

    pub open spec fn spec_id(&self) -> u8 {
        match self {
            AcknowledgePacketWrapper::Ack(_) => ID_ACK,
            AcknowledgePacketWrapper::Nack(_) => ID_NACK,
        }
    }

    /// The packet's id byte.
    #[verifier::when_used_as_spec(spec_id)]
    pub fn id(&self) -> (r: u8)
        ensures
            r == self.spec_id(),
    {
        match self {
            AcknowledgePacketWrapper::Ack(_) => ACK::id(),
            AcknowledgePacketWrapper::Nack(_) => NACK::id(),
        }
    }
}

/// A packet that is neither split nor sequenced nor ordered: it is delivered as it comes.
pub open spec fn plain_packet(p: EncapsulatedPacket) -> bool {
    p.split_info is None && !spec_is_sequenced_or_ordered(p.reliability)
}

/// The receiving side of a connection: which datagrams arrived, which went missing, and
/// the packets waiting for their parts or for their turn.
#[derive(Debug)]
pub struct ReceiveReliabilityLayer {
    window_start: u32,
    window_end: u32,
    window_size: u32,
    highest_seq_number: i64,
    ack_queue: SeqSet,
    nack_queue: SeqSet,
    recv_ordered_index: Vec<u32>,
    recv_sequenced_highest_index: Vec<u32>,
    recv_ordered_packets: Vec<SeqMap<EncapsulatedPacket>>,
    split_packets: SeqMap<Vec<Option<EncapsulatedPacket>>>,
    max_split_packet_part_count: usize,
    max_concurrent_split_packets: usize,
}

impl ReceiveReliabilityLayer {
    /// The sequence-number state.
    pub closed spec fn window(&self) -> ReceiveWindow {
        ReceiveWindow {
            start: self.window_start,
            end: self.window_end,
            acks: self.ack_queue@,
            nacks: self.nack_queue@,
            highest: self.highest_seq_number,
        }
    }

    /// The limit on the window's size it was made with.
    pub closed spec fn window_size(&self) -> u32 {
        self.window_size
    }

    /// The order index expected next on each channel.
    pub closed spec fn ordered_index(&self) -> Seq<u32> {
        self.recv_ordered_index@
    }

    /// The sequence index below which sequenced packets are old, on each channel.
    pub closed spec fn sequenced_index(&self) -> Seq<u32> {
        self.recv_sequenced_highest_index@
    }

    /// The packets that arrived ahead of their turn on each channel, by order index.
    pub closed spec fn ordered_buffers(&self) -> Seq<Map<u32, EncapsulatedPacket>> {
        self.recv_ordered_packets@.map_values(|m: SeqMap<EncapsulatedPacket>| m.as_map())
    }

    /// How many packets wait on each channel.
    pub closed spec fn ordered_buffer_lens(&self) -> Seq<nat> {
        self.recv_ordered_packets@.map_values(|m: SeqMap<EncapsulatedPacket>| m.entries().len())
    }

    /// The parts received of each split packet, by split id.
    pub closed spec fn split_parts(&self) -> Map<u32, Seq<Option<EncapsulatedPacket>>> {
        Map::new(
            |k: u32| self.split_packets.as_map().contains_key(k),
            |k: u32| self.split_packets.as_map()[k]@,
        )
    }

    /// How many split packets are being put together.
    pub closed spec fn split_count(&self) -> nat {
        self.split_packets.entries().len()
    }

    /// What handing packet `p` on does, from layer `a` and packets delivered `da` to layer
    /// `b` and packets delivered `db`, with outcome `r`: the window and limits stay; an
    /// unsplit packet is ordered as `order_outcome` says; a split part is put together first
    /// (`split_then_ordered`).
    pub open spec fn handled(
        a: Self,
        b: Self,
        p: EncapsulatedPacket,
        da: Seq<EncapsulatedPacket>,
        db: Seq<EncapsulatedPacket>,
        r: Result<(), SplitPacketError>,
    ) -> bool {
        &&& b.wf()
        &&& b.window() == a.window()
        &&& b.window_size() == a.window_size()
        &&& b.max_parts() == a.max_parts()
        &&& b.max_concurrent() == a.max_concurrent()
        &&& p.split_info is None ==> r is Ok && b.split_parts() == a.split_parts() && order_outcome(
            a.ordered_index(),
            a.sequenced_index(),
            a.ordered_buffers(),
            a.ordered_buffer_lens(),
            a.window_size(),
            p,
            da,
            b.ordered_index(),
            b.sequenced_index(),
            b.ordered_buffers(),
            db,
        )
        &&& p.split_info matches Some(info) ==> split_then_ordered(
            a.split_parts(),
            a.split_count(),
            a.max_parts(),
            a.max_concurrent(),
            info,
            p,
            b.split_parts(),
            r,
            a.ordered_index(),
            a.sequenced_index(),
            a.ordered_buffers(),
            a.ordered_buffer_lens(),
            a.window_size(),
            da,
            b.ordered_index(),
            b.sequenced_index(),
            b.ordered_buffers(),
            db,
        )
    }

    /// Packets `ps` handed on one after the other, from layer `a` (its window being `w`) to
    /// layer `b`, the packets delivered growing from `da` to `db`: each packet is handled as
    /// `handled` says, and the first refused split part stops the run with its error.
    pub open spec fn handled_all(
        a: Self,
        w: ReceiveWindow,
        b: Self,
        ps: Seq<EncapsulatedPacket>,
        da: Seq<EncapsulatedPacket>,
        db: Seq<EncapsulatedPacket>,
        r: Result<(), SplitPacketError>,
    ) -> bool {
        exists|states: Seq<Self>, ds: Seq<Seq<EncapsulatedPacket>>|
            #![trigger states[0], ds[0]]
            {
                &&& Self::handled_run(states, ds, ps, r)
                &&& r is Ok ==> states.len() == ps.len() + 1
                &&& Self::same_but_window(states[0], a)
                &&& states[0].window() == w
                &&& ds[0] == da
                &&& states.last() == b
                &&& ds.last() == db
            }
    }

    /// A run of packets handled, one more handled after it, is a run one longer.
    proof fn lemma_run_push(
        states: Seq<Self>,
        ds: Seq<Seq<EncapsulatedPacket>>,
        ps: Seq<EncapsulatedPacket>,
        next: Self,
        dnext: Seq<EncapsulatedPacket>,
        outcome: Result<(), SplitPacketError>,
    )
        requires
            Self::handled_run(states, ds, ps, Ok(())),
            states.len() <= ps.len(),
            Self::handled(
                states.last(),
                next,
                ps[states.len() - 1],
                ds.last(),
                dnext,
                outcome,
            ),
        ensures
            Self::handled_run(states.push(next), ds.push(dnext), ps, outcome),
    {
        let k = states.len() - 1;
        let states2 = states.push(next);
        let ds2 = ds.push(dnext);
        assert forall|i: int|
            #![trigger states2[i]]
            0 <= i < k + 1 implies Self::handled(
                states2[i],
                states2[i + 1],
                ps[i],
                ds2[i],
                ds2[i + 1],
                step_outcome(outcome, i, k + 1),
            ) by {
            if i < k {
                assert(states2[i] == states[i]);
                assert(states2[i + 1] == states[i + 1]);
                assert(ds2[i] == ds[i]);
                assert(ds2[i + 1] == ds[i + 1]);
                assert(states[i] == states[i]);
            }
        }
    }

    /// Two layers alike in all that handing packets on reads, the window aside.
    pub open spec fn same_but_window(x: Self, y: Self) -> bool {
        &&& x.ordered_index() == y.ordered_index()
        &&& x.sequenced_index() == y.sequenced_index()
        &&& x.ordered_buffers() == y.ordered_buffers()
        &&& x.ordered_buffer_lens() == y.ordered_buffer_lens()
        &&& x.split_parts() == y.split_parts()
        &&& x.split_count() == y.split_count()
        &&& x.max_parts() == y.max_parts()
        &&& x.max_concurrent() == y.max_concurrent()
        &&& x.window_size() == y.window_size()
    }

    /// A run of packets handled one after another through the layers `states`, the packets
    /// delivered being `ds`: every step but a last refused one gives `Ok`.
    pub open spec fn handled_run(
        states: Seq<Self>,
        ds: Seq<Seq<EncapsulatedPacket>>,
        ps: Seq<EncapsulatedPacket>,
        r: Result<(), SplitPacketError>,
    ) -> bool {
        let k = states.len() - 1;
        &&& 1 <= states.len() <= ps.len() + 1
        &&& ds.len() == states.len()
        &&& r is Err ==> k >= 1
        &&& forall|i: int|
            #![trigger states[i]]
            0 <= i < k ==> Self::handled(
                states[i],
                states[i + 1],
                ps[i],
                ds[i],
                ds[i + 1],
                step_outcome(r, i, k),
            )
    }

    /// The most parts a split packet may have.
    pub closed spec fn max_parts(&self) -> usize {
        self.max_split_packet_part_count
    }

    /// The most split packets put together at once.
    pub closed spec fn max_concurrent(&self) -> usize {
        self.max_concurrent_split_packets
    }

    pub closed spec fn wf(&self) -> bool {
        &&& self.ack_queue.wf()
        &&& self.nack_queue.wf()
        &&& self.window_start < 0x1000000
        &&& self.window_end < 0x1000000
        &&& forall|x: u32| #[trigger]
            self.ack_queue@.contains(x) ==> in_window(self.window_start, self.window_end, x)
        &&& -1 <= self.highest_seq_number < 0x1000000
        &&& self.recv_ordered_index@.len() == MAX_ORDER_CHANNELS
        &&& self.recv_sequenced_highest_index@.len() == MAX_ORDER_CHANNELS
        &&& self.recv_ordered_packets@.len() == MAX_ORDER_CHANNELS
        &&& forall|c: int|
            0 <= c < MAX_ORDER_CHANNELS ==> #[trigger] self.recv_ordered_packets@[c].wf()
        &&& self.split_packets.wf()
    }

    /// A layer with an empty window of `window_size` numbers, nothing received, and the
    /// given limits on split packets.
    pub fn new(
        window_size: u32,
        max_split_packet_part_count: usize,
        max_concurrent_split_packets: usize,
    ) -> (r: Self)
        ensures
            r.wf(),
            r.window() == (ReceiveWindow {
                start: 0,
                end: window_size & 0xFFFFFF,
                acks: Set::empty(),
                nacks: Set::empty(),
                highest: -1i64,
            }),
            r.window_size() == window_size,
            r.ordered_index() == Seq::new(MAX_ORDER_CHANNELS as nat, |i: int| 0u32),
            r.sequenced_index() == Seq::new(MAX_ORDER_CHANNELS as nat, |i: int| 0u32),
            r.ordered_buffers() == Seq::new(
                MAX_ORDER_CHANNELS as nat,
                |i: int| Map::<u32, EncapsulatedPacket>::empty(),
            ),
            r.ordered_buffer_lens() == Seq::new(MAX_ORDER_CHANNELS as nat, |i: int| 0nat),
            r.split_parts() == Map::<u32, Seq<Option<EncapsulatedPacket>>>::empty(),
            r.split_count() == 0,
            r.max_parts() == max_split_packet_part_count,
            r.max_concurrent() == max_concurrent_split_packets,
    {
        let mut ordered: Vec<u32> = Vec::new();
        let mut sequenced: Vec<u32> = Vec::new();
        let mut buffers: Vec<SeqMap<EncapsulatedPacket>> = Vec::new();
        let mut c: usize = 0;
        while c < MAX_ORDER_CHANNELS
            invariant
                c <= MAX_ORDER_CHANNELS,
                ordered@.len() == c,
                sequenced@.len() == c,
                buffers@.len() == c,
                forall|i: int| 0 <= i < c ==> ordered@[i] == 0 && sequenced@[i] == 0,
                forall|i: int|
                    0 <= i < c ==> #[trigger] buffers@[i].wf() && buffers@[i].as_map() == Map::<
                        u32,
                        EncapsulatedPacket,
                    >::empty() && buffers@[i].entries().len() == 0,
            decreases MAX_ORDER_CHANNELS - c,
        {
            ordered.push(0);
            sequenced.push(0);
            buffers.push(SeqMap::new());
            c = c + 1;
        }
        let r = ReceiveReliabilityLayer {
            window_start: 0,
            window_end: window_size & 0xFFFFFF,
            window_size,
            highest_seq_number: -1,
            ack_queue: SeqSet::new(),
            nack_queue: SeqSet::new(),
            recv_ordered_index: ordered,
            recv_sequenced_highest_index: sequenced,
            recv_ordered_packets: buffers,
            split_packets: SeqMap::new(),
            max_split_packet_part_count,
            max_concurrent_split_packets,
        };
        proof {
            assert(window_size & 0xFFFFFF < 0x1000000) by (bit_vector);
            assert(r.ordered_index() =~= Seq::new(MAX_ORDER_CHANNELS as nat, |i: int| 0u32));
            assert(r.sequenced_index() =~= Seq::new(MAX_ORDER_CHANNELS as nat, |i: int| 0u32));
            assert(r.split_parts() =~= Map::<u32, Seq<Option<EncapsulatedPacket>>>::empty());
            assert forall|c: int| 0 <= c < MAX_ORDER_CHANNELS implies #[trigger] buffers@[c].as_map()
                == Map::<u32, EncapsulatedPacket>::empty() && buffers@[c].entries().len() == 0 by {
                assert(buffers@[c].wf());
            }
            assert(r.ordered_buffers() =~= Seq::new(
                MAX_ORDER_CHANNELS as nat,
                |i: int| Map::<u32, EncapsulatedPacket>::empty(),
            ));
            assert forall|c: int| 0 <= c < MAX_ORDER_CHANNELS implies #[trigger] buffers@[c].entries().len()
                == 0 by {
                assert(buffers@[c].wf());
            }
            assert(r.ordered_buffer_lens() =~= Seq::new(MAX_ORDER_CHANNELS as nat, |i: int| 0nat));
        }
        r
    }

    /// Takes a part of a split packet: stores it, and once every part is there gives back
    /// the packet they make. A packet that is not split comes back as it is.
    fn handle_split(&mut self, packet: EncapsulatedPacket) -> (r: Result<
        Option<EncapsulatedPacket>,
        SplitPacketError,
    >)
        requires
            old(self).wf(),
        ensures
            final(self).wf(),
            final(self).window() == old(self).window(),
            final(self).window_size() == old(self).window_size(),
            final(self).ordered_index() == old(self).ordered_index(),
            final(self).sequenced_index() == old(self).sequenced_index(),
            final(self).ordered_buffers() == old(self).ordered_buffers(),
            final(self).ordered_buffer_lens() == old(self).ordered_buffer_lens(),
            final(self).max_parts() == old(self).max_parts(),
            final(self).max_concurrent() == old(self).max_concurrent(),
            packet.split_info is None ==> r == Ok::<_, SplitPacketError>(Some(packet))
                && final(self).split_parts() == old(self).split_parts(),
            packet.split_info matches Some(info) ==> split_outcome(
                old(self).split_parts(),
                old(self).split_count(),
                old(self).max_parts(),
                old(self).max_concurrent(),
                info,
                packet,
                final(self).split_parts(),
                r,
            ),
    {
        let info = match packet.split_info {
            Some(info) => info,
            None => {
                return Ok(Some(packet));
            },
        };
        let total_parts = info.total_part_count;
        let part_index = info.part_index;
        let split_id = info.id;
        let key = split_id as u32;
        if total_parts == 0 || total_parts as usize > self.max_split_packet_part_count {
            return Err(SplitPacketError::TooLarge { part_count: total_parts });
        }
        if part_index >= total_parts {
            return Err(
                SplitPacketError::InvalidPartIndex { part_index, part_count: total_parts },
            );
        }
        let ghost parts = self.split_parts();
        let existing = self.split_packets.remove(key);
        let mut buffer = match existing {
            Some(buffer) => buffer,
            None => {
                if self.split_packets.len() >= self.max_concurrent_split_packets {
                    proof {
                        assert(self.split_packets.entries() == old(self).split_packets.entries());
                        assert(self.split_parts() =~= parts);
                    }
                    return Err(
                        SplitPacketError::TooManyConcurrent {
                            limit: self.max_concurrent_split_packets,
                        },
                    );
                }
                let mut fresh: Vec<Option<EncapsulatedPacket>> = Vec::new();
                while fresh.len() < total_parts as usize
                    invariant
                        fresh@.len() <= total_parts,
                        forall|i: int| 0 <= i < fresh@.len() ==> fresh@[i] is None,
                    decreases total_parts - fresh@.len(),
                {
                    fresh.push(None);
                }
                fresh
            },
        };
        let ghost before_spec = if parts.contains_key(key) {
            parts[key]
        } else {
            Seq::new(total_parts as nat, |j: int| None::<EncapsulatedPacket>)
        };
        proof {
            assert(self.split_parts() =~= parts.remove(key));
            if !parts.contains_key(key) {
                assert(buffer@ =~= before_spec);
            }
        }
        if buffer.len() != total_parts as usize {
            return Err(
                SplitPacketError::InconsistentHeader {
                    split_id,
                    part_count: total_parts,
                    expected: buffer.len(),
                },
            );
        }
        let ghost before = buffer@;
        if buffer[part_index as usize].is_some() {
            self.split_packets.insert(key, buffer);
            proof {
                assert(self.split_parts() =~= parts.insert(key, before));
            }
            return Ok(None);
        }
        buffer.set(part_index as usize, Some(packet));
        let ghost after_spec = before_spec.update(part_index as int, Some(packet));
        assert(buffer@ =~= after_spec);
        let mut complete = true;
        let mut i: usize = 0;
        while i < buffer.len()
            invariant
                i <= buffer@.len(),
                complete == (forall|j: int| 0 <= j < i ==> buffer@[j] is Some),
            decreases buffer@.len() - i,
        {
            if buffer[i].is_none() {
                complete = false;
            }
            i = i + 1;
        }
        if !complete {
            self.split_packets.insert(key, buffer);
            proof {
                assert(self.split_parts() =~= parts.insert(key, buffer@));
            }
            return Ok(None);
        }
        let mut payload: Vec<u8> = Vec::new();
        let mut i: usize = 0;
        while i < buffer.len()
            invariant
                i <= buffer@.len(),
                payload@ == concat_parts(buffer@.take(i as int)),
            decreases buffer@.len() - i,
        {
            proof {
                assert(buffer@.take(i + 1).drop_last() =~= buffer@.take(i as int));
            }
            match &buffer[i] {
                Some(part) => {
                    let mut bytes = part.buffer.clone();
                    proof {
                        assert(bytes@ =~= part.buffer@);
                    }
                    payload.append(&mut bytes);
                },
                None => {},
            }
            i = i + 1;
        }
        proof {
            assert(buffer@.take(buffer@.len() as int) =~= buffer@);
        }
        let mut whole = match &buffer[0] {
            Some(first) => first.clone_packet(),
            None => EncapsulatedPacket::new(),
        };
        whole.buffer = payload;
        whole.split_info = None;
        proof {
            assert(whole@ == reassembled(buffer@));
        }
        Ok(Some(whole))
    }

    /// Hands a whole packet on, in order: see `order_outcome`.
    fn handle_ordered(&mut self, packet: EncapsulatedPacket, delivered: &mut Vec<EncapsulatedPacket>)
        requires
            old(self).wf(),
        ensures
            final(self).wf(),
            final(self).window() == old(self).window(),
            final(self).window_size() == old(self).window_size(),
            final(self).split_parts() == old(self).split_parts(),
            final(self).split_count() == old(self).split_count(),
            final(self).max_parts() == old(self).max_parts(),
            final(self).max_concurrent() == old(self).max_concurrent(),
            order_outcome(
                old(self).ordered_index(),
                old(self).sequenced_index(),
                old(self).ordered_buffers(),
                old(self).ordered_buffer_lens(),
                old(self).window_size(),
                packet,
                old(delivered)@,
                final(self).ordered_index(),
                final(self).sequenced_index(),
                final(self).ordered_buffers(),
                final(delivered)@,
            ),
            final(delivered)@.len() >= old(delivered)@.len(),
            final(delivered)@.take(old(delivered)@.len() as int) == old(delivered)@,
            ({
                let c: int = match packet.order_channel {
                    Some(c) => c as int,
                    None => 0,
                };
                let i: u32 = match packet.order_index {
                    Some(i) => i,
                    None => 0,
                };
                spec_is_sequenced_or_ordered(packet.reliability) && !spec_is_sequenced(
                    packet.reliability,
                ) && c < MAX_ORDER_CHANNELS && i == old(self).ordered_index()[c]
                    ==> !final(self).ordered_buffers()[c].contains_key(final(self).ordered_index()[c])
            }),
    {
        let reliability = packet.reliability;
        if !is_sequenced_or_ordered(reliability) {
            delivered.push(packet);
            assert(delivered@.take(old(delivered)@.len() as int) =~= old(delivered)@);
            return ;
        }
        let channel: usize = match packet.order_channel {
            Some(c) => c as usize,
            None => 0,
        };
        if channel >= MAX_ORDER_CHANNELS {
            return ;
        }
        let order_idx: u32 = match packet.order_index {
            Some(i) => i,
            None => 0,
        };
        if is_sequenced(reliability) {
            let seq_idx: u32 = match packet.sequence_index {
                Some(i) => i,
                None => 0,
            };
            if seq_less_than(order_idx, self.recv_ordered_index[channel]) || seq_less_than(
                seq_idx,
                self.recv_sequenced_highest_index[channel],
            ) {
                return ;
            }
            let next = next_index(seq_idx);
            self.recv_sequenced_highest_index.set(channel, next);
            delivered.push(packet);
            assert(delivered@.take(old(delivered)@.len() as int) =~= old(delivered)@);
            return ;
        }
        let expected = self.recv_ordered_index[channel];
        if order_idx == expected {
            self.recv_sequenced_highest_index.set(channel, 0);
            delivered.push(packet);
            let ghost d0 = delivered@;
            let ghost buffers0 = self.recv_ordered_packets@;
            let mut buffer = self.recv_ordered_packets.remove(channel);
            proof {
                assert(buffer == buffers0[channel as int]);
                assert(buffers0[channel as int].wf());
            }
            let ghost m0 = buffer.as_map();
            let ghost f0 = buffer.entries().len();
            let mut current = next_index(order_idx);
            let ghost start0 = current;
            while buffer.contains_key(current)
                invariant
                    buffer.wf(),
                    delivered@.len() >= d0.len(),
                    delivered@.take(d0.len() as int) == d0,
                    ordered_run(m0, start0, f0) == (
                        delivered@.skip(d0.len() as int) + ordered_run(
                            buffer.as_map(),
                            current,
                            buffer.entries().len(),
                        ).0,
                        ordered_run(buffer.as_map(), current, buffer.entries().len()).1,
                        ordered_run(buffer.as_map(), current, buffer.entries().len()).2,
                    ),
                decreases buffer.entries().len(),
            {
                let ghost m = buffer.as_map();
                let ghost f = buffer.entries().len();
                let ghost dd = delivered@;
                match buffer.remove(current) {
                    Some(next_packet) => {
                        delivered.push(next_packet);
                    },
                    None => {},
                }
                let ghost prev = current;
                current = next_index(current);
                proof {
                    assert(m.contains_key(prev));
                    assert(f > 0);
                    assert(delivered@.take(d0.len() as int) =~= d0);
                    assert(delivered@.skip(d0.len() as int) =~= dd.skip(d0.len() as int).push(
                        m[prev],
                    ));
                    let rest = ordered_run(buffer.as_map(), current, buffer.entries().len());
                    assert(ordered_run(m, prev, f) == (seq![m[prev]] + rest.0, rest.1, rest.2));
                    assert(dd.skip(d0.len() as int) + (seq![m[prev]] + rest.0) =~= delivered@.skip(
                        d0.len() as int,
                    ) + rest.0);
                }
            }
            proof {
                assert(delivered@ =~= d0 + ordered_run(m0, start0, f0).0);
                assert(delivered@.take(old(delivered)@.len() as int) =~= old(delivered)@);
            }
            let ghost drained = !buffer.as_map().contains_key(current);
            self.recv_ordered_index.set(channel, current);
            self.recv_ordered_packets.insert(channel, buffer);
            proof {
                assert(drained);
                assert(self.recv_ordered_packets@ =~= buffers0.update(channel as int, buffer));
                assert forall|c: int| 0 <= c < MAX_ORDER_CHANNELS implies #[trigger]
                    self.recv_ordered_packets@[c].wf() by {
                    if c != channel {
                        assert(buffers0[c].wf());
                    }
                }
                assert(self.ordered_buffers() =~= old(self).ordered_buffers().update(
                    channel as int,
                    buffer.as_map(),
                ));
                assert(old(self).ordered_buffer_lens()[channel as int] == f0);
            }
            return ;
        }
        if seq_greater_than(order_idx, expected) && self.recv_ordered_packets[channel].len()
            < self.window_size as usize {
            let ghost buffers0 = self.recv_ordered_packets@;
            let mut buffer = self.recv_ordered_packets.remove(channel);
            proof {
                assert(buffer == buffers0[channel as int]);
                assert(buffers0[channel as int].wf());
            }
            buffer.insert(order_idx, packet);
            self.recv_ordered_packets.insert(channel, buffer);
            proof {
                assert(self.recv_ordered_packets@ =~= buffers0.update(channel as int, buffer));
                assert forall|c: int| 0 <= c < MAX_ORDER_CHANNELS implies #[trigger]
                    self.recv_ordered_packets@[c].wf() by {
                    if c != channel {
                        assert(buffers0[c].wf());
                    }
                }
                assert(self.ordered_buffers() =~= old(self).ordered_buffers().update(
                    channel as int,
                    buffer.as_map(),
                ));
            }
        }
    }

    /// Whether acknowledgements are waiting to be sent.
    pub fn needs_update(&self) -> (r: bool)
        requires
            self.wf(),
        ensures
            r == (self.window().acks != Set::<u32>::empty() || self.window().nacks != Set::<
                u32,
            >::empty()),
    {
        !self.ack_queue.is_empty() || !self.nack_queue.is_empty()
    }

    /// Takes the waiting acknowledgements: an ACK of the datagrams received, then a NACK of
    /// those missing, each in increasing order and each only when there is something to
    /// say; both queues are emptied.
    pub fn update(&mut self) -> (r: Vec<AcknowledgePacketWrapper>)
        requires
            old(self).wf(),
        ensures
            final(self).wf(),
            final(self).window() == (ReceiveWindow {
                acks: Set::empty(),
                nacks: Set::empty(),
                ..old(self).window()
            }),
            final(self).window_size() == old(self).window_size(),
            final(self).ordered_index() == old(self).ordered_index(),
            final(self).sequenced_index() == old(self).sequenced_index(),
            final(self).ordered_buffers() == old(self).ordered_buffers(),
            final(self).ordered_buffer_lens() == old(self).ordered_buffer_lens(),
            final(self).split_parts() == old(self).split_parts(),
            final(self).split_count() == old(self).split_count(),
            final(self).max_parts() == old(self).max_parts(),
            final(self).max_concurrent() == old(self).max_concurrent(),
            acks_reported(old(self).window(), r@),
            r@.len() == (if old(self).window().acks != Set::<u32>::empty() {
                1int
            } else {
                0
            }) + (if old(self).window().nacks != Set::<u32>::empty() {
                1int
            } else {
                0
            }),
            old(self).window().acks != Set::<u32>::empty() ==> (r@[0] matches AcknowledgePacketWrapper::Ack(
                a,
            ) && a.0.packets@.to_set() == old(self).window().acks && strictly_increasing(
                a.0.packets@,
            )),
            old(self).window().nacks != Set::<u32>::empty() ==> (r@.last() matches AcknowledgePacketWrapper::Nack(
                n,
            ) && n.0.packets@.to_set() == old(self).window().nacks && strictly_increasing(
                n.0.packets@,
            )),
    {
        let mut r: Vec<AcknowledgePacketWrapper> = Vec::new();
        if !self.ack_queue.is_empty() {
            let packets = self.ack_queue.to_vec();
            r.push(AcknowledgePacketWrapper::Ack(ACK(AcknowledgePacket { packets })));
            self.ack_queue.clear();
        }
        if !self.nack_queue.is_empty() {
            let packets = self.nack_queue.to_vec();
            r.push(AcknowledgePacketWrapper::Nack(NACK(AcknowledgePacket { packets })));
            self.nack_queue.clear();
        }
        r
    }

    /// Hands on a packet from a datagram: puts split packets together, then delivers it
    /// in order.
    fn handle_encapsulated_packet(
        &mut self,
        packet: EncapsulatedPacket,
        delivered: &mut Vec<EncapsulatedPacket>,
    ) -> (r: Result<(), SplitPacketError>)
        requires
            old(self).wf(),
        ensures
            final(self).wf(),
            final(self).window() == old(self).window(),
            final(self).window_size() == old(self).window_size(),
            final(self).max_parts() == old(self).max_parts(),
            final(self).max_concurrent() == old(self).max_concurrent(),
            final(delivered)@.len() >= old(delivered)@.len(),
            final(delivered)@.take(old(delivered)@.len() as int) == old(delivered)@,
            r is Err ==> packet.split_info is Some,
            packet.split_info is None ==> r is Ok,
            packet.split_info is None && !spec_is_sequenced_or_ordered(packet.reliability) ==> {
                &&& final(delivered)@ == old(delivered)@.push(packet)
                &&& final(self).ordered_index() == old(self).ordered_index()
                &&& final(self).sequenced_index() == old(self).sequenced_index()
                &&& final(self).ordered_buffers() == old(self).ordered_buffers()
                &&& final(self).split_parts() == old(self).split_parts()
            },
            packet.split_info is None ==> final(self).split_parts() == old(self).split_parts()
                && order_outcome(
                old(self).ordered_index(),
                old(self).sequenced_index(),
                old(self).ordered_buffers(),
                old(self).ordered_buffer_lens(),
                old(self).window_size(),
                packet,
                old(delivered)@,
                final(self).ordered_index(),
                final(self).sequenced_index(),
                final(self).ordered_buffers(),
                final(delivered)@,
            ),
            Self::handled(*old(self), *final(self), packet, old(delivered)@, final(delivered)@, r),
            packet.split_info matches Some(info) ==> split_then_ordered(
                old(self).split_parts(),
                old(self).split_count(),
                old(self).max_parts(),
                old(self).max_concurrent(),
                info,
                packet,
                final(self).split_parts(),
                r,
                old(self).ordered_index(),
                old(self).sequenced_index(),
                old(self).ordered_buffers(),
                old(self).ordered_buffer_lens(),
                old(self).window_size(),
                old(delivered)@,
                final(self).ordered_index(),
                final(self).sequenced_index(),
                final(self).ordered_buffers(),
                final(delivered)@,
            ),
    {
        let ghost info = packet.split_info;
        let outcome = self.handle_split(packet);
        let ghost s = outcome;
        match outcome {
            Err(e) => {
                assert(old(delivered)@.take(old(delivered)@.len() as int) =~= old(delivered)@);
                Err(e)
            },
            Ok(None) => {
                assert(old(delivered)@.take(old(delivered)@.len() as int) =~= old(delivered)@);
                Ok(())
            },
            Ok(Some(whole)) => {
                self.handle_ordered(whole, delivered);
                Ok(())
            },
        }
    }

    /// Takes a datagram: when it is new and inside the window, records its sequence number
    /// and hands on its packets one after another, appending those ready to `delivered`.
    /// A refused split packet stops the datagram there; the connection should then close.
    #[verifier::spinoff_prover]
    #[verifier::rlimit(80)]
    pub fn on_datagram(
        &mut self,
        datagram: Datagram,
        delivered: &mut Vec<EncapsulatedPacket>,
    ) -> (r: Result<(), SplitPacketError>)
        requires
            old(self).wf(),
        ensures
            accepts(old(self).window(), datagram.seq_number) ==> Self::handled_all(
                *old(self),
                window_after(old(self).window(), datagram.seq_number),
                *final(self),
                datagram.packets@,
                old(delivered)@,
                final(delivered)@,
                r,
            ),
            final(self).wf(),
            final(self).window_size() == old(self).window_size(),
            final(self).max_parts() == old(self).max_parts(),
            final(self).max_concurrent() == old(self).max_concurrent(),
            !accepts(old(self).window(), datagram.seq_number) ==> {
                &&& r is Ok
                &&& *final(self) == *old(self)
                &&& final(delivered)@ == old(delivered)@
            },
            accepts(old(self).window(), datagram.seq_number) ==> final(self).window()
                == window_after(old(self).window(), datagram.seq_number),
            final(delivered)@.len() >= old(delivered)@.len(),
            final(delivered)@.take(old(delivered)@.len() as int) == old(delivered)@,
            r is Err ==> exists|j: int|
                0 <= j < datagram.packets@.len() && (#[trigger] datagram.packets@[j]).split_info is Some,
            (forall|j: int|
                0 <= j < datagram.packets@.len() ==> (#[trigger] datagram.packets@[j]).split_info is None)
                ==> r is Ok,
            (forall|j: int|
                0 <= j < datagram.packets@.len() ==> plain_packet(#[trigger] datagram.packets@[j]))
                ==> {
                &&& final(delivered)@ == old(delivered)@ + datagram.packets@
                &&& final(self).ordered_index() == old(self).ordered_index()
                &&& final(self).sequenced_index() == old(self).sequenced_index()
                &&& final(self).ordered_buffers() == old(self).ordered_buffers()
                &&& final(self).split_parts() == old(self).split_parts()
            } || !accepts(old(self).window(), datagram.seq_number),
    {
        let seq = datagram.seq_number;
        if seq >= SEQ_MODULUS {
            proof {
                assert(!accepts(self.window(), seq));
                assert(delivered@.take(delivered@.len() as int) =~= delivered@);
            }
            return Ok(());
        }
        if !self.receive_seq(seq) {
            return Ok(());
        }
        let ghost after_window = self.window();
        let ghost mid = *self;
        let ghost d0 = delivered@;
        let mut packets = datagram.packets;
        let ghost all = packets@;
        let ghost mut done: int = 0;
        let ghost mut states: Seq<Self> = seq![*self];
        let ghost mut ds: Seq<Seq<EncapsulatedPacket>> = seq![delivered@];
        proof {
            assert(Self::same_but_window(states[0], *old(self)));
        }
        while packets.len() > 0
            invariant
                states.len() == done + 1,
                ds.len() == done + 1,
                Self::handled_run(states, ds, all, Ok(())),
                Self::same_but_window(states[0], *old(self)),
                states[0].window() == after_window,
                ds[0] == d0,
                states.last() == *self,
                ds.last() == delivered@,
                self.wf(),
                self.window() == after_window,
                accepts(old(self).window(), seq),
                seq == datagram.seq_number,
                d0 == old(delivered)@,
                all == datagram.packets@,
                after_window == window_after(old(self).window(), seq),
                self.window_size() == old(self).window_size(),
                self.max_parts() == old(self).max_parts(),
                self.max_concurrent() == old(self).max_concurrent(),
                0 <= done <= all.len(),
                packets@ == all.skip(done),
                delivered@.len() >= d0.len(),
                delivered@.take(d0.len() as int) == d0,
                (forall|j: int| 0 <= j < done ==> plain_packet(#[trigger] all[j])) ==> {
                    &&& delivered@ == d0 + all.take(done)
                    &&& self.ordered_index() == mid.ordered_index()
                    &&& self.sequenced_index() == mid.sequenced_index()
                    &&& self.ordered_buffers() == mid.ordered_buffers()
                    &&& self.split_parts() == mid.split_parts()
                },
            decreases packets@.len(),
        {
            let packet = packets.remove(0);
            let ghost dd = delivered@;
            let ghost sb = *self;
            proof {
                assert(packet == all[done]);
            }
            let outcome = self.handle_encapsulated_packet(packet, delivered);
            proof {
                Self::lemma_run_push(states, ds, all, *self, delivered@, outcome);
                if outcome is Err {
                    let states2 = states.push(*self);
                    let ds2 = ds.push(delivered@);
                    assert(states2[0] == states[0]);
                    assert(ds2[0] == ds[0]);
                    assert(Self::handled_all(
                        *old(self),
                        window_after(old(self).window(), datagram.seq_number),
                        *self,
                        datagram.packets@,
                        old(delivered)@,
                        delivered@,
                        outcome,
                    ));
                }
                states = states.push(*self);
                ds = ds.push(delivered@);
            }
            match outcome {
                Err(e) => {
                    proof {
                        assert(delivered@.take(d0.len() as int) =~= dd.take(d0.len() as int));
                    }
                    return Err(e);
                },
                Ok(()) => {},
            }
            proof {
                assert(delivered@.take(d0.len() as int) =~= dd.take(d0.len() as int));
                if forall|j: int| 0 <= j < done + 1 ==> plain_packet(#[trigger] all[j]) {
                    assert(plain_packet(all[done]));
                    assert(all.take(done + 1) =~= all.take(done).push(all[done]));
                }
                done = done + 1;
                assert(packets@ =~= all.skip(done));
            }
        }
        proof {
            assert(all.take(done) =~= all);
            assert(Self::handled_all(
                *old(self),
                window_after(old(self).window(), datagram.seq_number),
                *self,
                datagram.packets@,
                old(delivered)@,
                delivered@,
                Ok(()),
            ));
        }
        Ok(())
    }

    /// Takes a datagram's sequence number into the window: returns whether the datagram is
    /// new and inside the window, and if so acknowledges it, reports the numbers skipped
    /// before it as missing and moves the window past the received run at its start.
    fn receive_seq(&mut self, seq: u32) -> (r: bool)
        requires
            old(self).wf(),
            seq < 0x1000000,
        ensures
            final(self).wf(),
            !r ==> *final(self) == *old(self),
            r == accepts(old(self).window(), seq),
            r ==> final(self).window() == window_after(old(self).window(), seq),
            !r ==> final(self).window() == old(self).window(),
            final(self).window_size() == old(self).window_size(),
            final(self).ordered_index() == old(self).ordered_index(),
            final(self).sequenced_index() == old(self).sequenced_index(),
            final(self).ordered_buffers() == old(self).ordered_buffers(),
            final(self).ordered_buffer_lens() == old(self).ordered_buffer_lens(),
            final(self).split_parts() == old(self).split_parts(),
            final(self).split_count() == old(self).split_count(),
            final(self).max_parts() == old(self).max_parts(),
            final(self).max_concurrent() == old(self).max_concurrent(),
    {
        let ghost w = self.window();
        let window_start = self.window_start;
        let window_end = self.window_end;
        let is_out_of_window = if window_end >= window_start {
            seq < window_start || seq >= window_end
        } else {
            seq < window_start && seq >= window_end
        };
        assert(is_out_of_window == !in_window(window_start, window_end, seq));
        if is_out_of_window || self.ack_queue.contains(seq) {
            return false;
        }
        let mut acks = SeqSet::new();
        let mut nacks = SeqSet::new();
        std::mem::swap(&mut acks, &mut self.ack_queue);
        std::mem::swap(&mut nacks, &mut self.nack_queue);
        acks.insert(seq);
        nacks.remove(seq);
        let ghost acks1 = w.acks.insert(seq);
        assert(acks@ == acks1);
        if self.highest_seq_number < 0 || seq_greater_than(seq, self.highest_seq_number as u32) {
            self.highest_seq_number = seq as i64;
        }
        if seq_greater_than(seq, window_start) {
            let mut i = window_start;
            while i != seq
                invariant
                    nacks.wf(),
                    acks.wf(),
                    acks@ == acks1,
                    i < 0x1000000,
                    seq < 0x1000000,
                    window_start < 0x1000000,
                    dist(window_start, i) <= dist(window_start, seq),
                    nacks@ == w.nacks.remove(seq).union(
                        Set::new(
                            |x: u32|
                                x < 0x1000000 && dist(window_start, x) < dist(window_start, i)
                                    && !acks1.contains(x),
                        ),
                    ),
                decreases dist(i, seq),
            {
                if !acks.contains(i) {
                    nacks.insert(i);
                }
                let ghost old_i = i;
                i = next_index(i);
                proof {
                    assert(nacks@ =~= w.nacks.remove(seq).union(
                        Set::new(
                            |x: u32|
                                x < 0x1000000 && dist(window_start, x) < dist(window_start, i)
                                    && !acks1.contains(x),
                        ),
                    ));
                }
            }
            assert(nacks@ =~= w.nacks.remove(seq).union(missing_before(w, seq)));
        } else {
            assert(nacks@ =~= w.nacks.remove(seq).union(missing_before(w, seq)));
        }
        let mut current_start = window_start;
        let ghost mut j: nat = 0;
        while acks.contains(current_start)
            invariant
                acks.wf(),
                current_start < 0x1000000,
                window_start < 0x1000000,
                window_end < 0x1000000,
                j == dist(window_start, current_start),
                j <= dist(window_start, window_end),
                forall|x: u32| #[trigger]
                    acks1.contains(x) ==> in_window(window_start, window_end, x),
                acks@ == Set::new(
                    |x: u32| acks1.contains(x) && dist(window_start, x) >= j,
                ),
                run_len(window_start, acks1, 0x1000000) == j + run_len(
                    current_start,
                    acks1,
                    (0x1000000 - j) as nat,
                ),
            decreases acks.elems().len(),
        {
            assert(acks1.contains(current_start));
            assert(in_window(window_start, window_end, current_start));
            acks.remove(current_start);
            current_start = next_index(current_start);
            proof {
                j = j + 1;
                assert(acks@ =~= Set::new(
                    |x: u32| acks1.contains(x) && dist(window_start, x) >= j,
                ));
            }
        }
        proof {
            assert(!acks1.contains(current_start));
            assert(run_len(current_start, acks1, (0x1000000 - j) as nat) == 0);
        }
        std::mem::swap(&mut acks, &mut self.ack_queue);
        std::mem::swap(&mut nacks, &mut self.nack_queue);
        if current_start != window_start {
            let diff = if current_start >= window_start {
                current_start - window_start
            } else {
                current_start + 0x1000000 - window_start
            };
            self.window_start = current_start;
            let e = self.window_end + diff;
            self.window_end = if e >= 0x1000000 {
                e - 0x1000000
            } else {
                e
            };
        }
        proof {
            let k = run_len(window_start, acks1, 0x1000000);
            assert(self.window_start == shift(window_start, k as int));
            assert(self.window_end == shift(window_end, k as int));
            assert forall|x: u32| #[trigger]
                self.ack_queue@.contains(x) implies in_window(
                self.window_start,
                self.window_end,
                x,
            ) by {
                assert(acks1.contains(x));
            }
            assert(self.window() == window_after(w, seq));
        }
        true
    }
}

} // verus!
