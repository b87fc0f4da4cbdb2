//! The sending side of a connection.
use vstd::prelude::*;
use crate::raklib::protocol::ack::{ACK, NACK};
use crate::raklib::protocol::consts::{
    MAX_ORDER_CHANNELS,
    is_reliable,
    is_sequenced,
    is_ordered,
    spec_is_reliable,
    spec_is_sequenced,
    spec_is_ordered,
};
use crate::raklib::protocol::frame::{
    Datagram,
    EncapsulatedPacket,
    EncapsulatedView,
    SplitPacketInfo,
    header_len,
    packets_len,
    packets_view,
};
use crate::raklib::reliability::{next24, next_index};
use crate::raklib::table::{strictly_increasing, SeqMap, SeqSet};

verus! {

/// The number `k` places after `a`, modulo 2^24.
pub open spec fn seq_plus(a: u32, k: int) -> u32 {
    ((a + k) % 0x1000000) as u32
}

/// The reliable packets among `ps`, in order.
pub open spec fn reliable_only(ps: Seq<EncapsulatedView>) -> Seq<EncapsulatedView>
    decreases ps.len(),
{
    if ps.len() == 0 {
        Seq::empty()
    } else {
        let r = reliable_only(ps.drop_last());
        if spec_is_reliable(ps.last().reliability) {
            r.push(ps.last())
        } else {
            r
        }
    }
}

/// A datagram as the sender writes it: plain flags, at least one packet, and within the
/// payload budget unless it carries a single packet.
pub open spec fn fits(d: Datagram, max: nat) -> bool {
    &&& d.header_flags == 0
    &&& d.packets@.len() > 0
    &&& (packets_len(packets_view(d.packets@)) <= max || d.packets@.len() == 1)
}

/// The packets of datagrams, one datagram after the other.
pub open spec fn packets_sent(s: Seq<Datagram>) -> Seq<EncapsulatedView>
    decreases s.len(),
{
    if s.len() == 0 {
        Seq::empty()
    } else {
        packets_sent(s.drop_last()) + s.last()@.packets
    }
}

/// A datagram more adds its packets.
pub proof fn lemma_packets_sent_push(s: Seq<Datagram>, n: int, d: Datagram)
    requires
        0 <= n <= s.len(),
    ensures
        packets_sent(s.push(d).skip(n)) == packets_sent(s.skip(n)) + d@.packets,
{
    assert(s.push(d).skip(n).drop_last() =~= s.skip(n));
}

/// The packets of two stretches of datagrams are those of the first, then the second.
pub proof fn lemma_packets_sent_append(a: Seq<Datagram>, b: Seq<Datagram>)
    ensures
        packets_sent(a + b) == packets_sent(a) + packets_sent(b),
    decreases b.len(),
{
    if b.len() == 0 {
        assert(a + b =~= a);
        assert(packets_sent(a) + packets_sent(b) =~= packets_sent(a));
    } else {
        lemma_packets_sent_append(a, b.drop_last());
        assert((a + b).drop_last() =~= a + b.drop_last());
        assert((a + b).last() == b.last());
        assert(packets_sent(a) + packets_sent(b.drop_last()) + b.last()@.packets =~= packets_sent(a)
            + (packets_sent(b.drop_last()) + b.last()@.packets));
    }
}

/// One more packet through the queue: what was sent and queued before, then what the
/// packet's turn sent and left queued, is the stream with one more packet routed.
proof fn lemma_route_step(
    done: Seq<EncapsulatedView>,
    q0: Seq<EncapsulatedView>,
    added: Seq<EncapsulatedView>,
    q1: Seq<EncapsulatedView>,
    base: Seq<EncapsulatedView>,
    ps: Seq<EncapsulatedView>,
    k: int,
    start: u32,
    end: u32,
)
    requires
        0 <= k < ps.len(),
        done + q0 == base + routed(ps.take(k), start, end),
        spec_is_reliable(ps[k].reliability) && (behind(start, end, ps[k].message_index->0) || ahead(
            start,
            end,
            ps[k].message_index->0,
        )) ==> added == Seq::<EncapsulatedView>::empty() && q1 == q0,
        !(spec_is_reliable(ps[k].reliability) && (behind(start, end, ps[k].message_index->0)
            || ahead(start, end, ps[k].message_index->0))) ==> added + q1 == q0.push(
            without_receipt(ps[k]),
        ),
    ensures
        done + added + q1 == base + routed(ps.take(k + 1), start, end),
{
    assert(ps.take(k + 1).drop_last() =~= ps.take(k));
    assert(ps.take(k + 1).last() == ps[k]);
    if spec_is_reliable(ps[k].reliability) && (behind(start, end, ps[k].message_index->0) || ahead(
        start,
        end,
        ps[k].message_index->0,
    )) {
        assert(done + added + q1 =~= done + q0);
    } else {
        assert(done + added + q1 =~= (done + q0).push(without_receipt(ps[k])));
    }
}

/// The stream after one more packet's turn through the queue, from the sent datagrams and
/// the queue before and after it.
proof fn lemma_stream_step(
    sb: Seq<Datagram>,
    sa: Seq<Datagram>,
    n0: int,
    qb: Seq<EncapsulatedView>,
    qa: Seq<EncapsulatedView>,
    base: Seq<EncapsulatedView>,
    ps: Seq<EncapsulatedView>,
    k: int,
    start: u32,
    end: u32,
)
    requires
        0 <= n0 <= sb.len() <= sa.len(),
        sa.take(sb.len() as int) == sb,
        0 <= k < ps.len(),
        packets_sent(sb.skip(n0)) + qb == base + routed(ps.take(k), start, end),
        spec_is_reliable(ps[k].reliability) && (behind(start, end, ps[k].message_index->0) || ahead(
            start,
            end,
            ps[k].message_index->0,
        )) ==> sa == sb && qa == qb,
        !(spec_is_reliable(ps[k].reliability) && (behind(start, end, ps[k].message_index->0)
            || ahead(start, end, ps[k].message_index->0))) ==> packets_sent(sa.skip(sb.len() as int))
            + qa == qb.push(without_receipt(ps[k])),
    ensures
        packets_sent(sa.skip(n0)) + qa == base + routed(ps.take(k + 1), start, end),
{
    assert(sa.skip(n0) =~= sb.skip(n0) + sa.skip(sb.len() as int));
    lemma_packets_sent_append(sb.skip(n0), sa.skip(sb.len() as int));
    if sa == sb {
        lemma_packets_sent_none(sb);
    }
    lemma_route_step(
        packets_sent(sb.skip(n0)),
        qb,
        packets_sent(sa.skip(sb.len() as int)),
        qa,
        base,
        ps,
        k,
        start,
        end,
    );
}

/// Packets handed to the queue one after another, each to be sent at once, `ps` being the
/// ones that were not held back: `new` (the datagrams sent) and the queue after carry the
/// queue before and then `ps`; when one was sent, nothing stays queued; every datagram
/// but the first carries one packet; and from an empty queue, datagram `j` carries exactly
/// the `j`-th of `ps`.
pub open spec fn sent_each_at_once(
    queue_before: Seq<EncapsulatedView>,
    new: Seq<Datagram>,
    queue_after: Seq<EncapsulatedView>,
    ps: Seq<EncapsulatedView>,
) -> bool {
    &&& packets_sent(new) + queue_after == queue_before + ps
    &&& ps.len() == 0 ==> new.len() == 0 && queue_after == queue_before
    &&& ps.len() > 0 ==> queue_after.len() == 0
    &&& forall|j: int| 0 < j < new.len() ==> (#[trigger] new[j])@.packets.len() == 1
    &&& queue_before.len() == 0 ==> {
        &&& new.len() == ps.len()
        &&& forall|j: int| 0 <= j < new.len() ==> (#[trigger] new[j])@.packets == seq![ps[j]]
    }
}

/// One more packet's turn through the queue, sent at once unless held back, keeps the
/// datagrams sent and the queue as `sent_each_at_once` describes them.
proof fn lemma_each_step(
    sb: Seq<Datagram>,
    sa: Seq<Datagram>,
    n0: int,
    qb: Seq<EncapsulatedView>,
    qa: Seq<EncapsulatedView>,
    base: Seq<EncapsulatedView>,
    ps: Seq<EncapsulatedView>,
    k: int,
    start: u32,
    end: u32,
)
    requires
        0 <= n0 <= sb.len() <= sa.len(),
        sa.take(sb.len() as int) == sb,
        0 <= k < ps.len(),
        sent_each_at_once(base, sb.skip(n0), qb, routed(ps.take(k), start, end)),
        spec_is_reliable(ps[k].reliability) && (behind(start, end, ps[k].message_index->0) || ahead(
            start,
            end,
            ps[k].message_index->0,
        )) ==> sa == sb && qa == qb,
        !(spec_is_reliable(ps[k].reliability) && (behind(start, end, ps[k].message_index->0)
            || ahead(start, end, ps[k].message_index->0))) ==> {
            &&& packets_sent(sa.skip(sb.len() as int)) + qa == qb.push(without_receipt(ps[k]))
            &&& sent_at_once(qb, sb, sa, qa, without_receipt(ps[k]))
        },
    ensures
        sent_each_at_once(base, sa.skip(n0), qa, routed(ps.take(k + 1), start, end)),
{
    lemma_stream_step(sb, sa, n0, qb, qa, base, ps, k, start, end);
    let r = routed(ps.take(k), start, end);
    let r1 = routed(ps.take(k + 1), start, end);
    assert(ps.take(k + 1).drop_last() =~= ps.take(k));
    assert(ps.take(k + 1).last() == ps[k]);
    let p = without_receipt(ps[k]);
    if spec_is_reliable(ps[k].reliability) && (behind(start, end, ps[k].message_index->0) || ahead(
        start,
        end,
        ps[k].message_index->0,
    )) {
        assert(r1 == r);
    } else {
        assert(r1 == r.push(p));
        let nb = sb.skip(n0);
        let na = sa.skip(n0);
        if r.len() > 0 {
            assert(qb.len() == 0);
            assert(sa.len() == sb.len() + 1);
            assert(sa.last()@.packets =~= seq![p]);
            assert(na =~= nb.push(sa.last()));
        } else {
            assert(nb.len() == 0);
            assert(qb == base);
            if base.len() == 0 {
                assert(sa.len() == sb.len() + 1);
                assert(sa.last()@.packets =~= seq![p]);
                assert(na =~= seq![sa.last()]);
            } else {
                assert(na.len() == sa.len() - sb.len());
            }
        }
    }
}

/// The message index after `k` more, one more.
proof fn lemma_seq_plus_next(m0: u32, k: int)
    requires
        m0 < 0x1000000,
        0 <= k,
    ensures
        next24(seq_plus(m0, k)) == seq_plus(m0, k + 1),
{
    vstd::arithmetic::div_mod::lemma_add_mod_noop(m0 + k, 1, 0x1000000);
    vstd::arithmetic::div_mod::lemma_mod_twice(m0 + k, 0x1000000);
}

/// No datagram more adds nothing.
pub proof fn lemma_packets_sent_none(s: Seq<Datagram>)
    ensures
        packets_sent(s.skip(s.len() as int)) == Seq::<EncapsulatedView>::empty(),
{
    assert(s.skip(s.len() as int) =~= Seq::<Datagram>::empty());
}

/// Part `i` of `n` of numbered packet `q`, carrying `piece`: it keeps the packet's
/// reliability, channel, order and sequence indices and receipt, names split `id`, and,
/// when reliable, takes message index `m0 + i`.
pub open spec fn split_part(
    q: EncapsulatedView,
    piece: Seq<u8>,
    id: u16,
    i: int,
    n: int,
    m0: u32,
) -> EncapsulatedView {
    EncapsulatedView {
        reliability: q.reliability,
        message_index: if spec_is_reliable(q.reliability) {
            Some(seq_plus(m0, i))
        } else {
            None
        },
        sequence_index: q.sequence_index,
        order_index: q.order_index,
        order_channel: q.order_channel,
        split_info: Some(SplitPacketInfo { id, part_index: i as u32, total_part_count: n as u32 }),
        buffer: piece,
        identifier_ack: q.identifier_ack,
    }
}

/// The parts of numbered packet `q`, one per piece.
pub open spec fn split_parts(
    q: EncapsulatedView,
    pieces: Seq<Vec<u8>>,
    id: u16,
    m0: u32,
) -> Seq<EncapsulatedView> {
    Seq::new(pieces.len(), |i: int| split_part(q, pieces[i]@, id, i, pieces.len() as int, m0))
}

/// A split packet's way out: its payload is cut into `n` pieces of `size` bytes (the last
/// one possibly shorter), and the parts carrying them pass through the queue in order and
/// are each sent at once, `new` being the datagrams sent and `queue_after` what is left
/// queued.
pub open spec fn split_sent(
    q: EncapsulatedView,
    size: nat,
    n: int,
    id: u16,
    m0: u32,
    queue_before: Seq<EncapsulatedView>,
    new: Seq<Datagram>,
    queue_after: Seq<EncapsulatedView>,
    start: u32,
    end: u32,
) -> bool {
    exists|pieces: Seq<Vec<u8>>|
        #![trigger split_parts(q, pieces, id, m0)]
        {
            &&& pieces.len() == n
            &&& concat_chunks(pieces) == q.buffer
            &&& forall|i: int| 0 <= i < pieces.len() ==> 0 < (#[trigger] pieces[i])@.len() <= size
            &&& forall|i: int| 0 <= i < pieces.len() - 1 ==> (#[trigger] pieces[i])@.len() == size
            &&& sent_each_at_once(
                queue_before,
                new,
                queue_after,
                routed(split_parts(q, pieces, id, m0), start, end),
            )
        }
}

/// The packets handed back to the queue, as they are sent: a reliable packet behind the
/// reliable window or beyond it is not (it is dropped, or waits in the backlog).
pub open spec fn routed(ps: Seq<EncapsulatedView>, start: u32, end: u32) -> Seq<EncapsulatedView>
    decreases ps.len(),
{
    if ps.len() == 0 {
        Seq::empty()
    } else {
        let r = routed(ps.drop_last(), start, end);
        let p = ps.last();
        let m = p.message_index->0;
        if spec_is_reliable(p.reliability) && (behind(start, end, m) || ahead(start, end, m)) {
            r
        } else {
            r.push(without_receipt(p))
        }
    }
}

/// Whether message index `m` lies in the reliable window from `start` to `end`.
pub open spec fn in_reliable_window(start: u32, end: u32, m: u32) -> bool {
    if end >= start {
        m >= start && m < end
    } else {
        m >= start || m < end
    }
}

/// The backlog packets, in order of their keys, that the reliable window has reached.
pub open spec fn window_ready(
    keys: Seq<u32>,
    backlog: Map<u32, EncapsulatedView>,
    start: u32,
    end: u32,
) -> Seq<EncapsulatedView>
    decreases keys.len(),
{
    if keys.len() == 0 {
        Seq::empty()
    } else {
        let r = window_ready(keys.drop_last(), backlog, start, end);
        let k = keys.last();
        if in_reliable_window(start, end, k) && backlog.contains_key(k) {
            r.push(backlog[k])
        } else {
            r
        }
    }
}

/// The index, from `i` on, of the first kept datagram sent at `threshold` or later (or the
/// number of datagrams kept).
pub open spec fn fresh_from(keys: Seq<u32>, times: Map<u32, u64>, threshold: u64, i: int) -> int
    decreases keys.len() - i,
{
    if i < 0 || i >= keys.len() {
        keys.len() as int
    } else if times[keys[i]] < threshold {
        fresh_from(keys, times, threshold, i + 1)
    } else {
        i
    }
}

/// The kept datagrams that are due for resending at time `now`: in increasing order of
/// sequence number, those sent more than `delay` milliseconds before, up to the first that
/// was not.
pub open spec fn expired_keys(keys: Seq<u32>, times: Map<u32, u64>, now: u64, delay: u64) -> Seq<
    u32,
> {
    if now >= delay {
        keys.take(fresh_from(keys, times, (now - delay) as u64, 0))
    } else {
        Seq::empty()
    }
}

/// The datagrams sent from index `from` on fit the budget and carry consecutive sequence
/// numbers starting at `seq0`.
pub open spec fn sent_since(sent: Seq<Datagram>, from: int, seq0: u32, max: nat) -> bool {
    forall|j: int|
        from <= j < sent.len() ==> fits(#[trigger] sent[j], max) && sent[j].seq_number
            == seq_plus(seq0, j - from)
}

/// Datagrams sent in two stretches, the second numbered on from the first, are numbered
/// on from the start.
pub proof fn lemma_sent_chain(
    s1: Seq<Datagram>,
    s2: Seq<Datagram>,
    a: int,
    seq0: u32,
    max: nat,
)
    requires
        0 <= a <= s1.len() <= s2.len(),
        s2.take(s1.len() as int) == s1,
        seq0 < 0x1000000,
        sent_since(s1, a, seq0, max),
        sent_since(s2, s1.len() as int, seq_plus(seq0, s1.len() - a), max),
    ensures
        sent_since(s2, a, seq0, max),
{
    assert forall|j: int| a <= j < s2.len() implies fits(#[trigger] s2[j], max) && s2[j].seq_number
        == seq_plus(seq0, j - a) by {
        if j < s1.len() {
            assert(s2[j] == s2.take(s1.len() as int)[j]);
        } else {
            vstd::arithmetic::div_mod::lemma_add_mod_noop(seq0 + (s1.len() - a), j - s1.len(), 0x1000000);
            vstd::arithmetic::div_mod::lemma_mod_twice(seq0 + (s1.len() - a), 0x1000000);
            vstd::arithmetic::div_mod::lemma_add_mod_noop(
                seq0 + (s1.len() - a),
                j - s1.len(),
                0x1000000,
            );
            assert((seq0 + (s1.len() - a)) % 0x1000000 + (j - s1.len()) >= 0);
            vstd::arithmetic::div_mod::lemma_mod_adds(
                seq0 + (s1.len() - a),
                j - s1.len(),
                0x1000000,
            );
        }
    }
}

/// The payloads of the pieces, one after another.
pub open spec fn concat_chunks(s: Seq<Vec<u8>>) -> Seq<u8>
    decreases s.len(),
{
    if s.len() == 0 {
        Seq::empty()
    } else {
        concat_chunks(s.drop_last()) + s.last()@
    }
}

/// Cuts `buffer` into pieces of `size` bytes, the last one shorter when the length is not
/// a multiple of `size`.
pub fn chunks(buffer: &Vec<u8>, size: usize) -> (r: Vec<Vec<u8>>)
    requires
        size > 0,
    ensures
        concat_chunks(r@) == buffer@,
        forall|i: int| 0 <= i < r@.len() ==> 0 < (#[trigger] r@[i])@.len() <= size,
        forall|i: int| 0 <= i < r@.len() - 1 ==> (#[trigger] r@[i])@.len() == size,
        r@.len() * size >= buffer@.len(),
        r@.len() == 0 <==> buffer@.len() == 0,
        r@.len() == (buffer@.len() + size - 1) / (size as int),
{
    let mut r: Vec<Vec<u8>> = Vec::new();
    let mut start: usize = 0;
    while start < buffer.len()
        invariant
            start <= buffer@.len(),
            concat_chunks(r@) == buffer@.take(start as int),
            forall|i: int| 0 <= i < r@.len() ==> 0 < (#[trigger] r@[i])@.len() <= size,
            forall|i: int| 0 <= i < r@.len() ==> (#[trigger] r@[i])@.len() == size,
            start == r@.len() * size,
            r@.len() > 0 ==> start < buffer@.len(),
            size > 0,
        decreases buffer@.len() - start,
    {
        let end = if buffer.len() - start > size {
            start + size
        } else {
            buffer.len()
        };
        let mut piece: Vec<u8> = Vec::new();
        let mut k = start;
        while k < end
            invariant
                start <= k <= end <= buffer@.len(),
                piece@ == buffer@.subrange(start as int, k as int),
            decreases end - k,
        {
            piece.push(buffer[k]);
            k = k + 1;
            proof {
                assert(piece@ =~= buffer@.subrange(start as int, k as int));
            }
        }
        let ghost before = r@;
        r.push(piece);
        proof {
            assert(r@.drop_last() =~= before);
            assert(buffer@.take(end as int) =~= buffer@.take(start as int) + buffer@.subrange(
                start as int,
                end as int,
            ));
            if end < buffer.len() {
                assert(end == start + size);
            } else {
                assert(end == buffer.len());
            }
        }
        if end == buffer.len() {
            proof {
                assert(buffer@.take(end as int) =~= buffer@);
                assert(r@.len() * size >= buffer@.len()) by (nonlinear_arith)
                    requires
                        start == before.len() * size,
                        r@.len() == before.len() + 1,
                        end - start <= size,
                        end == buffer@.len(),
                ;
                lemma_ceil_div(r@.len() as int, buffer@.len() as int, size as int);
            }
            return r;
        }
        start = end;
        proof {
            assert(start == r@.len() * size) by (nonlinear_arith)
                requires
                    end == before.len() * size + size,
                    r@.len() == before.len() + 1,
                    start == end,
            ;
        }
    }
    proof {
        assert(buffer@.take(start as int) =~= buffer@);
        assert(r@.len() == 0);
        assert((buffer@.len() + size - 1) / (size as int) == 0) by (nonlinear_arith)
            requires
                buffer@.len() == 0,
                size > 0,
        ;
    }
    r
}

/// The count of `size`-byte pieces that `len` bytes make, the last one possibly shorter.
proof fn lemma_ceil_div(n: int, len: int, size: int)
    requires
        size > 0,
        n >= 1,
        (n - 1) * size < len <= n * size,
    ensures
        n == (len + size - 1) / size,
{
    let q = (len + size - 1) / size;
    vstd::arithmetic::div_mod::lemma_fundamental_div_mod(len + size - 1, size);
    let rem = (len + size - 1) % size;
    assert(0 <= rem < size) by {
        vstd::arithmetic::div_mod::lemma_mod_pos_bound(len + size - 1, size);
    }
    assert(len + size - 1 == size * q + rem);
    assert(q == n) by (nonlinear_arith)
        requires
            len + size - 1 == size * q + rem,
            0 <= rem < size,
            (n - 1) * size < len,
            len <= n * size,
            size > 0,
    ;
}

/// The packets of a datagram that carried reliable ones, kept until the datagram is
/// acknowledged, and when it was sent.
#[derive(Debug)]
pub struct ReliableCacheEntry {
    packets: Vec<EncapsulatedPacket>,
    timestamp: u64,
}

impl ReliableCacheEntry {
    pub closed spec fn spec_packets(&self) -> Seq<EncapsulatedPacket> {
        self.packets@
    }

    pub closed spec fn spec_timestamp(&self) -> u64 {
        self.timestamp
    }

    /// An entry for `packets`, sent at `timestamp` milliseconds.
    pub fn new(packets: Vec<EncapsulatedPacket>, timestamp: u64) -> (r: Self)
        ensures
            r.spec_packets() == packets@,
            r.spec_timestamp() == timestamp,
    {
        ReliableCacheEntry { packets, timestamp }
    }

    pub fn packets(&self) -> (r: &[EncapsulatedPacket])
        ensures
            r@ == self.spec_packets(),
    {
        self.packets.as_slice()
    }

    #[verifier::when_used_as_spec(spec_timestamp)]
    pub fn timestamp(&self) -> (r: u64)
        ensures
            r == self.spec_timestamp(),
    {
        self.timestamp
    }
}

/// Whether message index `m` lies behind the reliable window, as the sender judges it.
pub open spec fn behind(start: u32, end: u32, m: u32) -> bool {
    if end >= start {
        m < start
    } else {
        m < start && m >= end
    }
}

/// Whether message index `m` lies beyond the reliable window, as the sender judges it.
pub open spec fn ahead(start: u32, end: u32, m: u32) -> bool {
    if end >= start {
        m >= end
    } else {
        m >= end && m < start
    }
}

/// The packet as it is queued: without the receipt id, which stays with the sender.
pub open spec fn without_receipt(p: EncapsulatedView) -> EncapsulatedView {
    EncapsulatedView { identifier_ack: None, ..p }
}

/// What reporting the datagrams `seqs` does to the cache: each one still kept, taken in
/// order, leaves the cache, and its reliable packets are queued for resending.
pub open spec fn take_cached(cache: Map<u32, Seq<EncapsulatedView>>, seqs: Seq<u32>) -> (
    Seq<EncapsulatedView>,
    Map<u32, Seq<EncapsulatedView>>,
)
    decreases seqs.len(),
{
    if seqs.len() == 0 {
        (Seq::empty(), cache)
    } else {
        let prev = take_cached(cache, seqs.drop_last());
        let s = seqs.last();
        if prev.1.contains_key(s) {
            (prev.0 + reliable_only(prev.1[s]), prev.1.remove(s))
        } else {
            prev
        }
    }
}

/// The message indices an acknowledgement settles, from the reliable packets of the
/// datagrams it acknowledges: those with an index the window has not passed.
pub open spec fn acked_indices(ps: Seq<EncapsulatedView>, start: u32, end: u32) -> Seq<u32>
    decreases ps.len(),
{
    if ps.len() == 0 {
        Seq::empty()
    } else {
        let r = acked_indices(ps.drop_last(), start, end);
        let p = ps.last();
        if p.message_index is Some && (if end >= start {
            p.message_index->0 >= start
        } else {
            p.message_index->0 >= start || p.message_index->0 < end
        }) {
            r.push(p.message_index->0)
        } else {
            r
        }
    }
}

/// The receipts after message indices `ms` are acknowledged one after the other, and the
/// receipts reported, in order: each index settles the receipts as `settled` says, and
/// the receipt it completes first, if any, is reported.
pub open spec fn settle_all(p: Map<u32, Set<u32>>, ms: Seq<u32>) -> (Map<u32, Set<u32>>, Seq<u32>)
    decreases ms.len(),
{
    if ms.len() == 0 {
        (p, Seq::empty())
    } else {
        let prev = settle_all(p, ms.drop_last());
        let m = ms.last();
        if exists|d: u32| first_completed(prev.0, d, m) {
            let d = choose|d: u32| first_completed(prev.0, d, m);
            (settled(prev.0, m, Some(d)), prev.1.push(d))
        } else {
            (settled(prev.0, m, None), prev.1)
        }
    }
}

/// A receipt that an index completes means there is a first one it completes.
proof fn lemma_first_completed(p: Map<u32, Set<u32>>, k: u32, m: u32)
    requires
        completes(p, k, m),
    ensures
        exists|d: u32| first_completed(p, d, m),
    decreases k,
{
    if forall|j: u32| j < k ==> !completes(p, j, m) {
        assert(first_completed(p, k, m));
    } else {
        let j = choose|j: u32| j < k && completes(p, j, m);
        lemma_first_completed(p, j, m);
    }
}

/// The reliable packets of packets that are all reliable are all of them.
proof fn lemma_reliable_only_all(ps: Seq<EncapsulatedView>)
    requires
        forall|i: int| 0 <= i < ps.len() ==> spec_is_reliable(#[trigger] ps[i].reliability),
    ensures
        reliable_only(ps) == ps,
    decreases ps.len(),
{
    if ps.len() > 0 {
        lemma_reliable_only_all(ps.drop_last());
        assert(ps.drop_last().push(ps.last()) =~= ps);
    }
}

/// The indices settled by two stretches of packets.
proof fn lemma_acked_indices_append(a: Seq<EncapsulatedView>, b: Seq<EncapsulatedView>, start: u32, end: u32)
    ensures
        acked_indices(a + b, start, end) == acked_indices(a, start, end) + acked_indices(b, start, end),
    decreases b.len(),
{
    if b.len() == 0 {
        assert(a + b =~= a);
        assert(acked_indices(a, start, end) + acked_indices(b, start, end) =~= acked_indices(a, start, end));
    } else {
        lemma_acked_indices_append(a, b.drop_last(), start, end);
        assert((a + b).drop_last() =~= a + b.drop_last());
        assert((a + b).last() == b.last());
        let x = acked_indices(a, start, end);
        let y = acked_indices(b.drop_last(), start, end);
        assert((x + y).push(b.last().message_index->0) =~= x + y.push(b.last().message_index->0));
    }
}

/// Receipt `id` waits for message index `m` alone.
pub open spec fn completes(p: Map<u32, Set<u32>>, id: u32, m: u32) -> bool {
    p.contains_key(id) && p[id] == set![m]
}

/// Receipt `id` is the first, by id, that message index `m` completes.
pub open spec fn first_completed(p: Map<u32, Set<u32>>, id: u32, m: u32) -> bool {
    completes(p, id, m) && forall|k: u32| k < id ==> !completes(p, k, m)
}

/// The receipts once message index `m` is acknowledged, `done` being the receipt it
/// completes first, if any: the receipts before `done` no longer wait for `m`, `done`
/// is gone, and the later ones stay as they were.
pub open spec fn settled(p: Map<u32, Set<u32>>, m: u32, done: Option<u32>) -> Map<u32, Set<u32>> {
    Map::new(
        |k: u32| p.contains_key(k) && done != Some(k),
        |k: u32|
            if done matches Some(d) && k > d {
                p[k]
            } else {
                p[k].remove(m)
            },
    )
}

/// The order channel a packet names; none names channel 0.
pub open spec fn channel_of(p: EncapsulatedView) -> int {
    match p.order_channel {
        Some(c) => c as int,
        None => 0,
    }
}

/// A packet as numbered on its way to the queue, given the channels' order and sequence
/// indices and the next message index: an ordered packet takes its channel's order index;
/// a sequenced one that order index and its channel's sequence index; a reliable one the
/// message index.
pub open spec fn numbered(
    p: EncapsulatedView,
    ordered: Seq<u32>,
    sequenced: Seq<u32>,
    m: u32,
) -> EncapsulatedView {
    let c = channel_of(p);
    EncapsulatedView {
        reliability: p.reliability,
        message_index: if spec_is_reliable(p.reliability) {
            Some(m)
        } else {
            p.message_index
        },
        sequence_index: if spec_is_ordered(p.reliability) {
            p.sequence_index
        } else if spec_is_sequenced(p.reliability) {
            Some(sequenced[c])
        } else {
            p.sequence_index
        },
        order_index: if spec_is_ordered(p.reliability) || spec_is_sequenced(p.reliability) {
            Some(ordered[c])
        } else {
            p.order_index
        },
        order_channel: p.order_channel,
        split_info: p.split_info,
        buffer: p.buffer,
        identifier_ack: p.identifier_ack,
    }
}

/// Where a packet handed to the queue is: last in the queue, or, the queue having been
/// sent, last in the last datagram sent.
pub open spec fn placed(
    queue: Seq<EncapsulatedView>,
    sent_before: Seq<Datagram>,
    sent_after: Seq<Datagram>,
    p: EncapsulatedView,
) -> bool {
    ||| queue.len() > 0 && queue.last() == p
    ||| queue.len() == 0 && sent_after.len() > sent_before.len() && sent_after.last()@.packets.last()
        == p
}

/// The packets the periodic work of layer `before` at time `now` sends, in order: the
/// queue; then the packets waiting for resending and those of the datagrams whose
/// acknowledgement is overdue, oldest number first up to the first that is still fresh,
/// less those the reliable window has passed or not reached; then the backlog packets the
/// window has reached.
pub open spec fn update_stream(before: SendReliabilityLayer, now: u64) -> Seq<EncapsulatedView> {
    let (s, e) = (before.window_start(), before.window_end());
    let expired = expired_keys(
        before.cache_keys(),
        before.cache_times(),
        now,
        before.retransmit_delay(),
    );
    before.queue() + routed(before.resend_queue() + take_cached(before.cache(), expired).0, s, e)
        + routed(window_ready(before.backlog_keys(), before.backlog(), s, e), s, e)
}

/// What the periodic work of layer `before` at time `now` leads to, `after` being the
/// layer and `sent_after` the datagrams sent after it: the datagrams sent follow the ones
/// before with consecutive numbers, fit, and carry `update_stream(before, now)`; nothing
/// stays queued or waits for resending; the numbering and the window are as they were.
pub open spec fn updated(
    before: SendReliabilityLayer,
    after: SendReliabilityLayer,
    now: u64,
    sent_before: Seq<Datagram>,
    sent_after: Seq<Datagram>,
) -> bool {
    &&& after.wf()
    &&& after.max_payload() == before.max_payload()
    &&& after.mtu() == before.mtu()
    &&& sent_after.len() >= sent_before.len()
    &&& sent_after.take(sent_before.len() as int) == sent_before
    &&& sent_since(sent_after, sent_before.len() as int, before.next_seq(), before.max_payload())
    &&& after.next_seq() == seq_plus(before.next_seq(), sent_after.len() - sent_before.len())
    &&& after.queue().len() == 0
    &&& after.resend_queue().len() == 0
    &&& after.next_message_index() == before.next_message_index()
    &&& after.last_split_id() == before.last_split_id()
    &&& after.ordered_indices() == before.ordered_indices()
    &&& after.sequenced_indices() == before.sequenced_indices()
    &&& after.window_start() == before.window_start()
    &&& after.window_end() == before.window_end()
    &&& packets_sent(sent_after.skip(sent_before.len() as int)) == update_stream(before, now)
}

/// A packet handed to the queue and sent at once: nothing stays queued, and the packet
/// went out last in a datagram, alone unless the queue before it was bundled with it; a
/// datagram sent before that one carries the queue before it.
pub open spec fn sent_at_once(
    queue_before: Seq<EncapsulatedView>,
    sent_before: Seq<Datagram>,
    sent_after: Seq<Datagram>,
    queue_after: Seq<EncapsulatedView>,
    p: EncapsulatedView,
) -> bool {
    &&& queue_after.len() == 0
    &&& sent_after.len() == sent_before.len() + 1 || sent_after.len() == sent_before.len() + 2
    &&& sent_after.len() == sent_before.len() + 1 ==> sent_after.last()@.packets
        == queue_before.push(p)
    &&& sent_after.len() == sent_before.len() + 2 ==> {
        &&& sent_after[sent_before.len() as int]@.packets == queue_before
        &&& sent_after.last()@.packets == seq![p]
    }
    &&& queue_before.len() == 0 ==> sent_after.len() == sent_before.len() + 1
}

/// What handing packet `p` to the queue of layer `before` leads to, `after` being the
/// layer and `sent_after` the datagrams sent after it: datagrams sent follow the ones
/// before with consecutive numbers and fit; the packet is numbered on its channel; a packet
/// that fits a datagram is dropped behind the reliable window, waits in the backlog beyond
/// it, and is otherwise queued, the queue being sent at once when `immediate`; a larger one
/// is split into parts numbered with consecutive message indices, each sent at once in
/// its own datagram, unless there would be more than 65536; a packet naming a channel past
/// the last is dropped.
pub open spec fn queued_as(
    before: SendReliabilityLayer,
    after: SendReliabilityLayer,
    p: EncapsulatedView,
    immediate: bool,
    sent_before: Seq<Datagram>,
    sent_after: Seq<Datagram>,
) -> bool {
    &&& after.wf()
    &&& after.max_payload() == before.max_payload()
    &&& after.mtu() == before.mtu()
    &&& after.resend_queue() == before.resend_queue()
    &&& sent_after.len() >= sent_before.len()
    &&& sent_after.take(sent_before.len() as int) == sent_before
    &&& sent_since(sent_after, sent_before.len() as int, before.next_seq(), before.max_payload())
    &&& after.next_seq() == seq_plus(before.next_seq(), sent_after.len() - sent_before.len())
    &&& p.identifier_ack matches Some(id) ==> after.pending_receipts().contains_key(id)
    &&& bad_channel(p) ==> {
        &&& sent_after == sent_before
        &&& after.queue() == before.queue()
        &&& after.next_message_index() == before.next_message_index()
        &&& after.ordered_indices() == before.ordered_indices()
        &&& after.sequenced_indices() == before.sequenced_indices()
        &&& after.backlog() == before.backlog()
        &&& after.cache() == before.cache()
    }
    &&& !bad_channel(p) ==> {
        let c = channel_of(p);
        if spec_is_ordered(p.reliability) {
            &&& after.ordered_indices() == before.ordered_indices().update(
                c,
                next24(before.ordered_indices()[c]),
            )
            &&& after.sequenced_indices() == before.sequenced_indices()
        } else if spec_is_sequenced(p.reliability) {
            &&& after.ordered_indices() == before.ordered_indices()
            &&& after.sequenced_indices() == before.sequenced_indices().update(
                c,
                next24(before.sequenced_indices()[c]),
            )
        } else {
            &&& after.ordered_indices() == before.ordered_indices()
            &&& after.sequenced_indices() == before.sequenced_indices()
        }
    }
    &&& !bad_channel(p) && p.buffer.len() + header_len(p) > before.max_payload() ==> {
        let size = before.max_payload() - (header_len(p) + 10);
        let n = (p.buffer.len() + size - 1) / size;
        if n > 0x10000 {
            &&& sent_after == sent_before
            &&& after.queue() == before.queue()
            &&& after.next_message_index() == before.next_message_index()
            &&& after.last_split_id() == before.last_split_id()
        } else {
            &&& after.last_split_id() == if before.last_split_id() == 0xFFFF {
                0
            } else {
                (before.last_split_id() + 1) as u16
            }
            &&& after.next_message_index() == if spec_is_reliable(p.reliability) {
                seq_plus(before.next_message_index(), n)
            } else {
                before.next_message_index()
            }
            &&& split_sent(
                numbered(
                    p,
                    before.ordered_indices(),
                    before.sequenced_indices(),
                    before.next_message_index(),
                ),
                size as nat,
                n,
                after.last_split_id(),
                before.next_message_index(),
                before.queue(),
                sent_after.skip(sent_before.len() as int),
                after.queue(),
                before.window_start(),
                before.window_end(),
            )
        }
    }
    &&& !bad_channel(p) && p.buffer.len() + header_len(p) <= before.max_payload() ==> {
        let q = numbered(p, before.ordered_indices(), before.sequenced_indices(), before.next_message_index());
        let m = before.next_message_index();
        let rel = spec_is_reliable(p.reliability);
        &&& after.last_split_id() == before.last_split_id()
        &&& after.next_message_index() == if rel {
            next24(m)
        } else {
            m
        }
        &&& if rel && behind(before.window_start(), before.window_end(), m) {
            &&& sent_after == sent_before
            &&& after.queue() == before.queue()
        } else if rel && ahead(before.window_start(), before.window_end(), m) {
            &&& sent_after == sent_before
            &&& after.queue() == before.queue()
            &&& after.backlog() == before.backlog().insert(m, q)
        } else {
            &&& placed(after.queue(), sent_before, sent_after, without_receipt(q))
            &&& packets_sent(sent_after.skip(sent_before.len() as int)) + after.queue()
                == before.queue().push(without_receipt(q))
            &&& immediate ==> sent_at_once(
                before.queue(),
                sent_before,
                sent_after,
                after.queue(),
                without_receipt(q),
            )
        }
    }
}

/// Whether a packet names a channel past the last while it needs one; it is dropped.
pub open spec fn bad_channel(p: EncapsulatedView) -> bool {
    (spec_is_ordered(p.reliability) || spec_is_sequenced(p.reliability)) && channel_of(p)
        >= MAX_ORDER_CHANNELS
}

/// The sending side of a connection: numbers packets, splits those too large for a
/// datagram, bundles them into datagrams, keeps the reliable ones until they are
/// acknowledged, resends them when they are reported missing or time out, and holds back
/// those beyond the reliable window.
#[derive(Debug)]
pub struct SendReliabilityLayer {
    mtu_size: u16,
    max_datagram_payload_size: usize,
    send_queue: Vec<EncapsulatedPacket>,
    send_queue_size: usize,
    resend_queue: Vec<EncapsulatedPacket>,
    split_id: u16,
    send_seq_number: u32,
    message_index: u32,
    reliable_window_start: u32,
    reliable_window_end: u32,
    reliable_window_size: u32,
    reliable_window: SeqMap<bool>,
    reliable_backlog: SeqMap<EncapsulatedPacket>,
    send_ordered_index: Vec<u32>,
    send_sequenced_index: Vec<u32>,
    reliable_cache: SeqMap<ReliableCacheEntry>,
    need_ack: SeqMap<SeqSet>,
    unacked_retransmit_delay: u64,
}

/// Whether a reliable packet carries its message index.
pub open spec fn indexed(p: EncapsulatedView) -> bool {
    spec_is_reliable(p.reliability) ==> p.message_index is Some
}

/// Whether a packet is reliable and carries its message index.
pub open spec fn reliable_indexed(p: EncapsulatedView) -> bool {
    spec_is_reliable(p.reliability) && p.message_index is Some
}

/// Part `part` of `count` of a split packet, carrying `piece`, with message index `m` when
/// reliable.
fn make_part(
    packet: &EncapsulatedPacket,
    piece: &Vec<u8>,
    id: u16,
    part: usize,
    count: usize,
    m: u32,
    Ghost(m0): Ghost<u32>,
) -> (pk: EncapsulatedPacket)
    requires
        part < count <= 0x10000,
        spec_is_reliable(packet.reliability) ==> m == seq_plus(m0, part as int),
    ensures
        pk@ == split_part(packet@, piece@, id, part as int, count as int, m0),
        pk.buffer@ == piece@,
        spec_is_reliable(pk.reliability) ==> pk.message_index is Some,
{
    let mut pk = EncapsulatedPacket::new();
    pk.split_info = Some(
        SplitPacketInfo { id, part_index: part as u32, total_part_count: count as u32 },
    );
    pk.reliability = packet.reliability;
    pk.buffer = piece.clone();
    pk.identifier_ack = packet.identifier_ack;
    if is_reliable(pk.reliability) {
        pk.message_index = Some(m);
    }
    pk.sequence_index = packet.sequence_index;
    pk.order_channel = packet.order_channel;
    pk.order_index = packet.order_index;
    proof {
        assert(pk.buffer@ =~= piece@);
    }
    pk
}

impl SendReliabilityLayer {
    /// IP and UDP headers, RakNet's own, and the datagram header.
    pub const DATAGRAM_MTU_OVERHEAD: usize = 40;

    /// The smallest MTU worth using.
    pub const MIN_MTU_SIZE: usize = 400;

    /// The smallest payload budget a datagram is given.
    pub const MIN_POSSIBLE_PACKET_SIZE_LIMIT: usize = 360;

    /// How long a datagram waits for its acknowledgement before it is resent, in
    /// milliseconds.
    pub const RETRANSMIT_DELAY_MS: u64 = 2000;

    /// The payload budget of a datagram.
    pub closed spec fn max_payload(&self) -> nat {
        self.max_datagram_payload_size as nat
    }

    /// The MTU the layer was made with.
    pub closed spec fn mtu(&self) -> u16 {
        self.mtu_size
    }

    /// The packets waiting to be bundled.
    pub closed spec fn queue(&self) -> Seq<EncapsulatedView> {
        packets_view(self.send_queue@)
    }

    /// The reliable packets waiting to be resent.
    pub closed spec fn resend_queue(&self) -> Seq<EncapsulatedView> {
        packets_view(self.resend_queue@)
    }

    /// The sequence number of the next datagram.
    pub closed spec fn next_seq(&self) -> u32 {
        self.send_seq_number
    }

    /// The message index of the next reliable packet.
    pub closed spec fn next_message_index(&self) -> u32 {
        self.message_index
    }

    /// The id of the last split packet.
    pub closed spec fn last_split_id(&self) -> u16 {
        self.split_id
    }

    /// The order index of the next ordered packet on each channel.
    pub closed spec fn ordered_indices(&self) -> Seq<u32> {
        self.send_ordered_index@
    }

    /// The sequence index of the next sequenced packet on each channel.
    pub closed spec fn sequenced_indices(&self) -> Seq<u32> {
        self.send_sequenced_index@
    }

    /// The oldest message index not yet acknowledged, and the end of the reliable window.
    pub closed spec fn window_start(&self) -> u32 {
        self.reliable_window_start
    }

    pub closed spec fn window_end(&self) -> u32 {
        self.reliable_window_end
    }

    /// The message indices in the window, and whether each has been acknowledged.
    pub closed spec fn window_marks(&self) -> Map<u32, bool> {
        self.reliable_window.as_map()
    }

    /// The reliable packets beyond the window, by message index.
    pub closed spec fn backlog(&self) -> Map<u32, EncapsulatedView> {
        self.reliable_backlog.as_map().map_values(|p: EncapsulatedPacket| p@)
    }

    /// The reliable packets of each datagram not yet acknowledged, by sequence number.
    pub closed spec fn cache(&self) -> Map<u32, Seq<EncapsulatedView>> {
        self.reliable_cache.as_map().map_values(
            |e: ReliableCacheEntry| packets_view(e.spec_packets()),
        )
    }

    /// When each datagram not yet acknowledged was sent, by sequence number.
    pub closed spec fn cache_times(&self) -> Map<u32, u64> {
        self.reliable_cache.as_map().map_values(|e: ReliableCacheEntry| e.spec_timestamp())
    }

    /// The sequence numbers of the datagrams kept, in increasing order.
    pub closed spec fn cache_keys(&self) -> Seq<u32> {
        self.reliable_cache.keys()
    }

    /// The message indices of the backlog, in increasing order.
    pub closed spec fn backlog_keys(&self) -> Seq<u32> {
        self.reliable_backlog.keys()
    }

    /// How long a datagram waits for its acknowledgement before it is resent.
    pub closed spec fn retransmit_delay(&self) -> u64 {
        self.unacked_retransmit_delay
    }

    /// The message indices each receipt waits for, by receipt id.
    pub closed spec fn pending_receipts(&self) -> Map<u32, Set<u32>> {
        self.need_ack.as_map().map_values(|s: SeqSet| s@)
    }

    pub closed spec fn wf(&self) -> bool {
        &&& self.wf_base()
        &&& self.send_queue_size <= self.max_datagram_payload_size
    }

    /// The invariant, but for the bound on the queue, which holds again once the queue
    /// is sent.
    closed spec fn wf_base(&self) -> bool {
        &&& self.max_datagram_payload_size >= Self::MIN_POSSIBLE_PACKET_SIZE_LIMIT
        &&& self.max_datagram_payload_size <= 0xFFFF
        &&& self.send_seq_number < 0x1000000
        &&& self.message_index < 0x1000000
        &&& self.reliable_window_start < 0x1000000
        &&& self.reliable_window_end < 0x1000000
        &&& self.send_ordered_index@.len() == MAX_ORDER_CHANNELS
        &&& self.send_sequenced_index@.len() == MAX_ORDER_CHANNELS
        &&& self.send_queue_size == packets_len(packets_view(self.send_queue@))
        &&& self.reliable_window.wf()
        &&& self.reliable_backlog.wf()
        &&& self.reliable_cache.wf()
        &&& self.need_ack.wf()
        &&& forall|k: u32|
            #![trigger self.need_ack.as_map()[k]]
            self.need_ack.as_map().contains_key(k) ==> self.need_ack.as_map()[k].wf()
        &&& forall|i: int|
            0 <= i < self.send_queue@.len() ==> indexed((#[trigger] self.send_queue@[i])@)
                && self.send_queue@[i].buffer@.len() <= self.max_datagram_payload_size
        &&& forall|i: int|
            0 <= i < self.resend_queue@.len() ==> reliable_indexed(
                (#[trigger] self.resend_queue@[i])@,
            )
        &&& forall|k: u32|
            #![trigger self.reliable_backlog.as_map()[k]]
            self.reliable_backlog.as_map().contains_key(k) ==> reliable_indexed(
                self.reliable_backlog.as_map()[k]@,
            ) && self.reliable_backlog.as_map()[k].buffer@.len() <= self.max_datagram_payload_size
        &&& forall|k: u32, i: int|
            #![trigger self.reliable_cache.as_map()[k].spec_packets()[i]]
            self.reliable_cache.as_map().contains_key(k) && 0 <= i
                < self.reliable_cache.as_map()[k].spec_packets().len() ==> reliable_indexed(
                self.reliable_cache.as_map()[k].spec_packets()[i]@,
            ) && self.reliable_cache.as_map()[k].spec_packets()[i].buffer@.len()
                <= self.max_datagram_payload_size
        &&& forall|i: int|
            0 <= i < self.resend_queue@.len() ==> (#[trigger] self.resend_queue@[i]).buffer@.len()
                <= self.max_datagram_payload_size
    }

    /// A layer for the given MTU and reliable window, with nothing queued.
    pub fn new(mtu_size: u16, reliable_window_size: u32) -> (r: Self)
        ensures
            r.wf(),
            r.mtu() == mtu_size,
            r.max_payload() == if mtu_size >= 400 {
                mtu_size - 40
            } else {
                360
            },
            r.queue() == Seq::<EncapsulatedView>::empty(),
            r.resend_queue() == Seq::<EncapsulatedView>::empty(),
            r.next_seq() == 0,
            r.next_message_index() == 0,
            r.last_split_id() == 0,
            r.ordered_indices() == Seq::new(MAX_ORDER_CHANNELS as nat, |i: int| 0u32),
            r.sequenced_indices() == Seq::new(MAX_ORDER_CHANNELS as nat, |i: int| 0u32),
            r.window_start() == 0,
            r.window_end() == reliable_window_size & 0xFFFFFF,
            r.window_marks() == Map::<u32, bool>::empty(),
            r.backlog() == Map::<u32, EncapsulatedView>::empty(),
            r.cache() == Map::<u32, Seq<EncapsulatedView>>::empty(),
            r.pending_receipts() == Map::<u32, Set<u32>>::empty(),
    {
        let budget = if (mtu_size as usize) > Self::DATAGRAM_MTU_OVERHEAD {
            mtu_size as usize - Self::DATAGRAM_MTU_OVERHEAD
        } else {
            0
        };
        let max_datagram_payload_size = if budget > Self::MIN_POSSIBLE_PACKET_SIZE_LIMIT {
            budget
        } else {
            Self::MIN_POSSIBLE_PACKET_SIZE_LIMIT
        };
        let mut ordered: Vec<u32> = Vec::new();
        let mut sequenced: Vec<u32> = Vec::new();
        let mut c: usize = 0;
        while c < MAX_ORDER_CHANNELS
            invariant
                c <= MAX_ORDER_CHANNELS,
                ordered@.len() == c,
                sequenced@.len() == c,
                forall|i: int| 0 <= i < c ==> ordered@[i] == 0 && sequenced@[i] == 0,
            decreases MAX_ORDER_CHANNELS - c,
        {
            ordered.push(0);
            sequenced.push(0);
            c = c + 1;
        }
        let r = SendReliabilityLayer {
            mtu_size,
            max_datagram_payload_size,
            send_queue: Vec::new(),
            send_queue_size: 0,
            resend_queue: Vec::new(),
            split_id: 0,
            send_seq_number: 0,
            message_index: 0,
            reliable_window_start: 0,
            reliable_window_end: reliable_window_size & 0xFFFFFF,
            reliable_window_size,
            reliable_window: SeqMap::new(),
            reliable_backlog: SeqMap::new(),
            send_ordered_index: ordered,
            send_sequenced_index: sequenced,
            reliable_cache: SeqMap::new(),
            need_ack: SeqMap::new(),
            unacked_retransmit_delay: Self::RETRANSMIT_DELAY_MS,
        };
        proof {
            assert(reliable_window_size & 0xFFFFFF < 0x1000000) by (bit_vector);
            assert(r.ordered_indices() =~= Seq::new(MAX_ORDER_CHANNELS as nat, |i: int| 0u32));
            assert(r.sequenced_indices() =~= Seq::new(MAX_ORDER_CHANNELS as nat, |i: int| 0u32));
            assert(r.queue() =~= Seq::<EncapsulatedView>::empty());
            assert(r.resend_queue() =~= Seq::<EncapsulatedView>::empty());
            assert(r.backlog() =~= Map::<u32, EncapsulatedView>::empty());
            assert(r.cache() =~= Map::<u32, Seq<EncapsulatedView>>::empty());
            assert(r.pending_receipts() =~= Map::<u32, Set<u32>>::empty());
        }
        r
    }

    /// Queues a packet from above: numbers it on its channel (an ordered packet takes the
    /// channel's next order index; a sequenced one the current order index and the next
    /// sequence index), splits it into parts that each fit a datagram when it is too large,
    /// gives each reliable part the next message index, and queues the parts, sending
    /// split parts at once. A packet naming a channel past the last is dropped.
    #[verifier::spinoff_prover]
    #[verifier::rlimit(60)]
    pub fn add_encapsulated_to_queue(
        &mut self,
        packet: EncapsulatedPacket,
        immediate: bool,
        now: u64,
        sent: &mut Vec<Datagram>,
    )
        requires
            old(self).wf(),
        ensures
            queued_as(*old(self), *final(self), packet@, immediate, old(sent)@, final(sent)@),
    {
        let ghost p0 = packet@;
        let mut packet = packet;
        match packet.identifier_ack {
            Some(ack_id) => {
                if !self.need_ack.contains_key(ack_id) {
                    self.need_ack.insert(ack_id, SeqSet::new());
                    proof {
                        assert(self.pending_receipts() =~= old(self).pending_receipts().insert(
                            ack_id,
                            Set::empty(),
                        ));
                    }
                }
            },
            None => {},
        }
        let channel: usize = match packet.order_channel {
            Some(c) => c as usize,
            None => 0,
        };
        if is_ordered(packet.reliability) {
            if channel >= MAX_ORDER_CHANNELS {
                proof {
                    assert(self.queue() == old(self).queue());
                    assert(sent@.take(sent@.len() as int) =~= sent@);
                }
                return ;
            }
            let index = self.send_ordered_index[channel];
            packet.order_index = Some(index);
            self.send_ordered_index.set(channel, next_index(index));
        } else if is_sequenced(packet.reliability) {
            if channel >= MAX_ORDER_CHANNELS {
                proof {
                    assert(sent@.take(sent@.len() as int) =~= sent@);
                }
                return ;
            }
            packet.order_index = Some(self.send_ordered_index[channel]);
            let index = self.send_sequenced_index[channel];
            packet.sequence_index = Some(index);
            self.send_sequenced_index.set(channel, next_index(index));
        }
        let ghost seq0 = self.send_seq_number;
        let ghost n0 = sent@.len();
        let ghost ord1 = self.ordered_indices();
        let ghost seqd1 = self.sequenced_indices();
        let max_payload_size = self.max_datagram_payload_size;
        let header = packet.header_length();
        let max_buffer_size = if max_payload_size > header {
            max_payload_size - header
        } else {
            0
        };
        if packet.buffer.len() > max_buffer_size {
            let split_header = header + SplitPacketInfo::ENCODED_LENGTH;
            let max_split_payload_size = if max_payload_size > split_header {
                max_payload_size - split_header
            } else {
                0
            };
            if max_split_payload_size == 0 {
                proof {
                    assert(sent@.take(sent@.len() as int) =~= sent@);
                }
                return ;
            }
            let pieces = chunks(&packet.buffer, max_split_payload_size);
            if pieces.len() > 0x10000 {
                proof {
                    assert(sent@ =~= old(sent)@);
                    assert(sent@.take(sent@.len() as int) =~= sent@);
                }
                return ;
            }
            let ghost m0 = self.message_index;
            let count = pieces.len() as u32;
            self.split_id = if self.split_id == 0xFFFF {
                0
            } else {
                self.split_id + 1
            };
            let ghost split_after = self.split_id;
            self.send_parts(&packet, &pieces, max_split_payload_size, now, sent);
            proof {
                let q1 = numbered(
                    p0,
                    old(self).ordered_indices(),
                    old(self).sequenced_indices(),
                    old(self).next_message_index(),
                );
                let a = split_parts(q1, pieces@, split_after, m0);
                let b = split_parts(packet@, pieces@, split_after, m0);
                assert(a =~= b);
                assert(q1.buffer == p0.buffer);
                assert(sent_each_at_once(
                    old(self).queue(),
                    sent@.skip(n0 as int),
                    self.queue(),
                    routed(a, old(self).window_start(), old(self).window_end()),
                ));
            }
        } else {
            if is_reliable(packet.reliability) {
                packet.message_index = Some(self.message_index);
                self.message_index = next_index(self.message_index);
            }
            proof {
                assert(packet@ == numbered(
                    p0,
                    old(self).ordered_indices(),
                    old(self).sequenced_indices(),
                    old(self).next_message_index(),
                ));
            }
            let ghost sb = sent@;
            self.add_to_send_queue_internal(packet, immediate, now, sent);
            proof {
                lemma_sent_chain(sb, sent@, n0 as int, seq0, self.max_payload());
            }
        }
    }

    /// Whether anything is queued, resent, held back or waiting for acknowledgement.
    pub fn needs_update(&self) -> (r: bool)
        requires
            self.wf(),
        ensures
            r == (self.queue().len() > 0 || self.backlog().dom() != Set::<u32>::empty()
                || self.resend_queue().len() > 0 || self.cache().dom() != Set::<u32>::empty()),
    {
        let r = self.send_queue.len() > 0 || !self.reliable_backlog.is_empty()
            || self.resend_queue.len() > 0 || !self.reliable_cache.is_empty();
        proof {
            if self.reliable_backlog.entries().len() > 0 {
                assert(self.backlog().dom().contains(self.reliable_backlog.entries()[0].0));
            } else {
                assert(self.backlog().dom() =~= Set::<u32>::empty());
            }
            if self.reliable_cache.entries().len() > 0 {
                assert(self.cache().dom().contains(self.reliable_cache.entries()[0].0));
            } else {
                assert(self.cache().dom() =~= Set::<u32>::empty());
            }
        }
        r
    }

    /// The periodic work, at time `now` in milliseconds: datagrams unacknowledged for
    /// longer than the retransmission delay are taken from the cache, oldest number first
    /// up to the first that is still fresh, and their packets resent; packets waiting for
    /// resending are queued again unless the window has passed them; backlog packets the
    /// window has reached are queued; and the queue is sent.
    #[verifier::spinoff_prover]
    #[verifier::rlimit(100)]
    pub fn update(&mut self, now: u64, sent: &mut Vec<Datagram>)
        requires
            old(self).wf(),
        ensures
            updated(*old(self), *final(self), now, old(sent)@, final(sent)@),
    {
        let ghost seq0 = self.send_seq_number;
        let ghost n0 = sent@.len();
        let ghost ws = self.reliable_window_start;
        let ghost we = self.reliable_window_end;
        let ghost b0 = old(self).backlog();
        // The backlog packets the window has reached leave the backlog.
        let keys = self.reliable_backlog.key_list();
        let mut ready: Vec<EncapsulatedPacket> = Vec::new();
        let mut i: usize = 0;
        while i < keys.len()
            invariant
                self.wf(),
                i <= keys@.len(),
                keys@ == old(self).backlog_keys(),
                strictly_increasing(keys@),
                b0 == old(self).backlog(),
                ws == self.reliable_window_start,
                we == self.reliable_window_end,
                packets_view(ready@) == window_ready(keys@.take(i as int), b0, ws, we),
                forall|k: u32|
                    #![trigger self.backlog().contains_key(k)]
                    self.backlog().contains_key(k) ==> b0.contains_key(k) && self.backlog()[k] == b0[k],
                forall|q: int|
                    i <= q < keys@.len() ==> self.backlog().contains_key(#[trigger] keys@[q]),
                forall|q: int|
                    0 <= q < ready@.len() ==> reliable_indexed((#[trigger] ready@[q])@)
                        && ready@[q].buffer@.len() <= self.max_payload(),
                self.reliable_cache == old(self).reliable_cache,
                self.resend_queue@ == old(self).resend_queue@,
                self.send_queue@ == old(self).send_queue@,
                self.send_queue_size == old(self).send_queue_size,
                self.send_seq_number == old(self).send_seq_number,
                self.message_index == old(self).message_index,
                self.split_id == old(self).split_id,
                self.mtu_size == old(self).mtu_size,
                self.max_datagram_payload_size == old(self).max_datagram_payload_size,
                self.send_ordered_index@ == old(self).send_ordered_index@,
                self.send_sequenced_index@ == old(self).send_sequenced_index@,
                self.unacked_retransmit_delay == old(self).unacked_retransmit_delay,
            decreases keys@.len() - i,
        {
            let msg_idx = keys[i];
            proof {
                assert(keys@.take(i + 1).drop_last() =~= keys@.take(i as int));
                assert(self.backlog().contains_key(keys@[i as int]));
            }
            let window_start = self.reliable_window_start;
            let window_end = self.reliable_window_end;
            let is_in_window = if window_end >= window_start {
                msg_idx >= window_start && msg_idx < window_end
            } else {
                msg_idx >= window_start || msg_idx < window_end
            };
            if is_in_window {
                let ghost bm = self.reliable_backlog.as_map();
                let ghost bv = self.backlog();
                match self.reliable_backlog.remove(msg_idx) {
                    Some(pk) => {
                        proof {
                            assert(bm.contains_key(msg_idx));
                            assert(pk@ == bv[msg_idx]);
                            assert(pk@ == b0[msg_idx]);
                            assert(packets_view(ready@.push(pk)) =~= packets_view(ready@).push(pk@));
                        }
                        ready.push(pk);
                    },
                    None => {},
                }
                proof {
                    assert(self.backlog() =~= bv.remove(msg_idx));
                    assert forall|q: int| i + 1 <= q < keys@.len() implies self.backlog().contains_key(
                        #[trigger] keys@[q],
                    ) by {
                        assert(keys@[i as int] < keys@[q]);
                    }
                }
            }
            i = i + 1;
        }
        proof {
            assert(keys@.take(keys@.len() as int) =~= keys@);
            assert(self.queue() == old(self).queue());
            assert(self.cache() == old(self).cache());
            assert(self.resend_queue() == old(self).resend_queue());
        }
        // Datagrams unacknowledged too long are taken from the cache for resending.
        let ghost c0 = old(self).cache();
        let ghost times = old(self).cache_times();
        let ghost ckeys = old(self).cache_keys();
        let ghost expired_all: Seq<u32> = Seq::empty();
        if now >= self.unacked_retransmit_delay {
            let threshold = now - self.unacked_retransmit_delay;
            let ckl = self.reliable_cache.key_list();
            let mut expired: Vec<u32> = Vec::new();
            let mut i: usize = 0;
            let mut fresh = false;
            while i < ckl.len() && !fresh
                invariant
                    i <= ckl@.len(),
                    ckl@ == self.reliable_cache.keys(),
                    ckl@ == ckeys,
                    times == self.cache_times(),
                    self.wf(),
                    !fresh ==> expired@ == ckl@.take(i as int) && fresh_from(ckl@, times, threshold, 0)
                        == fresh_from(ckl@, times, threshold, i as int),
                    fresh ==> i >= 1 && expired@ == ckl@.take(i - 1) && fresh_from(ckl@, times, threshold, 0)
                        == i - 1,
                decreases ckl@.len() - i,
            {
                let (_, entry) = self.reliable_cache.entry_at(i);
                proof {
                    self.reliable_cache.lemma_entry_value(i as int);
                    assert(times[ckl@[i as int]] == entry.spec_timestamp());
                }
                if entry.timestamp() < threshold {
                    expired.push(ckl[i]);
                    proof {
                        assert(ckl@.take(i + 1) =~= ckl@.take(i as int).push(ckl@[i as int]));
                    }
                } else {
                    fresh = true;
                }
                i = i + 1;
            }
            proof {
                if !fresh {
                    assert(fresh_from(ckl@, times, threshold, i as int) == ckl@.len());
                    assert(ckl@.take(i as int) =~= ckl@.take(ckl@.len() as int));
                }
                assert(expired@ == expired_keys(ckeys, times, now, old(self).retransmit_delay()));
                expired_all = expired@;
            }
            self.requeue(&expired);
        } else {
            proof {
                assert(take_cached(c0, Seq::<u32>::empty()).0 =~= Seq::<EncapsulatedView>::empty());
                assert(self.resend_queue() =~= old(self).resend_queue() + take_cached(
                    c0,
                    Seq::<u32>::empty(),
                ).0);
            }
        }
        let ghost all = self.resend_queue();
        proof {
            assert(expired_all == expired_keys(ckeys, times, now, old(self).retransmit_delay()));
            assert(all == old(self).resend_queue() + take_cached(c0, expired_all).0);
            lemma_packets_sent_none(sent@);
            assert(packets_sent(sent@.skip(n0 as int)) + self.queue() =~= old(self).queue() + routed(
                all.take(0),
                ws,
                we,
            ));
        }
        // The packets waiting for resending are queued again, unless the window passed them.
        let mut resend: Vec<EncapsulatedPacket> = Vec::new();
        std::mem::swap(&mut resend, &mut self.resend_queue);
        proof {
            assert(packets_view(resend@) == all);
        }
        while resend.len() > 0
            invariant
                self.wf(),
                self.resend_queue().len() == 0,
                resend@.len() <= all.len(),
                packets_view(resend@) == all.skip(all.len() - resend@.len()),
                packets_sent(sent@.skip(n0 as int)) + self.queue() == old(self).queue() + routed(
                    all.take(all.len() - resend@.len()),
                    ws,
                    we,
                ),
                forall|q: int|
                    0 <= q < resend@.len() ==> reliable_indexed((#[trigger] resend@[q])@)
                        && resend@[q].buffer@.len() <= self.max_payload(),
                forall|q: int|
                    0 <= q < ready@.len() ==> reliable_indexed((#[trigger] ready@[q])@)
                        && ready@[q].buffer@.len() <= self.max_payload(),
                self.max_payload() == old(self).max_payload(),
                self.mtu() == old(self).mtu(),
                self.next_message_index() == old(self).next_message_index(),
                self.last_split_id() == old(self).last_split_id(),
                self.ordered_indices() == old(self).ordered_indices(),
                self.sequenced_indices() == old(self).sequenced_indices(),
                self.window_start() == ws,
                self.window_end() == we,
                ws == old(self).window_start(),
                we == old(self).window_end(),
                sent@.len() >= n0,
                sent@.take(n0 as int) == old(sent)@,
                n0 == old(sent)@.len(),
                seq0 == old(self).next_seq(),
                seq0 < 0x1000000,
                sent_since(sent@, n0 as int, seq0, self.max_payload()),
                self.next_seq() == seq_plus(seq0, sent@.len() - n0),
            decreases resend@.len(),
        {
            let ghost k = all.len() - resend@.len();
            let ghost rv = resend@;
            let pk = resend.remove(0);
            proof {
                assert(pk == rv[0]);
                assert(packets_view(rv)[0] == rv[0]@);
                assert(all.skip(k)[0] == all[k]);
                assert(reliable_indexed(pk@));
                assert(pk@ == all[k]);
                assert(resend@ =~= rv.skip(1));
                assert(packets_view(resend@) =~= packets_view(rv).skip(1));
                assert(all.take(k + 1).drop_last() =~= all.take(k));
                assert(all.take(k + 1).last() == all[k]);
                assert(packets_view(resend@) =~= all.skip(all.len() - resend@.len()));
            }
            match pk.message_index {
                Some(msg_idx) => {
                    let window_start = self.reliable_window_start;
                    let window_end = self.reliable_window_end;
                    let is_behind = if window_end >= window_start {
                        msg_idx < window_start
                    } else {
                        msg_idx < window_start && msg_idx >= window_end
                    };
                    if !is_behind {
                        let ghost sb = sent@;
                        let ghost qb = self.queue();
                        self.add_to_send_queue_internal(pk, false, now, sent);
                        proof {
                            lemma_sent_chain(sb, sent@, n0 as int, seq0, self.max_payload());
                            assert(sent@.take(n0 as int) =~= sb.take(n0 as int));
                            assert(sent@.skip(n0 as int) =~= sb.skip(n0 as int) + sent@.skip(sb.len() as int)) by {
                                assert(sent@.take(sb.len() as int) == sb);
                            }
                            lemma_packets_sent_append(sb.skip(n0 as int), sent@.skip(sb.len() as int));
                            if sent@ == sb {
                                lemma_packets_sent_none(sb);
                            }
                            lemma_route_step(
                                packets_sent(sb.skip(n0 as int)),
                                qb,
                                packets_sent(sent@.skip(sb.len() as int)),
                                self.queue(),
                                old(self).queue(),
                                all,
                                k,
                                ws,
                                we,
                            );
                        }
                    } else {
                        proof {
                            assert(routed(all.take(k + 1), ws, we) == routed(all.take(k), ws, we));
                        }
                    }
                },
                None => {},
            }
        }
        proof {
            assert(all.take(all.len() as int) =~= all);
        }
        // The backlog packets the window reached are queued.
        let ghost rd = packets_view(ready@);
        let ghost base2 = old(self).queue() + routed(all, ws, we);
        proof {
            assert(rd == window_ready(old(self).backlog_keys(), b0, ws, we));
            assert(rd.take(0) =~= Seq::<EncapsulatedView>::empty());
            assert(packets_sent(sent@.skip(n0 as int)) + self.queue() =~= old(self).queue() + routed(all, ws, we)
                + routed(rd.take(0), ws, we));
        }
        while ready.len() > 0
            invariant
                self.wf(),
                ready@.len() <= rd.len(),
                packets_view(ready@) == rd.skip(rd.len() - ready@.len()),
                base2 == old(self).queue() + routed(all, ws, we),
                packets_sent(sent@.skip(n0 as int)) + self.queue() == base2 + routed(
                    rd.take(rd.len() - ready@.len()),
                    ws,
                    we,
                ),
                forall|q: int|
                    0 <= q < ready@.len() ==> reliable_indexed((#[trigger] ready@[q])@)
                        && ready@[q].buffer@.len() <= self.max_payload(),
                self.max_payload() == old(self).max_payload(),
                self.mtu() == old(self).mtu(),
                self.resend_queue().len() == 0,
                self.next_message_index() == old(self).next_message_index(),
                self.last_split_id() == old(self).last_split_id(),
                self.ordered_indices() == old(self).ordered_indices(),
                self.sequenced_indices() == old(self).sequenced_indices(),
                self.window_start() == ws,
                self.window_end() == we,
                ws == old(self).window_start(),
                we == old(self).window_end(),
                sent@.len() >= n0,
                sent@.take(n0 as int) == old(sent)@,
                n0 == old(sent)@.len(),
                seq0 == old(self).next_seq(),
                seq0 < 0x1000000,
                sent_since(sent@, n0 as int, seq0, self.max_payload()),
                self.next_seq() == seq_plus(seq0, sent@.len() - n0),
            decreases ready@.len(),
        {
            let ghost k = rd.len() - ready@.len();
            let ghost rv = ready@;
            let pk = ready.remove(0);
            proof {
                assert(pk == rv[0]);
                assert(packets_view(rv)[0] == rv[0]@);
                assert(rd.skip(k)[0] == rd[k]);
                assert(reliable_indexed(pk@));
                assert(pk@ == rd[k]);
                assert(ready@ =~= rv.skip(1));
                assert(packets_view(ready@) =~= packets_view(rv).skip(1));
                assert(rd.take(k + 1).drop_last() =~= rd.take(k));
                assert(rd.take(k + 1).last() == rd[k]);
                assert(packets_view(ready@) =~= rd.skip(rd.len() - ready@.len()));
            }
            let ghost sb = sent@;
            let ghost qb = self.queue();
            self.add_to_send_queue_internal(pk, false, now, sent);
            proof {
                lemma_sent_chain(sb, sent@, n0 as int, seq0, self.max_payload());
                assert(sent@.take(n0 as int) =~= sb.take(n0 as int));
                lemma_stream_step(sb, sent@, n0 as int, qb, self.queue(), base2, rd, k, ws, we);
            }
        }
        proof {
            assert(rd.take(rd.len() as int) =~= rd);
        }
        let ghost sb = sent@;
        let ghost q = self.queue();
        self.flush_send_queue(now, sent);
        proof {
            assert(sent@.take(sb.len() as int) =~= sb);
            if q.len() > 0 {
                assert(fits(sent@.last(), self.max_payload()));
                assert(sent@ == sb.push(sent@.last()));
                lemma_packets_sent_push(sb, n0 as int, sent@.last());
            }
            lemma_sent_chain(sb, sent@, n0 as int, seq0, self.max_payload());
            assert(sent@.take(n0 as int) =~= sb.take(n0 as int));
            assert(self.resend_queue() =~= Seq::<EncapsulatedView>::empty());
            assert(packets_sent(sent@.skip(n0 as int)) =~= packets_sent(sent@.skip(n0 as int)) + self.queue());
        }
    }

    /// Takes the entry of datagram `seq` out of the cache, if it is there.
    fn take_cache_entry(&mut self, seq: u32) -> (r: Option<ReliableCacheEntry>)
        requires
            old(self).wf(),
        ensures
            final(self).wf(),
            r is Some <==> old(self).cache().contains_key(seq),
            r matches Some(e) ==> packets_view(e.spec_packets()) == old(self).cache()[seq]
                && forall|i: int|
                0 <= i < e.spec_packets().len() ==> reliable_indexed(
                    (#[trigger] e.spec_packets()[i])@,
                ) && e.spec_packets()[i].buffer@.len() <= final(self).max_payload(),
            final(self).cache() == old(self).cache().remove(seq),
            final(self).cache_times() == old(self).cache_times().remove(seq),
            final(self).max_payload() == old(self).max_payload(),
            final(self).mtu() == old(self).mtu(),
            final(self).queue() == old(self).queue(),
            final(self).resend_queue() == old(self).resend_queue(),
            final(self).next_seq() == old(self).next_seq(),
            final(self).next_message_index() == old(self).next_message_index(),
            final(self).last_split_id() == old(self).last_split_id(),
            final(self).ordered_indices() == old(self).ordered_indices(),
            final(self).sequenced_indices() == old(self).sequenced_indices(),
            final(self).window_start() == old(self).window_start(),
            final(self).window_end() == old(self).window_end(),
            final(self).window_marks() == old(self).window_marks(),
            final(self).backlog() == old(self).backlog(),
            final(self).pending_receipts() == old(self).pending_receipts(),
    {
        let r = self.reliable_cache.remove(seq);
        proof {
            assert(self.cache() =~= old(self).cache().remove(seq));
            assert(self.cache_times() =~= old(self).cache_times().remove(seq));
        }
        r
    }

    /// Takes a NACK: every datagram it reports that is still kept leaves the cache, and
    /// its reliable packets are queued for resending.
    pub fn on_nack(&mut self, nack: &NACK)
        requires
            old(self).wf(),
        ensures
            final(self).wf(),
            final(self).resend_queue() == old(self).resend_queue() + take_cached(
                old(self).cache(),
                nack.0.packets@,
            ).0,
            final(self).cache() == take_cached(old(self).cache(), nack.0.packets@).1,
            final(self).max_payload() == old(self).max_payload(),
            final(self).mtu() == old(self).mtu(),
            final(self).queue() == old(self).queue(),
            final(self).next_seq() == old(self).next_seq(),
            final(self).next_message_index() == old(self).next_message_index(),
            final(self).last_split_id() == old(self).last_split_id(),
            final(self).ordered_indices() == old(self).ordered_indices(),
            final(self).sequenced_indices() == old(self).sequenced_indices(),
            final(self).window_start() == old(self).window_start(),
            final(self).window_end() == old(self).window_end(),
            final(self).window_marks() == old(self).window_marks(),
            final(self).backlog() == old(self).backlog(),
            final(self).pending_receipts() == old(self).pending_receipts(),
    {
        self.requeue(&nack.0.packets);
    }

    /// Every datagram of `seqs` that is still kept leaves the cache, and its reliable
    /// packets are queued for resending.
    fn requeue(&mut self, seqs: &Vec<u32>)
        requires
            old(self).wf(),
        ensures
            final(self).wf(),
            final(self).resend_queue() == old(self).resend_queue() + take_cached(
                old(self).cache(),
                seqs@,
            ).0,
            final(self).cache() == take_cached(old(self).cache(), seqs@).1,
            final(self).max_payload() == old(self).max_payload(),
            final(self).mtu() == old(self).mtu(),
            final(self).queue() == old(self).queue(),
            final(self).next_seq() == old(self).next_seq(),
            final(self).next_message_index() == old(self).next_message_index(),
            final(self).last_split_id() == old(self).last_split_id(),
            final(self).ordered_indices() == old(self).ordered_indices(),
            final(self).sequenced_indices() == old(self).sequenced_indices(),
            final(self).window_start() == old(self).window_start(),
            final(self).window_end() == old(self).window_end(),
            final(self).window_marks() == old(self).window_marks(),
            final(self).backlog() == old(self).backlog(),
            final(self).pending_receipts() == old(self).pending_receipts(),
    {
        let mut i: usize = 0;
        while i < seqs.len()
            invariant
                self.wf(),
                i <= seqs@.len(),
                self.resend_queue() == old(self).resend_queue() + take_cached(
                    old(self).cache(),
                    seqs@.take(i as int),
                ).0,
                self.cache() == take_cached(old(self).cache(), seqs@.take(i as int)).1,
                self.max_payload() == old(self).max_payload(),
                self.mtu() == old(self).mtu(),
                self.queue() == old(self).queue(),
                self.next_seq() == old(self).next_seq(),
                self.next_message_index() == old(self).next_message_index(),
                self.last_split_id() == old(self).last_split_id(),
                self.ordered_indices() == old(self).ordered_indices(),
                self.sequenced_indices() == old(self).sequenced_indices(),
                self.window_start() == old(self).window_start(),
                self.window_end() == old(self).window_end(),
                self.window_marks() == old(self).window_marks(),
                self.backlog() == old(self).backlog(),
                self.pending_receipts() == old(self).pending_receipts(),
            decreases seqs@.len() - i,
        {
            let seq = seqs[i];
            proof {
                assert(seqs@.take(i + 1).drop_last() =~= seqs@.take(i as int));
            }
            let ghost r0 = self.resend_queue();
            match self.take_cache_entry(seq) {
                Some(entry) => {
                    let packets = entry.packets();
                    let mut j: usize = 0;
                    while j < packets.len()
                        invariant
                            self.wf(),
                            j <= packets@.len(),
                            packets@ == entry.spec_packets(),
                            forall|k: int|
                                0 <= k < packets@.len() ==> reliable_indexed(
                                    (#[trigger] packets@[k])@,
                                ) && packets@[k].buffer@.len() <= self.max_payload(),
                            self.resend_queue() == r0 + reliable_only(
                                packets_view(packets@).take(j as int),
                            ),
                            self.cache() == take_cached(old(self).cache(), seqs@.take(i as int)).1.remove(seq),
                            self.max_payload() == old(self).max_payload(),
                            self.mtu() == old(self).mtu(),
                            self.queue() == old(self).queue(),
                            self.next_seq() == old(self).next_seq(),
                            self.next_message_index() == old(self).next_message_index(),
                            self.last_split_id() == old(self).last_split_id(),
                            self.ordered_indices() == old(self).ordered_indices(),
                            self.sequenced_indices() == old(self).sequenced_indices(),
                            self.window_start() == old(self).window_start(),
                            self.window_end() == old(self).window_end(),
                            self.window_marks() == old(self).window_marks(),
                            self.backlog() == old(self).backlog(),
                            self.pending_receipts() == old(self).pending_receipts(),
                        decreases packets@.len() - j,
                    {
                        proof {
                            assert(packets_view(packets@).take(j + 1).drop_last() =~= packets_view(
                                packets@,
                            ).take(j as int));
                        }
                        if is_reliable(packets[j].reliability) {
                            let copy = packets[j].clone_packet();
                            let ghost q = self.resend_queue@;
                            self.resend_queue.push(copy);
                            proof {
                                assert(self.resend_queue() =~= packets_view(q).push(copy@));
                            }
                        }
                        j = j + 1;
                    }
                    proof {
                        assert(packets_view(packets@).take(packets@.len() as int) =~= packets_view(
                            packets@,
                        ));
                        assert(self.resend_queue() =~= old(self).resend_queue() + take_cached(
                            old(self).cache(),
                            seqs@.take(i + 1),
                        ).0);
                    }
                },
                None => {},
            }
            i = i + 1;
        }
        proof {
            assert(seqs@.take(seqs@.len() as int) =~= seqs@);
        }
    }

    /// Message index `m` was acknowledged: it leaves every receipt's set, in increasing
    /// order of receipt id, up to the first receipt it completes; that receipt is fulfilled
    /// and reported in `acked`.
    fn settle_receipts(&mut self, m: u32, acked: &mut Vec<u32>)
        requires
            old(self).wf(),
        ensures
            final(self).wf(),
            (forall|k: u32| !completes(old(self).pending_receipts(), k, m)) ==> {
                &&& final(self).pending_receipts() == settled(old(self).pending_receipts(), m, None)
                &&& final(acked)@ == old(acked)@
            },
            forall|d: u32|
                #[trigger] first_completed(old(self).pending_receipts(), d, m) ==> {
                    &&& final(self).pending_receipts() == settled(
                        old(self).pending_receipts(),
                        m,
                        Some(d),
                    )
                    &&& final(acked)@ == old(acked)@.push(d)
                },
            final(self).pending_receipts().dom().subset_of(old(self).pending_receipts().dom()),
            final(acked)@ == old(acked)@ || (final(acked)@ == old(acked)@.push(final(acked)@.last())
                && old(self).pending_receipts().contains_key(final(acked)@.last())
                && !final(self).pending_receipts().contains_key(final(acked)@.last())),
            final(self).max_payload() == old(self).max_payload(),
            final(self).mtu() == old(self).mtu(),
            final(self).queue() == old(self).queue(),
            final(self).resend_queue() == old(self).resend_queue(),
            final(self).next_seq() == old(self).next_seq(),
            final(self).next_message_index() == old(self).next_message_index(),
            final(self).last_split_id() == old(self).last_split_id(),
            final(self).ordered_indices() == old(self).ordered_indices(),
            final(self).sequenced_indices() == old(self).sequenced_indices(),
            final(self).window_start() == old(self).window_start(),
            final(self).window_end() == old(self).window_end(),
            final(self).window_marks() == old(self).window_marks(),
            final(self).backlog() == old(self).backlog(),
            final(self).cache() == old(self).cache(),
            final(self).cache_times() == old(self).cache_times(),
    {
        let ghost p = old(self).pending_receipts();
        let keys = self.need_ack.key_list();
        let mut notify: Option<u32> = None;
        let mut i: usize = 0;
        while i < keys.len() && notify.is_none()
            invariant
                self.wf(),
                i <= keys@.len(),
                strictly_increasing(keys@),
                p == old(self).pending_receipts(),
                forall|k: u32| p.contains_key(k) <==> keys@.contains(k),
                self.pending_receipts().dom() == p.dom(),
                forall|k: u32|
                    #![trigger self.pending_receipts()[k]]
                    p.contains_key(k) ==> self.pending_receipts()[k] == if keys@.take(
                        i as int,
                    ).contains(k) {
                        p[k].remove(m)
                    } else {
                        p[k]
                    },
                notify is None ==> forall|j: int| 0 <= j < i ==> !completes(p, #[trigger] keys@[j], m),
                notify matches Some(d) ==> {
                    &&& i > 0
                    &&& d == keys@[i - 1]
                    &&& completes(p, d, m)
                    &&& forall|j: int| 0 <= j < i - 1 ==> !completes(p, #[trigger] keys@[j], m)
                },
                self.max_payload() == old(self).max_payload(),
                self.mtu() == old(self).mtu(),
                self.queue() == old(self).queue(),
                self.resend_queue() == old(self).resend_queue(),
                self.next_seq() == old(self).next_seq(),
                self.next_message_index() == old(self).next_message_index(),
                self.last_split_id() == old(self).last_split_id(),
                self.ordered_indices() == old(self).ordered_indices(),
                self.sequenced_indices() == old(self).sequenced_indices(),
                self.window_start() == old(self).window_start(),
                self.window_end() == old(self).window_end(),
                self.window_marks() == old(self).window_marks(),
                self.backlog() == old(self).backlog(),
                self.cache() == old(self).cache(),
                self.cache_times() == old(self).cache_times(),
            decreases keys@.len() - i,
        {
            let id = keys[i];
            assert(keys@.contains(id));
            let ghost before = self.pending_receipts();
            proof {
                assert(!keys@.take(i as int).contains(id)) by {
                    if keys@.take(i as int).contains(id) {
                        let q = choose|q: int| 0 <= q < i && keys@.take(i as int)[q] == id;
                        assert(keys@[q] < keys@[i as int]);
                    }
                }
                assert(keys@.take(i + 1) =~= keys@.take(i as int).push(id));
            }
            match self.need_ack.remove(id) {
                Some(mut set) => {
                    proof {
                        assert(before[id] == p[id]);
                        assert(set@ == before[id]);
                    }
                    let had = set.contains(m);
                    set.remove(m);
                    let now_empty = set.is_empty();
                    let ghost s1 = set@;
                    self.need_ack.insert(id, set);
                    proof {
                        assert(self.pending_receipts()[id] == s1);
                        assert(self.pending_receipts().dom() =~= before.dom());
                        assert(self.pending_receipts()[id] == p[id].remove(m));
                        assert forall|k: u32| p.contains_key(k) && k != id implies #[trigger] self.pending_receipts()[k]
                            == before[k] by {}
                        if had && now_empty {
                            assert(p[id] =~= set![m]);
                        } else {
                            if p[id] == set![m] {
                                assert(p[id].contains(m));
                                assert(p[id].remove(m) =~= Set::<u32>::empty());
                            }
                        }
                    }
                    proof {
                        assert forall|k: u32| p.contains_key(k) implies #[trigger] self.pending_receipts()[k]
                            == if keys@.take(i + 1).contains(k) {
                            p[k].remove(m)
                        } else {
                            p[k]
                        } by {
                            if k == id {
                                assert(keys@.take(i + 1)[i as int] == id);
                            } else {
                                assert(before[k] == if keys@.take(i as int).contains(k) {
                                    p[k].remove(m)
                                } else {
                                    p[k]
                                });
                                if keys@.take(i + 1).contains(k) {
                                    let q = choose|q: int| 0 <= q < i + 1 && #[trigger] keys@.take(i + 1)[q] == k;
                                    assert(keys@.take(i as int)[q] == k);
                                }
                                if keys@.take(i as int).contains(k) {
                                    let q = choose|q: int| 0 <= q < i && #[trigger] keys@.take(i as int)[q] == k;
                                    assert(keys@.take(i + 1)[q] == k);
                                }
                            }
                        }
                    }
                    if had && now_empty {
                        notify = Some(id);
                    }
                },
                None => {},
            }
            i = i + 1;
        }
        proof {
            assert forall|k: u32| p.contains_key(k) implies exists|q: int|
                0 <= q < keys@.len() && keys@[q] == k by {
                assert(keys@.contains(k));
            }
        }
        match notify {
            Some(id) => {
                let ghost before = self.pending_receipts();
                self.need_ack.remove(id);
                acked.push(id);
                proof {
                    assert(self.pending_receipts().dom() =~= old(self).pending_receipts().dom().remove(id));
                    assert forall|k: u32| k < id implies !completes(p, k, m) by {
                        if p.contains_key(k) {
                            let q = choose|q: int| 0 <= q < keys@.len() && keys@[q] == k;
                            if q >= i - 1 {
                                if q > i - 1 {
                                    assert(keys@[i - 1] < keys@[q]);
                                }
                            }
                        }
                    }
                    assert(first_completed(p, id, m));
                    let target = settled(p, m, Some(id));
                    assert forall|k: u32| #[trigger] self.pending_receipts().contains_key(k) implies self.pending_receipts()[k] == target[k] by {
                        let q = choose|q: int| 0 <= q < keys@.len() && keys@[q] == k;
                        assert(self.pending_receipts()[k] == before[k]);
                        assert(before[k] == if keys@.take(i as int).contains(k) {
                            p[k].remove(m)
                        } else {
                            p[k]
                        });
                        if k > id {
                            assert(q > i - 1) by {
                                if q < i - 1 {
                                    assert(keys@[q] < keys@[i - 1]);
                                }
                            }
                            assert(!keys@.take(i as int).contains(k)) by {
                                if keys@.take(i as int).contains(k) {
                                    let r = choose|r: int| 0 <= r < i && keys@.take(i as int)[r] == k;
                                    if r < q {
                                        assert(keys@[r] < keys@[q]);
                                    }
                                }
                            }
                        } else {
                            assert(q < i - 1) by {
                                if q > i - 1 {
                                    assert(keys@[i - 1] < keys@[q]);
                                }
                            }
                            assert(keys@.take(i as int)[q] == k);
                            assert(keys@.take(i as int).contains(k));
                        }
                    }
                    assert(self.pending_receipts() =~= target);
                    assert forall|d: u32| #[trigger] first_completed(p, d, m) implies d == id by {
                        if d < id {
                        } else if id < d {
                        }
                    }
                }
            },
            None => {
                proof {
                    assert forall|k: u32| !completes(p, k, m) by {
                        if p.contains_key(k) {
                            let q = choose|q: int| 0 <= q < keys@.len() && keys@[q] == k;
                        }
                    }
                    let target = settled(p, m, None);
                    assert forall|k: u32| #[trigger] self.pending_receipts().contains_key(k) implies self.pending_receipts()[k] == target[k] by {
                        let q = choose|q: int| 0 <= q < keys@.len() && keys@[q] == k;
                        assert(i == keys@.len());
                        assert(keys@.take(i as int)[q] == k);
                        assert(keys@.take(i as int).contains(k));
                        assert(self.pending_receipts()[k] == p[k].remove(m));
                    }
                    assert(self.pending_receipts() =~= target);
                }
            },
        }
    }

    /// Moves the reliable window past the acknowledged indices at its start.
    fn update_reliable_window(&mut self)
        requires
            old(self).wf(),
        ensures
            final(self).wf(),
            !(final(self).window_marks().contains_key(final(self).window_start()) && final(self).window_marks()[final(self).window_start()]),
            exists|k: nat|
                final(self).window_start() == seq_plus(old(self).window_start(), k as int)
                    && final(self).window_end() == seq_plus(old(self).window_end(), k as int),
            final(self).window_marks().dom().subset_of(old(self).window_marks().dom()),
            final(self).max_payload() == old(self).max_payload(),
            final(self).mtu() == old(self).mtu(),
            final(self).queue() == old(self).queue(),
            final(self).resend_queue() == old(self).resend_queue(),
            final(self).next_seq() == old(self).next_seq(),
            final(self).next_message_index() == old(self).next_message_index(),
            final(self).last_split_id() == old(self).last_split_id(),
            final(self).ordered_indices() == old(self).ordered_indices(),
            final(self).sequenced_indices() == old(self).sequenced_indices(),
            final(self).backlog() == old(self).backlog(),
            final(self).cache() == old(self).cache(),
            final(self).cache_times() == old(self).cache_times(),
            final(self).pending_receipts() == old(self).pending_receipts(),
    {
        let ghost mut k: nat = 0;
        loop
            invariant
                self.wf(),
                self.window_start() == seq_plus(old(self).window_start(), k as int),
                self.window_end() == seq_plus(old(self).window_end(), k as int),
                self.window_marks().dom().subset_of(old(self).window_marks().dom()),
                self.max_payload() == old(self).max_payload(),
                self.mtu() == old(self).mtu(),
                self.queue() == old(self).queue(),
                self.resend_queue() == old(self).resend_queue(),
                self.next_seq() == old(self).next_seq(),
                self.next_message_index() == old(self).next_message_index(),
                self.last_split_id() == old(self).last_split_id(),
                self.ordered_indices() == old(self).ordered_indices(),
                self.sequenced_indices() == old(self).sequenced_indices(),
                self.backlog() == old(self).backlog(),
                self.cache() == old(self).cache(),
                self.cache_times() == old(self).cache_times(),
                self.pending_receipts() == old(self).pending_receipts(),
            ensures
                self.wf(),
                !(self.window_marks().contains_key(self.window_start())
                    && self.window_marks()[self.window_start()]),
                self.window_start() == seq_plus(old(self).window_start(), k as int),
                self.window_end() == seq_plus(old(self).window_end(), k as int),
                self.window_marks().dom().subset_of(old(self).window_marks().dom()),
                self.max_payload() == old(self).max_payload(),
                self.mtu() == old(self).mtu(),
                self.queue() == old(self).queue(),
                self.resend_queue() == old(self).resend_queue(),
                self.next_seq() == old(self).next_seq(),
                self.next_message_index() == old(self).next_message_index(),
                self.last_split_id() == old(self).last_split_id(),
                self.ordered_indices() == old(self).ordered_indices(),
                self.sequenced_indices() == old(self).sequenced_indices(),
                self.backlog() == old(self).backlog(),
                self.cache() == old(self).cache(),
                self.cache_times() == old(self).cache_times(),
                self.pending_receipts() == old(self).pending_receipts(),
            decreases self.reliable_window.entries().len(),
        {
            let start = self.reliable_window_start;
            let acked = match self.reliable_window.get(start) {
                Some(b) => *b,
                None => false,
            };
            if !acked {
                break;
            }
            self.reliable_window.remove(start);
            self.reliable_window_start = next_index(start);
            self.reliable_window_end = next_index(self.reliable_window_end);
            proof {
                vstd::arithmetic::div_mod::lemma_add_mod_noop(
                    old(self).window_start() + k,
                    1,
                    0x1000000,
                );
                vstd::arithmetic::div_mod::lemma_add_mod_noop(
                    old(self).window_end() + k,
                    1,
                    0x1000000,
                );
                k = k + 1;
            }
        }
    }

    /// Takes an ACK: every datagram it acknowledges that is still kept leaves the cache,
    /// its message indices inside the window are marked acknowledged, receipts completed by
    /// them are reported in `acked`, and the window moves past its acknowledged start.
    pub fn on_ack(&mut self, ack: &ACK, acked: &mut Vec<u32>)
        requires
            old(self).wf(),
        ensures
            final(self).wf(),
            final(self).cache() == take_cached(old(self).cache(), ack.0.packets@).1,
            final(acked)@.len() >= old(acked)@.len(),
            final(acked)@.take(old(acked)@.len() as int) == old(acked)@,
            forall|j: int|
                old(acked)@.len() <= j < final(acked)@.len() ==> old(self).pending_receipts().contains_key(#[trigger] final(acked)@[j]) && !final(self).pending_receipts().contains_key(final(acked)@[j]),
            final(self).pending_receipts().dom().subset_of(old(self).pending_receipts().dom()),
            !(final(self).window_marks().contains_key(final(self).window_start()) && final(self).window_marks()[final(self).window_start()]),
            exists|k: nat|
                final(self).window_start() == seq_plus(old(self).window_start(), k as int)
                    && final(self).window_end() == seq_plus(old(self).window_end(), k as int),
            final(self).max_payload() == old(self).max_payload(),
            final(self).mtu() == old(self).mtu(),
            final(self).queue() == old(self).queue(),
            final(self).resend_queue() == old(self).resend_queue(),
            final(self).next_seq() == old(self).next_seq(),
            final(self).next_message_index() == old(self).next_message_index(),
            final(self).last_split_id() == old(self).last_split_id(),
            final(self).ordered_indices() == old(self).ordered_indices(),
            final(self).sequenced_indices() == old(self).sequenced_indices(),
            final(self).backlog() == old(self).backlog(),
            ({
                let settled_all = settle_all(
                    old(self).pending_receipts(),
                    acked_indices(
                        take_cached(old(self).cache(), ack.0.packets@).0,
                        old(self).window_start(),
                        old(self).window_end(),
                    ),
                );
                &&& final(acked)@ == old(acked)@ + settled_all.1
                &&& final(self).pending_receipts() == settled_all.0
            }),
    {
        let seqs = &ack.0.packets;
        let ghost p0 = old(self).pending_receipts();
        let ghost c0 = old(self).cache();
        let ghost ws = old(self).window_start();
        let ghost we = old(self).window_end();
        let ghost a0 = acked@;
        let mut i: usize = 0;
        while i < seqs.len()
            invariant
                self.wf(),
                i <= seqs@.len(),
                self.cache() == take_cached(old(self).cache(), seqs@.take(i as int)).1,
                acked@.len() >= a0.len(),
                acked@.take(a0.len() as int) == a0,
                a0 == old(acked)@,
                forall|j: int|
                    a0.len() <= j < acked@.len() ==> old(self).pending_receipts().contains_key(
                        #[trigger] acked@[j],
                    ) && !self.pending_receipts().contains_key(acked@[j]),
                self.pending_receipts().dom().subset_of(old(self).pending_receipts().dom()),
                self.window_start() == old(self).window_start(),
                self.window_end() == old(self).window_end(),
                self.max_payload() == old(self).max_payload(),
                self.mtu() == old(self).mtu(),
                self.queue() == old(self).queue(),
                self.resend_queue() == old(self).resend_queue(),
                self.next_seq() == old(self).next_seq(),
                self.next_message_index() == old(self).next_message_index(),
                self.last_split_id() == old(self).last_split_id(),
                self.ordered_indices() == old(self).ordered_indices(),
                self.sequenced_indices() == old(self).sequenced_indices(),
                self.backlog() == old(self).backlog(),
                acked@ == a0 + settle_all(p0, acked_indices(take_cached(c0, seqs@.take(i as int)).0, ws, we)).1,
                self.pending_receipts() == settle_all(
                    p0,
                    acked_indices(take_cached(c0, seqs@.take(i as int)).0, ws, we),
                ).0,
                p0 == old(self).pending_receipts(),
                c0 == old(self).cache(),
                ws == old(self).window_start(),
                we == old(self).window_end(),
            decreases seqs@.len() - i,
        {
            let seq = seqs[i];
            proof {
                assert(seqs@.take(i + 1).drop_last() =~= seqs@.take(i as int));
            }
            let ghost cur = self.cache();
            let ghost ms0 = acked_indices(take_cached(c0, seqs@.take(i as int)).0, ws, we);
            match self.take_cache_entry(seq) {
                Some(entry) => {
                    let packets = entry.packets();
                    proof {
                        lemma_reliable_only_all(packets_view(packets@));
                        assert(take_cached(c0, seqs@.take(i + 1)).0 == take_cached(c0, seqs@.take(i as int)).0
                            + packets_view(packets@));
                        lemma_acked_indices_append(
                            take_cached(c0, seqs@.take(i as int)).0,
                            packets_view(packets@),
                            ws,
                            we,
                        );
                        assert(packets_view(packets@).take(0) =~= Seq::<EncapsulatedView>::empty());
                        assert(ms0 + acked_indices(packets_view(packets@).take(0), ws, we) =~= ms0);
                    }
                    let mut j: usize = 0;
                    while j < packets.len()
                        invariant
                            self.wf(),
                            j <= packets@.len(),
                            packets@ == entry.spec_packets(),
                            acked@ == a0 + settle_all(p0, ms0 + acked_indices(packets_view(packets@).take(j as int), ws, we)).1,
                            self.pending_receipts() == settle_all(
                                p0,
                                ms0 + acked_indices(packets_view(packets@).take(j as int), ws, we),
                            ).0,
                            ws == old(self).window_start(),
                            we == old(self).window_end(),
                            p0 == old(self).pending_receipts(),
                            c0 == old(self).cache(),
                            self.cache() == take_cached(old(self).cache(), seqs@.take(i + 1)).1,
                            acked@.len() >= a0.len(),
                            acked@.take(a0.len() as int) == a0,
                            forall|q: int|
                                a0.len() <= q < acked@.len() ==> old(self).pending_receipts().contains_key(#[trigger] acked@[q])
                                    && !self.pending_receipts().contains_key(acked@[q]),
                            self.pending_receipts().dom().subset_of(
                                old(self).pending_receipts().dom(),
                            ),
                            self.window_start() == old(self).window_start(),
                            self.window_end() == old(self).window_end(),
                            self.max_payload() == old(self).max_payload(),
                            self.mtu() == old(self).mtu(),
                            self.queue() == old(self).queue(),
                            self.resend_queue() == old(self).resend_queue(),
                            self.next_seq() == old(self).next_seq(),
                            self.next_message_index() == old(self).next_message_index(),
                            self.last_split_id() == old(self).last_split_id(),
                            self.ordered_indices() == old(self).ordered_indices(),
                            self.sequenced_indices() == old(self).sequenced_indices(),
                            self.backlog() == old(self).backlog(),
                        decreases packets@.len() - j,
                    {
                        let ghost ms = ms0 + acked_indices(packets_view(packets@).take(j as int), ws, we);
                        proof {
                            assert(packets_view(packets@).take(j + 1).drop_last() =~= packets_view(
                                packets@,
                            ).take(j as int));
                            assert(packets_view(packets@).take(j + 1).last() == packets@[j as int]@);
                        }
                        match packets[j].message_index {
                            Some(msg_idx) => {
                                let window_start = self.reliable_window_start;
                                let window_end = self.reliable_window_end;
                                let is_relevant = if window_end >= window_start {
                                    msg_idx >= window_start
                                } else {
                                    msg_idx >= window_start || msg_idx < window_end
                                };
                                if is_relevant {
                                    let ghost pb = self.pending_receipts();
                                    self.reliable_window.insert(msg_idx, true);
                                    assert(self.pending_receipts() == pb);
                                    let ghost ab = acked@;
                                    self.settle_receipts(msg_idx, acked);
                                    proof {
                                        assert(acked@.take(a0.len() as int) =~= ab.take(
                                            a0.len() as int,
                                        ));
                                        let ms1 = ms0 + acked_indices(packets_view(packets@).take(j + 1), ws, we);
                                        let pv = packets_view(packets@);
                                        assert(pv.take(j + 1).last().message_index == Some(msg_idx));
                                        assert(acked_indices(pv.take(j + 1), ws, we) == acked_indices(pv.take(j as int), ws, we).push(msg_idx));
                                        assert(ms1 =~= ms.push(msg_idx));
                                        assert(ms1.drop_last() =~= ms);
                                        if exists|d: u32| first_completed(pb, d, msg_idx) {
                                            let d = choose|d: u32| first_completed(pb, d, msg_idx);
                                            assert(acked@ =~= a0 + settle_all(p0, ms1).1);
                                        } else {
                                            assert forall|k: u32| !completes(pb, k, msg_idx) by {
                                                if completes(pb, k, msg_idx) {
                                                    lemma_first_completed(pb, k, msg_idx);
                                                }
                                            }
                                            assert(acked@ =~= a0 + settle_all(p0, ms1).1);
                                        }
                                    }
                                } else {
                                    proof {
                                        let ms1 = ms0 + acked_indices(packets_view(packets@).take(j + 1), ws, we);
                                        let pv = packets_view(packets@);
                                        assert(pv.take(j + 1).last().message_index == Some(msg_idx));
                                        assert(acked_indices(pv.take(j + 1), ws, we) == acked_indices(pv.take(j as int), ws, we));
                                        assert(ms1 =~= ms);
                                    }
                                }
                            },
                            None => {
                                proof {
                                    let ms1 = ms0 + acked_indices(packets_view(packets@).take(j + 1), ws, we);
                                    assert(ms1 =~= ms);
                                }
                            },
                        }
                        j = j + 1;
                    }
                    proof {
                        assert(packets_view(packets@).take(packets@.len() as int) =~= packets_view(packets@));
                    }
                },
                None => {
                    proof {
                        assert(take_cached(c0, seqs@.take(i + 1)).0 == take_cached(c0, seqs@.take(i as int)).0);
                    }
                },
            }
            i = i + 1;
        }
        proof {
            assert(seqs@.take(seqs@.len() as int) =~= seqs@);
        }
        self.update_reliable_window();
    }

    /// Sends the parts of a split packet, one datagram each, in order: part `i` carries
    /// piece `i`, and a reliable part takes the next message index.
    #[verifier::spinoff_prover]
    #[verifier::rlimit(100)]
    fn send_parts(
        &mut self,
        packet: &EncapsulatedPacket,
        pieces: &Vec<Vec<u8>>,
        max_split_payload_size: usize,
        now: u64,
        sent: &mut Vec<Datagram>,
    )
        requires
            old(self).wf(),
            pieces@.len() <= 0x10000,
            max_split_payload_size <= old(self).max_payload(),
            forall|i: int|
                0 <= i < pieces@.len() ==> (#[trigger] pieces@[i])@.len() <= max_split_payload_size,
            packet.identifier_ack matches Some(id) ==> old(self).pending_receipts().contains_key(id),
        ensures
            final(self).wf(),
            final(self).max_payload() == old(self).max_payload(),
            final(self).mtu() == old(self).mtu(),
            final(self).resend_queue() == old(self).resend_queue(),
            final(self).ordered_indices() == old(self).ordered_indices(),
            final(self).sequenced_indices() == old(self).sequenced_indices(),
            final(self).window_start() == old(self).window_start(),
            final(self).window_end() == old(self).window_end(),
            final(self).last_split_id() == old(self).last_split_id(),
            final(sent)@.len() >= old(sent)@.len(),
            final(sent)@.take(old(sent)@.len() as int) == old(sent)@,
            sent_since(final(sent)@, old(sent)@.len() as int, old(self).next_seq(), old(self).max_payload()),
            final(self).next_seq() == seq_plus(
                old(self).next_seq(),
                final(sent)@.len() - old(sent)@.len(),
            ),
            packet.identifier_ack matches Some(id) ==> final(self).pending_receipts().contains_key(id),
            final(self).next_message_index() == if spec_is_reliable(packet.reliability) {
                seq_plus(old(self).next_message_index(), pieces@.len() as int)
            } else {
                old(self).next_message_index()
            },
            sent_each_at_once(
                old(self).queue(),
                final(sent)@.skip(old(sent)@.len() as int),
                final(self).queue(),
                routed(
                    split_parts(
                        packet@,
                        pieces@,
                        old(self).last_split_id(),
                        old(self).next_message_index(),
                    ),
                    old(self).window_start(),
                    old(self).window_end(),
                ),
            ),
    {
        let ghost seq0 = self.send_seq_number;
        let ghost n0 = sent@.len();
        let ghost ord1 = self.ordered_indices();
        let ghost seqd1 = self.sequenced_indices();
        let ghost m0 = self.message_index;
        let ghost split_after = self.split_id;
        let ghost q = packet@;
        let ghost parts = split_parts(q, pieces@, split_after, m0);
        let ghost ws = self.reliable_window_start;
        let ghost we = self.reliable_window_end;
        proof {
            assert(seq_plus(m0, 0) == m0);
            assert(sent@ == old(sent)@);
            lemma_packets_sent_none(sent@);
            assert(routed(parts.take(0), ws, we) =~= Seq::<EncapsulatedView>::empty());
            assert(packets_sent(sent@.skip(n0 as int)) + self.queue() =~= old(self).queue()
                + routed(parts.take(0), ws, we));
            assert(sent@.skip(n0 as int) =~= Seq::<Datagram>::empty());
        }
        let mut part: usize = 0;
        while part < pieces.len()
            invariant
                q == packet@,
                parts == split_parts(q, pieces@, split_after, m0),
                ws == self.window_start(),
                we == self.window_end(),
                ws == old(self).window_start(),
                we == old(self).window_end(),
                sent_each_at_once(
                    old(self).queue(),
                    sent@.skip(n0 as int),
                    self.queue(),
                    routed(parts.take(part as int), ws, we),
                ),
                self.wf(),
                part <= pieces@.len(),
                pieces@.len() <= 0x10000,
                forall|i: int|
                    0 <= i < pieces@.len() ==> (#[trigger] pieces@[i])@.len() <= self.max_payload(),
                self.max_payload() == old(self).max_payload(),
                self.mtu() == old(self).mtu(),
                self.resend_queue() == old(self).resend_queue(),
                self.ordered_indices() == ord1,
                self.sequenced_indices() == seqd1,
                seq0 < 0x1000000,
                sent@.len() >= n0,
                sent@.take(n0 as int) == old(sent)@,
                n0 == old(sent)@.len(),
                seq0 == old(self).next_seq(),
                sent_since(sent@, n0 as int, seq0, self.max_payload()),
                self.next_seq() == seq_plus(seq0, sent@.len() - n0),
                packet.identifier_ack matches Some(id) ==> self.pending_receipts().contains_key(
                    id,
                ),
                m0 < 0x1000000,
                self.next_message_index() == if is_reliable(packet.reliability) {
                    seq_plus(m0, part as int)
                } else {
                    m0
                },
                self.last_split_id() == split_after,
            decreases pieces@.len() - part,
        {
            let m = self.message_index;
            let pk = make_part(packet, &pieces[part], self.split_id, part, pieces.len(), m, Ghost(m0));
            if is_reliable(packet.reliability) {
                self.message_index = next_index(self.message_index);
                proof {
                    lemma_seq_plus_next(m0, part as int);
                }
            }
            let ghost sb = sent@;
            let ghost qb = self.queue();
            proof {
                assert(pk@ == parts[part as int]);
            }
            self.add_to_send_queue_internal(pk, true, now, sent);
            proof {
                lemma_sent_chain(sb, sent@, n0 as int, seq0, self.max_payload());
                assert(sent@.take(n0 as int) =~= sb.take(n0 as int));
                lemma_each_step(
                    sb,
                    sent@,
                    n0 as int,
                    qb,
                    self.queue(),
                    old(self).queue(),
                    parts,
                    part as int,
                    ws,
                    we,
                );
            }
            part = part + 1;
        }
        proof {
            assert(parts.take(pieces@.len() as int) =~= parts);
        }
    }

    /// Records that receipt `ack_id` waits for message index `m`.
    fn note_receipt(&mut self, ack_id: u32, m: u32)
        requires
            old(self).wf(),
        ensures
            final(self).wf(),
            final(self).pending_receipts() == old(self).pending_receipts().insert(
                ack_id,
                (if old(self).pending_receipts().contains_key(ack_id) {
                    old(self).pending_receipts()[ack_id]
                } else {
                    Set::empty()
                }).insert(m),
            ),
            final(self).max_payload() == old(self).max_payload(),
            final(self).mtu() == old(self).mtu(),
            final(self).queue() == old(self).queue(),
            final(self).resend_queue() == old(self).resend_queue(),
            final(self).next_seq() == old(self).next_seq(),
            final(self).next_message_index() == old(self).next_message_index(),
            final(self).last_split_id() == old(self).last_split_id(),
            final(self).ordered_indices() == old(self).ordered_indices(),
            final(self).sequenced_indices() == old(self).sequenced_indices(),
            final(self).window_start() == old(self).window_start(),
            final(self).window_end() == old(self).window_end(),
            final(self).window_marks() == old(self).window_marks(),
            final(self).backlog() == old(self).backlog(),
            final(self).cache() == old(self).cache(),
            final(self).cache_times() == old(self).cache_times(),
    {
        let mut set = match self.need_ack.remove(ack_id) {
            Some(set) => set,
            None => SeqSet::new(),
        };
        set.insert(m);
        self.need_ack.insert(ack_id, set);
        proof {
            assert(self.pending_receipts() =~= old(self).pending_receipts().insert(
                ack_id,
                (if old(self).pending_receipts().contains_key(ack_id) {
                    old(self).pending_receipts()[ack_id]
                } else {
                    Set::empty()
                }).insert(m),
            ));
        }
    }

    /// Queues a numbered packet: a reliable packet behind the window is dropped and one
    /// beyond it waits in the backlog; the others are bundled, the queue being sent first
    /// when the packet would not fit, and the datagram being sent at once when `immediate`
    /// or when the packet fills it.
    #[verifier::spinoff_prover]
    #[verifier::rlimit(40)]
    fn add_to_send_queue_internal(
        &mut self,
        packet: EncapsulatedPacket,
        immediate: bool,
        now: u64,
        sent: &mut Vec<Datagram>,
    )
        requires
            old(self).wf(),
            indexed(packet@),
            packet.buffer@.len() <= old(self).max_payload(),
        ensures
            final(self).wf(),
            final(self).max_payload() == old(self).max_payload(),
            final(self).mtu() == old(self).mtu(),
            final(self).resend_queue() == old(self).resend_queue(),
            final(self).next_message_index() == old(self).next_message_index(),
            final(self).last_split_id() == old(self).last_split_id(),
            final(self).ordered_indices() == old(self).ordered_indices(),
            final(self).sequenced_indices() == old(self).sequenced_indices(),
            final(self).window_start() == old(self).window_start(),
            final(self).window_end() == old(self).window_end(),
            final(sent)@.len() >= old(sent)@.len(),
            final(sent)@.take(old(sent)@.len() as int) == old(sent)@,
            sent_since(final(sent)@, old(sent)@.len() as int, old(self).next_seq(), old(self).max_payload()),
            final(self).next_seq() == seq_plus(
                old(self).next_seq(),
                final(sent)@.len() - old(sent)@.len(),
            ),
            ({
                let m = packet.message_index->0;
                let rel = spec_is_reliable(packet.reliability);
                let (s, e) = (old(self).window_start(), old(self).window_end());
                if rel && behind(s, e, m) {
                    *final(self) == *old(self) && final(sent)@ == old(sent)@
                } else if rel && ahead(s, e, m) {
                    &&& final(self).backlog() == old(self).backlog().insert(m, packet@)
                    &&& final(self).queue() == old(self).queue()
                    &&& final(sent)@ == old(sent)@
                    &&& final(self).window_marks() == old(self).window_marks()
                    &&& final(self).pending_receipts() == old(self).pending_receipts()
                } else {
                    &&& final(self).backlog() == old(self).backlog()
                    &&& final(self).window_marks() == if rel
                        && !old(self).window_marks().contains_key(m) {
                        old(self).window_marks().insert(m, false)
                    } else {
                        old(self).window_marks()
                    }
                    &&& final(self).pending_receipts() == if rel && packet.identifier_ack is Some {
                        old(self).pending_receipts().insert(
                            packet.identifier_ack->0,
                            (if old(self).pending_receipts().contains_key(
                                packet.identifier_ack->0,
                            ) {
                                old(self).pending_receipts()[packet.identifier_ack->0]
                            } else {
                                Set::empty()
                            }).insert(m),
                        )
                    } else {
                        old(self).pending_receipts()
                    }
                    &&& (final(self).queue().len() > 0 && final(self).queue().last()
                        == without_receipt(packet@)) || (final(self).queue().len() == 0
                        && final(sent)@.len() > old(sent)@.len() && final(sent)@.last()@.packets.last()
                        == without_receipt(packet@))
                    &&& packets_sent(final(sent)@.skip(old(sent)@.len() as int)) + final(self).queue()
                        == old(self).queue().push(without_receipt(packet@))
                    &&& immediate ==> sent_at_once(
                        old(self).queue(),
                        old(sent)@,
                        final(sent)@,
                        final(self).queue(),
                        without_receipt(packet@),
                    )
                }
            }),
    {
        let rel = is_reliable(packet.reliability);
        if rel {
            let msg_idx = match packet.message_index {
                Some(i) => i,
                None => {
                    return ;
                },
            };
            let window_start = self.reliable_window_start;
            let window_end = self.reliable_window_end;
            let is_behind = if window_end >= window_start {
                msg_idx < window_start
            } else {
                msg_idx < window_start && msg_idx >= window_end
            };
            if is_behind {
                proof {
                    assert(sent@.take(old(sent)@.len() as int) =~= old(sent)@);
                }
                return ;
            }
            let is_ahead = if window_end >= window_start {
                msg_idx >= window_end
            } else {
                msg_idx >= window_end && msg_idx < window_start
            };
            if is_ahead {
                self.reliable_backlog.insert(msg_idx, packet);
                proof {
                    assert(sent@.take(old(sent)@.len() as int) =~= old(sent)@);
                    assert(self.backlog() =~= old(self).backlog().insert(msg_idx, packet@));
                }
                return ;
            }
            if !self.reliable_window.contains_key(msg_idx) {
                self.reliable_window.insert(msg_idx, false);
            }
            match packet.identifier_ack {
                Some(ack_id) => {
                    self.note_receipt(ack_id, msg_idx);
                },
                None => {},
            }
        }
        let ghost mid = *self;
        let ghost seq0 = self.send_seq_number;
        let ghost n_start = old(sent)@.len() as int;
        proof {
            lemma_packets_sent_none(sent@);
            assert(sent@ == old(sent)@);
            assert(packets_sent(sent@.skip(n_start)) + self.queue() =~= mid.queue());
        }
        let len = packet.total_length();
        let mut flushed_before = false;
        if self.send_queue.len() > 0 && len > self.max_datagram_payload_size - self.send_queue_size {
            let ghost sb = sent@;
            let ghost qb = self.queue();
            self.flush_send_queue(now, sent);
            proof {
                assert(sent@ == sb.push(sent@.last()));
                lemma_packets_sent_push(sb, n_start, sent@.last());
                assert(packets_sent(sent@.skip(n_start)) + self.queue() =~= mid.queue());
            }
            flushed_before = true;
        }
        let ghost sent_mid = sent@;
        let ghost q0 = self.queue();
        let queued = if packet.identifier_ack.is_some() {
            let mut cached = packet.clone_packet();
            cached.identifier_ack = None;
            cached
        } else {
            packet
        };
        assert(queued@ == without_receipt(packet@));
        self.send_queue.push(queued);
        self.send_queue_size = self.send_queue_size + len;
        proof {
            assert(self.queue() =~= q0.push(queued@));
            assert(self.queue().drop_last() =~= q0);
            assert(packets_sent(sent@.skip(n_start)) + self.queue() =~= mid.queue().push(
                without_receipt(packet@),
            ));
        }
        if immediate || len >= self.max_datagram_payload_size || self.send_queue_size
            > self.max_datagram_payload_size {
            let ghost q1 = self.queue();
            let ghost sb = sent@;
            self.flush_send_queue(now, sent);
            proof {
                assert(sent@.last()@.packets == q1);
                assert(sent@ == sb.push(sent@.last()));
                lemma_packets_sent_push(sb, n_start, sent@.last());
                assert(packets_sent(sent@.skip(n_start)) + self.queue() =~= mid.queue().push(
                    without_receipt(packet@),
                ));
                if flushed_before {
                    assert(q1 =~= seq![without_receipt(packet@)]);
                } else {
                    assert(q1 =~= mid.queue().push(without_receipt(packet@)));
                }
            }
        }
        proof {
            assert(sent@.take(old(sent)@.len() as int) =~= old(sent)@);
        }
    }

    /// Bundles the waiting packets into the next datagram and sends it; the reliable ones
    /// are kept, with the time, until the datagram is acknowledged.
    fn flush_send_queue(&mut self, now: u64, sent: &mut Vec<Datagram>)
        requires
            old(self).wf_base(),
            old(self).queue().len() == 0 ==> old(self).wf(),
        ensures
            final(self).wf(),
            old(self).queue().len() == 0 ==> *final(self) == *old(self) && final(sent)@ == old(
                sent,
            )@,
            old(self).queue().len() > 0 ==> {
                &&& final(sent)@.len() == old(sent)@.len() + 1
                &&& final(sent)@.take(old(sent)@.len() as int) == old(sent)@
                &&& final(sent)@.last().header_flags == 0
                &&& final(sent)@.last().seq_number == old(self).next_seq()
                &&& final(sent)@.last()@.packets == old(self).queue()
                &&& final(self).next_seq() == next24(old(self).next_seq())
                &&& final(self).queue().len() == 0
                &&& final(self).cache() == if reliable_only(old(self).queue()).len() > 0 {
                    old(self).cache().insert(old(self).next_seq(), reliable_only(old(self).queue()))
                } else {
                    old(self).cache()
                }
            },
            final(self).max_payload() == old(self).max_payload(),
            final(self).mtu() == old(self).mtu(),
            final(self).resend_queue() == old(self).resend_queue(),
            final(self).next_message_index() == old(self).next_message_index(),
            final(self).last_split_id() == old(self).last_split_id(),
            final(self).ordered_indices() == old(self).ordered_indices(),
            final(self).sequenced_indices() == old(self).sequenced_indices(),
            final(self).window_start() == old(self).window_start(),
            final(self).window_end() == old(self).window_end(),
            final(self).window_marks() == old(self).window_marks(),
            final(self).backlog() == old(self).backlog(),
            final(self).pending_receipts() == old(self).pending_receipts(),
    {
        if self.send_queue.len() == 0 {
            return ;
        }
        let mut packets: Vec<EncapsulatedPacket> = Vec::new();
        std::mem::swap(&mut packets, &mut self.send_queue);
        self.send_queue_size = 0;
        let seq = self.send_seq_number;
        self.send_seq_number = next_index(seq);
        let ghost max = self.max_datagram_payload_size as nat;
        let mut reliable: Vec<EncapsulatedPacket> = Vec::new();
        let mut i: usize = 0;
        while i < packets.len()
            invariant
                i <= packets@.len(),
                packets_view(reliable@) == reliable_only(packets_view(packets@).take(i as int)),
                forall|j: int| 0 <= j < i ==> (#[trigger] packets@[j])@ == packets_view(packets@)[j],
                forall|j: int|
                    0 <= j < reliable@.len() ==> reliable_indexed((#[trigger] reliable@[j])@)
                        && reliable@[j].buffer@.len() <= max,
                forall|j: int| 0 <= j < packets@.len() ==> (#[trigger] packets@[j]).buffer@.len() <= max,
                forall|j: int|
                    0 <= j < packets@.len() ==> indexed((#[trigger] packets@[j])@),
            decreases packets@.len() - i,
        {
            proof {
                assert(packets_view(packets@).take(i + 1).drop_last() =~= packets_view(
                    packets@,
                ).take(i as int));
            }
            if is_reliable(packets[i].reliability) {
                let copy = packets[i].clone_packet();
                reliable.push(copy);
                proof {
                    assert(packets_view(reliable@) =~= reliable_only(
                        packets_view(packets@).take(i as int),
                    ).push(copy@));
                }
            }
            i = i + 1;
        }
        proof {
            assert(packets_view(packets@).take(packets@.len() as int) =~= packets_view(packets@));
        }
        if reliable.len() > 0 {
            self.reliable_cache.insert(seq, ReliableCacheEntry::new(reliable, now));
        }
        sent.push(Datagram { header_flags: 0, seq_number: seq, packets });
        proof {
            assert(sent@.take(old(sent)@.len() as int) =~= old(sent)@);
            assert(self.queue() =~= Seq::<EncapsulatedView>::empty());
            assert(self.cache() =~= if reliable_only(old(self).queue()).len() > 0 {
                old(self).cache().insert(old(self).next_seq(), reliable_only(old(self).queue()))
            } else {
                old(self).cache()
            });
        }
    }
}

/// Taking the datagrams `seqs` from the cache leaves exactly the others.
proof fn lemma_take_cached_keys(c: Map<u32, Seq<EncapsulatedView>>, seqs: Seq<u32>)
    ensures
        take_cached(c, seqs).1 == c.remove_keys(seqs.to_set()),
    decreases seqs.len(),
{
    if seqs.len() == 0 {
        assert(c.remove_keys(seqs.to_set()) =~= c);
    } else {
        let dl = seqs.drop_last();
        let s = seqs.last();
        lemma_take_cached_keys(c, dl);
        assert(seqs =~= dl.push(s));
        assert forall|x: u32| seqs.to_set().contains(x) <==> dl.to_set().contains(x) || x == s by {
            if dl.contains(x) {
                let j = choose|j: int| 0 <= j < dl.len() && dl[j] == x;
                assert(seqs[j] == x);
            }
            if seqs.contains(x) && x != s {
                let j = choose|j: int| 0 <= j < seqs.len() && seqs[j] == x;
                assert(j < dl.len());
                assert(dl[j] == x);
            }
            if x == s {
                assert(seqs[seqs.len() - 1] == x);
            }
        }
        assert(take_cached(c, seqs).1 =~= c.remove_keys(seqs.to_set()));
    }
}

/// Taking datagrams none of which is cached takes nothing.
proof fn lemma_take_cached_none(c: Map<u32, Seq<EncapsulatedView>>, seqs: Seq<u32>)
    requires
        forall|i: int| 0 <= i < seqs.len() ==> !c.contains_key(#[trigger] seqs[i]),
    ensures
        take_cached(c, seqs) == (Seq::<EncapsulatedView>::empty(), c),
    decreases seqs.len(),
{
    if seqs.len() > 0 {
        lemma_take_cached_none(c, seqs.drop_last());
        assert(!c.contains_key(seqs[seqs.len() - 1]));
    }
}

/// Taking datagrams one of which is cached with a reliable packet takes some packet.
proof fn lemma_take_cached_some(c: Map<u32, Seq<EncapsulatedView>>, seqs: Seq<u32>, i: int)
    requires
        0 <= i < seqs.len(),
        c.contains_key(seqs[i]),
        reliable_only(c[seqs[i]]).len() > 0,
    ensures
        take_cached(c, seqs).0.len() > 0,
    decreases seqs.len(),
{
    let dl = seqs.drop_last();
    let s = seqs.last();
    if i < seqs.len() - 1 {
        assert(dl[i] == seqs[i]);
        lemma_take_cached_some(c, dl, i);
    } else if dl.contains(s) {
        let j = choose|j: int| 0 <= j < dl.len() && dl[j] == s;
        lemma_take_cached_some(c, dl, j);
    } else {
        lemma_take_cached_keys(c, dl);
        assert(!dl.to_set().contains(s));
        assert(take_cached(c, dl).1.contains_key(s));
        assert(take_cached(c, dl).1[s] == c[s]);
    }
}

/// What a NACK does to the datagrams awaiting acknowledgement: each one it names leaves
/// the cache, once, and the others stay, so the same NACK again changes nothing; and when
/// it names one that carried packets, something waits for resending, so the layer needs
/// an update.
pub proof fn law_nack_resends_once(l: SendReliabilityLayer, seqs: Seq<u32>)
    requires
        l.wf(),
    ensures
        take_cached(l.cache(), seqs).1 == l.cache().remove_keys(seqs.to_set()),
        take_cached(take_cached(l.cache(), seqs).1, seqs) == (
            Seq::<EncapsulatedView>::empty(),
            take_cached(l.cache(), seqs).1,
        ),
        (exists|i: int|
            0 <= i < seqs.len() && l.cache().contains_key(#[trigger] seqs[i]) && l.cache()[seqs[i]].len()
                > 0) ==> take_cached(l.cache(), seqs).0.len() > 0,
{
    let c = l.cache();
    lemma_take_cached_keys(c, seqs);
    let rest = take_cached(c, seqs).1;
    assert forall|i: int| 0 <= i < seqs.len() implies !rest.contains_key(#[trigger] seqs[i]) by {
        assert(seqs.to_set().contains(seqs[i]));
    }
    lemma_take_cached_none(rest, seqs);
    if exists|i: int|
        0 <= i < seqs.len() && c.contains_key(#[trigger] seqs[i]) && c[seqs[i]].len() > 0 {
        let i = choose|i: int|
            0 <= i < seqs.len() && c.contains_key(#[trigger] seqs[i]) && c[seqs[i]].len() > 0;
        let k = seqs[i];
        let e = l.reliable_cache.as_map()[k];
        assert(c[k] == packets_view(e.spec_packets()));
        assert forall|j: int| 0 <= j < c[k].len() implies spec_is_reliable(#[trigger] c[k][j].reliability) by {
            assert(c[k][j] == e.spec_packets()[j]@);
            assert(reliable_indexed(e.spec_packets()[j]@));
        }
        lemma_reliable_only_all(c[k]);
        lemma_take_cached_some(c, seqs, i);
    }
}

} // verus!
