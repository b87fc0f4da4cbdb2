//! A connection with a peer: its state, its two reliability layers, the pings that measure
//! it, and what it tells its owner.
use vstd::prelude::*;
use crate::binary::{be_u16, u64_be, BinaryStream};
use crate::raklib::address::InternetAddress;
use crate::raklib::protocol::ack::{parse_records, ACK, NACK};
use crate::raklib::protocol::consts::{
    ID_ACK,
    ID_CONNECTED_PING,
    ID_CONNECTED_PONG,
    ID_CONNECTION_REQUEST,
    ID_CONNECTION_REQUEST_ACCEPTED,
    ID_DISCONNECTION_NOTIFICATION,
    ID_NACK,
    ID_NEW_INCOMING_CONNECTION,
    ID_USER_PACKET_ENUM,
    RELIABLE_ORDERED,
    UNRELIABLE,
    is_reliable,
    spec_is_reliable,
};
use crate::raklib::protocol::frame::{parse_datagram, Datagram, EncapsulatedPacket, EncapsulatedView};
use crate::raklib::protocol::packets::{
    parse_connected_ping,
    parse_connected_pong,
    ConnectedPing,
    ConnectedPong,
    DisconnectionNotification,
};
use crate::raklib::reliability::{
    acks_reported,
    AcknowledgePacketWrapper,
    ReceiveReliabilityLayer,
    ReceiveWindow,
    SplitPacketError,
};
use crate::raklib::reliability::send::{queued_as, updated, SendReliabilityLayer};
use crate::raklib::session::SessionState;

verus! {

/// Why a connection closed.
#[derive(Debug, Clone, Copy, PartialEq, Eq, Structural)]
pub enum DisconnectReason {
    ClientDisconnect,
    ServerDisconnect,
    PeerTimeout,
    ClientReconnect,
    ServerShutdown,
    SplitPacketTooLarge,
    SplitPacketTooManyConcurrent,
    SplitPacketInvalidPartIndex,
    SplitPacketInconsistentHeader,
}

impl DisconnectReason {
    /// The reason a refused split packet closes a connection with.
    pub fn from_split_error(e: SplitPacketError) -> (r: Self)
        ensures
            r == match e {
                SplitPacketError::TooLarge { .. } => DisconnectReason::SplitPacketTooLarge,
                SplitPacketError::InvalidPartIndex { .. } => DisconnectReason::SplitPacketInvalidPartIndex,
                SplitPacketError::TooManyConcurrent { .. } => DisconnectReason::SplitPacketTooManyConcurrent,
                SplitPacketError::InconsistentHeader { .. } => DisconnectReason::SplitPacketInconsistentHeader,
            },
    {
        match e {
            SplitPacketError::TooLarge { .. } => DisconnectReason::SplitPacketTooLarge,
            SplitPacketError::InvalidPartIndex { .. } => DisconnectReason::SplitPacketInvalidPartIndex,
            SplitPacketError::TooManyConcurrent { .. } => DisconnectReason::SplitPacketTooManyConcurrent,
            SplitPacketError::InconsistentHeader { .. } => DisconnectReason::SplitPacketInconsistentHeader,
        }
    }
}

/// What a connection tells its owner.
#[derive(Debug, Clone, Copy, PartialEq, Eq, Structural)]
pub enum SessionEvent {
    /// A packet queued with this receipt id was acknowledged whole.
    PacketAcked(u32),
    /// The connection closed.
    Disconnected(DisconnectReason),
    /// A ping came back after this many milliseconds.
    PingMeasured(u32),
}

/// Why a packet could not be queued.
#[derive(Debug, Clone, Copy, PartialEq, Eq, Structural)]
pub enum SessionError {
    /// The connection is not (yet, or any more) connected.
    NotConnected,
    /// A receipt was asked for a packet sent unreliably.
    ReceiptForUnreliable,
}

/// What a connection hands out: datagrams and acknowledgements to send, and events.
#[derive(Debug)]
pub struct SessionOutput {
    pub datagrams: Vec<Datagram>,
    pub acknowledgements: Vec<AcknowledgePacketWrapper>,
    pub events: Vec<SessionEvent>,
}

impl SessionOutput {
    pub fn new() -> (r: Self)
        ensures
            r.datagrams@.len() == 0,
            r.acknowledgements@.len() == 0,
            r.events@.len() == 0,
    {
        SessionOutput { datagrams: Vec::new(), acknowledgements: Vec::new(), events: Vec::new() }
    }
}

/// Whether a close that reports itself reports `reason`: the events gain it exactly when
/// the state change says so.
pub open spec fn reported(
    before: Seq<SessionEvent>,
    after: Seq<SessionEvent>,
    report: bool,
    reason: DisconnectReason,
) -> bool {
    if report {
        after == before.push(SessionEvent::Disconnected(reason))
    } else {
        after == before
    }
}

/// The numbers an ACK or NACK with id `id` carries, when the bytes are one.
pub open spec fn parse_acknowledgement(s: Seq<u8>, id: u8) -> Option<Seq<u32>> {
    if s.len() >= 3 && s[0] == id {
        match parse_records(s.skip(3), be_u16(s.skip(1)) as nat, Seq::empty()) {
            Ok((ps, _)) => Some(ps),
            Err(_) => None,
        }
    } else {
        None
    }
}

/// Whether the first byte lies where acknowledgements are looked for: from 0xa0 to 0xaf
/// for NACKs, from 0xc0 to 0xcf for ACKs.
pub open spec fn in_acknowledgement_range(s: Seq<u8>) -> bool {
    s.len() > 0 && ((0xa0 <= s[0] <= 0xaf) || (0xc0 <= s[0] <= 0xcf))
}

/// The bytes are taken as an ACK: they lie in the ACK range and decode as one.
pub open spec fn taken_as_ack(s: Seq<u8>) -> bool {
    in_acknowledgement_range(s) && s[0] >= 0xc0 && parse_acknowledgement(s, ID_ACK) is Some
}

/// The bytes are taken as a NACK: they lie in the NACK range and decode as one.
pub open spec fn taken_as_nack(s: Seq<u8>) -> bool {
    in_acknowledgement_range(s) && s[0] < 0xc0 && parse_acknowledgement(s, ID_NACK) is Some
}

/// The round trip of a ping sent at `sent_at` whose pong came at `now`, in milliseconds
/// (none when the clock went back).
pub open spec fn round_trip(sent_at: u64, now: u64) -> u32 {
    (if now > sent_at {
        now - sent_at
    } else {
        0
    }) as u32
}

/// A packet of the protocol's own with these bytes, sent with `reliability` on
/// `channel`.
pub open spec fn internal_packet(bytes: Seq<u8>, reliability: u8, channel: u8) -> EncapsulatedView {
    EncapsulatedView {
        reliability,
        message_index: None,
        sequence_index: None,
        order_index: None,
        order_channel: Some(channel),
        split_info: None,
        buffer: bytes,
        identifier_ack: None,
    }
}

/// The bytes of a ping carrying `time`.
pub open spec fn ping_bytes(time: u64) -> Seq<u8> {
    seq![ID_CONNECTED_PING] + u64_be(time)
}

/// The bytes of a pong answering a ping that carried `ping_time`, sent at `pong_time`.
pub open spec fn pong_bytes(ping_time: u64, pong_time: u64) -> Seq<u8> {
    seq![ID_CONNECTED_PONG] + u64_be(ping_time) + u64_be(pong_time)
}

/// The index of the first ping sent earliest among the first `n`.
pub open spec fn oldest_ping(s: Seq<(u64, u64)>, n: int) -> int
    decreases n,
{
    if n <= 1 {
        0
    } else {
        let j = oldest_ping(s, n - 1);
        if s[n - 1].1 < s[j].1 {
            n - 1
        } else {
            j
        }
    }
}

/// The pings remembered once a ping is sent at `now`: when as many as can be remembered
/// are waiting, the one sent earliest is forgotten.
pub open spec fn pings_after_ping(s: Seq<(u64, u64)>, now: u64) -> Seq<(u64, u64)> {
    (if s.len() >= MAX_PING_TRACKING {
        s.remove(oldest_ping(s, s.len() as int))
    } else {
        s
    }).push((now, now))
}

/// What a pong answering a ping that carried `time`, taken at `now`, does to the remembered
/// pings, the last measurement and the events: when no remembered ping carries that time,
/// nothing; otherwise the first that does is forgotten, and its round trip is measured and
/// reported.
pub open spec fn pong_measured(
    pings_before: Seq<(u64, u64)>,
    pings_after: Seq<(u64, u64)>,
    last_before: u32,
    last_after: u32,
    events_before: Seq<SessionEvent>,
    events_after: Seq<SessionEvent>,
    time: u64,
    now: u64,
) -> bool {
    &&& (forall|j: int| 0 <= j < pings_before.len() ==> (#[trigger] pings_before[j]).0 != time)
        ==> {
        &&& pings_after == pings_before
        &&& last_after == last_before
        &&& events_after == events_before
    }
    &&& forall|i: int|
        0 <= i < pings_before.len() && (#[trigger] pings_before[i]).0 == time && (forall|j: int|
            0 <= j < i ==> pings_before[j].0 != time) ==> {
            &&& pings_after == pings_before.remove(i)
            &&& last_after == round_trip(pings_before[i].1, now)
            &&& events_after == events_before.push(
                SessionEvent::PingMeasured(round_trip(pings_before[i].1, now)),
            )
        }
}

/// How a packet of the protocol's own is handed to the sending side: not at all once the
/// connection is closed.
pub open spec fn internal_sent(
    state: SessionState,
    before: SendReliabilityLayer,
    after: SendReliabilityLayer,
    p: EncapsulatedView,
    immediate: bool,
    sent_before: Seq<Datagram>,
    sent_after: Seq<Datagram>,
) -> bool {
    if state == SessionState::Disconnected {
        after == before && sent_after == sent_before
    } else {
        queued_as(before, after, p, immediate, sent_before, sent_after)
    }
}

/// The packet that tells the peer the connection is closing: its id alone, reliable and
/// ordered on channel 0.
pub open spec fn notification_packet() -> EncapsulatedView {
    internal_packet(seq![ID_DISCONNECTION_NOTIFICATION], RELIABLE_ORDERED, 0)
}

/// Whether a connected peer is due a ping at `now`: the connection is not timing out, and
/// at least the ping interval passed since the last ping.
pub open spec fn ping_due(state: SessionState, last_activity: u64, last_ping: u64, now: u64) -> bool {
    &&& state == SessionState::Connected
    &&& !elapsed_over(last_activity, now, TIMEOUT_MS)
    &&& now >= last_ping
    &&& now - last_ping >= PING_INTERVAL_MS
}

/// The steps the sending side takes in one tick, through layers `s1` and `s2` and
/// datagrams `d1` and `d2`: when `notify`, the closing notification is queued and sent at
/// once; when `proceeds`, the sending side does its periodic work; when `ping`, a ping
/// carrying `now` is queued and sent at once, unreliably.
pub open spec fn tick_steps(
    before: SendReliabilityLayer,
    s1: SendReliabilityLayer,
    s2: SendReliabilityLayer,
    after: SendReliabilityLayer,
    notify: bool,
    proceeds: bool,
    ping: bool,
    now: u64,
    sent_before: Seq<Datagram>,
    d1: Seq<Datagram>,
    d2: Seq<Datagram>,
    sent_after: Seq<Datagram>,
) -> bool {
    &&& if notify {
        queued_as(before, s1, notification_packet(), true, sent_before, d1)
    } else {
        s1 == before && d1 == sent_before
    }
    &&& if proceeds {
        updated(s1, s2, now, d1, d2)
    } else {
        s2 == s1 && d2 == d1
    }
    &&& if ping {
        queued_as(s2, after, internal_packet(ping_bytes(now), UNRELIABLE, 0), true, d2, sent_after)
    } else {
        after == s2 && sent_after == d2
    }
}

/// What one tick sends, from layer `before` to layer `after`: the steps of `tick_steps`,
/// through some layers and datagrams between.
pub open spec fn tick_sent(
    before: SendReliabilityLayer,
    after: SendReliabilityLayer,
    notify: bool,
    proceeds: bool,
    ping: bool,
    now: u64,
    sent_before: Seq<Datagram>,
    sent_after: Seq<Datagram>,
) -> bool {
    exists|s1: SendReliabilityLayer, s2: SendReliabilityLayer, d1: Seq<Datagram>, d2: Seq<Datagram>|
        #[trigger] tick_steps(
            before,
            s1,
            s2,
            after,
            notify,
            proceeds,
            ping,
            now,
            sent_before,
            d1,
            d2,
            sent_after,
        )
}

/// How long a connection may stay silent, in milliseconds.
pub const TIMEOUT_MS: u64 = 30000;

/// How long a graceful close may take, in milliseconds.
pub const DISCONNECT_TIMEOUT_MS: u64 = 5000;

/// How often a connected peer is pinged, in milliseconds.
pub const PING_INTERVAL_MS: u64 = 5000;

/// The most pings awaiting their pong.
pub const MAX_PING_TRACKING: usize = 10;

/// Whether more than `limit` milliseconds passed from `since` to `now`.
pub open spec fn elapsed_over(since: u64, now: u64, limit: u64) -> bool {
    now > since && now - since > limit
}

/// The state a connection moves to at time `now`: a connection that may carry packets
/// and was silent too long closes; a closing one closes when its close took too long, and
/// otherwise, once nothing is left to send or acknowledge, sends its notification or, once
/// that is out, closes.
pub open spec fn state_after_update(
    s: SessionState,
    now: u64,
    last_activity: u64,
    disconnection_time: Option<u64>,
    idle: bool,
) -> SessionState {
    if s == SessionState::Disconnected {
        s
    } else if (s == SessionState::ConnectingOnline || s == SessionState::Connected)
        && elapsed_over(last_activity, now, TIMEOUT_MS) {
        SessionState::Disconnected
    } else if s == SessionState::DisconnectingGraceful || s == SessionState::DisconnectingNotified {
        if disconnection_time matches Some(t) && elapsed_over(t, now, DISCONNECT_TIMEOUT_MS) {
            SessionState::Disconnected
        } else if idle {
            if s == SessionState::DisconnectingGraceful {
                SessionState::DisconnectingNotified
            } else {
                SessionState::Disconnected
            }
        } else {
            s
        }
    } else {
        s
    }
}

/// Who a connection is with.
#[derive(Debug, Clone, Copy, PartialEq, Eq)]
pub struct SessionMeta {
    /// The id the owner gave this connection.
    pub internal_id: u64,
    /// The peer's address.
    pub addr: InternetAddress,
    /// The id the peer gave itself in the handshake.
    pub client_id: u64,
    /// The largest datagram agreed on.
    pub mtu_size: u16,
}

/// A connection with a peer.
#[derive(Debug)]
pub struct Session {
    meta: SessionMeta,
    state: SessionState,
    send_layer: SendReliabilityLayer,
    recv_layer: ReceiveReliabilityLayer,
    last_activity_time: u64,
    last_update_time: u64,
    last_ping_time: u64,
    disconnection_time: Option<u64>,
    last_ping_measure_milli: u32,
    ping_send_times: Vec<(u64, u64)>,
}

impl Session {
    pub closed spec fn wf(&self) -> bool {
        &&& self.send_layer.wf()
        &&& self.recv_layer.wf()
        &&& self.ping_send_times@.len() <= MAX_PING_TRACKING
    }

    pub closed spec fn state(&self) -> SessionState {
        self.state
    }

    pub closed spec fn last_activity(&self) -> u64 {
        self.last_activity_time
    }

    pub closed spec fn disconnection_time(&self) -> Option<u64> {
        self.disconnection_time
    }

    pub closed spec fn spec_meta(&self) -> SessionMeta {
        self.meta
    }

    pub closed spec fn spec_last_ping_ms(&self) -> u32 {
        self.last_ping_measure_milli
    }

    /// The receive window.
    pub closed spec fn recv_window(&self) -> ReceiveWindow {
        self.recv_layer.window()
    }

    /// When the peer was last pinged.
    pub closed spec fn last_ping(&self) -> u64 {
        self.last_ping_time
    }

    /// The sending side.
    pub closed spec fn send_state(&self) -> SendReliabilityLayer {
        self.send_layer
    }

    /// The pings awaiting their pong: the time each carries and when it was sent.
    pub closed spec fn pings(&self) -> Seq<(u64, u64)> {
        self.ping_send_times@
    }

    /// Nothing is left to send, resend or acknowledge.
    pub closed spec fn idle(&self) -> bool {
        &&& self.send_layer.queue().len() == 0
        &&& self.send_layer.backlog().dom() == Set::<u32>::empty()
        &&& self.send_layer.resend_queue().len() == 0
        &&& self.send_layer.cache().dom() == Set::<u32>::empty()
        &&& self.recv_layer.window().acks == Set::<u32>::empty()
        &&& self.recv_layer.window().nacks == Set::<u32>::empty()
    }

    /// A connection in `initial_state` at time `now`, with windows of 512 datagrams, split
    /// packets of up to 128 parts and 4 of them at once.
    pub fn new(meta: SessionMeta, initial_state: SessionState, now: u64) -> (r: Self)
        ensures
            r.wf(),
            r.state() == initial_state,
            r.last_activity() == now,
            r.disconnection_time() is None,
            r.spec_meta() == meta,
            r.spec_last_ping_ms() == 0,
    {
        Session {
            meta,
            state: initial_state,
            send_layer: SendReliabilityLayer::new(meta.mtu_size, 512),
            recv_layer: ReceiveReliabilityLayer::new(512, 128, 4),
            last_activity_time: now,
            last_update_time: now,
            last_ping_time: now,
            disconnection_time: None,
            last_ping_measure_milli: 0,
            ping_send_times: Vec::new(),
        }
    }

    pub fn get_state(&self) -> (r: SessionState)
        ensures
            r == self.state(),
    {
        self.state
    }

    pub fn is_potentially_connected(&self) -> (r: bool)
        ensures
            r == (self.state() == SessionState::ConnectingOnline || self.state()
                == SessionState::Connected),
    {
        self.state.is_potentially_connected()
    }

    pub fn is_fully_connected(&self) -> (r: bool)
        ensures
            r == (self.state() == SessionState::Connected),
    {
        self.state.is_fully_connected()
    }

    pub fn is_fully_disconnected(&self) -> (r: bool)
        ensures
            r == (self.state() == SessionState::Disconnected),
    {
        self.state.is_fully_disconnected()
    }

    pub fn internal_id(&self) -> (r: u64)
        ensures
            r == self.spec_meta().internal_id,
    {
        self.meta.internal_id
    }

    pub fn address(&self) -> (r: InternetAddress)
        ensures
            r == self.spec_meta().addr,
    {
        self.meta.addr
    }

    pub fn client_id(&self) -> (r: u64)
        ensures
            r == self.spec_meta().client_id,
    {
        self.meta.client_id
    }

    /// The round trip of the last ping that came back, in milliseconds.
    pub fn last_ping_ms(&self) -> (r: u32)
        ensures
            r == self.spec_last_ping_ms(),
    {
        self.last_ping_measure_milli
    }

    /// Asks for a graceful close: the connection waits for what it sent to be acknowledged,
    /// then sends its notification. The close is reported when first asked for.
    pub fn initiate_disconnect(&mut self, reason: DisconnectReason, now: u64, out: &mut SessionOutput)
        requires
            old(self).wf(),
        ensures
            final(self).wf(),
            final(self).state() == old(self).state().spec_initiate_disconnect().0,
            reported(
                old(out).events@,
                final(out).events@,
                old(self).state().spec_initiate_disconnect().1,
                reason,
            ),
            final(self).disconnection_time() == if old(self).state() == SessionState::Disconnected
                || old(self).state() == SessionState::DisconnectingNotified {
                old(self).disconnection_time()
            } else {
                Some(now)
            },
            final(self).last_activity() == old(self).last_activity(),
            final(out).datagrams@ == old(out).datagrams@,
            final(out).acknowledgements@ == old(out).acknowledgements@,
    {
        let (next, report) = self.state.initiate_disconnect();
        if !(self.state == SessionState::Disconnected || self.state
            == SessionState::DisconnectingNotified) {
            self.disconnection_time = Some(now);
        }
        if report {
            out.events.push(SessionEvent::Disconnected(reason));
        }
        self.state = next;
    }

    /// Closes the connection at once; the close is reported unless it was already.
    pub fn force_disconnect(&mut self, reason: DisconnectReason, out: &mut SessionOutput)
        requires
            old(self).wf(),
        ensures
            final(self).wf(),
            final(self).state() == SessionState::Disconnected,
            reported(
                old(out).events@,
                final(out).events@,
                old(self).state().spec_force_disconnect().1,
                reason,
            ),
            final(self).disconnection_time() == old(self).disconnection_time(),
            final(self).last_activity() == old(self).last_activity(),
            final(out).datagrams@ == old(out).datagrams@,
            final(out).acknowledgements@ == old(out).acknowledgements@,
            final(self).pings() == old(self).pings(),
            final(self).recv_window() == old(self).recv_window(),
            final(self).send_state() == old(self).send_state(),
    {
        let (next, report) = self.state.force_disconnect();
        if report {
            out.events.push(SessionEvent::Disconnected(reason));
        }
        self.state = next;
    }

    /// Takes an ACK from the peer: the peer is alive, and receipts completed by it are
    /// reported.
    pub fn handle_ack(&mut self, ack: &ACK, now: u64, out: &mut SessionOutput)
        requires
            old(self).wf(),
        ensures
            final(self).wf(),
            final(self).state() == old(self).state(),
            final(self).last_activity() == now,
            final(self).disconnection_time() == old(self).disconnection_time(),
            final(out).events@.len() >= old(out).events@.len(),
            final(out).events@.take(old(out).events@.len() as int) == old(out).events@,
            forall|j: int|
                old(out).events@.len() <= j < final(out).events@.len() ==> (#[trigger] final(out).events@[j]) is PacketAcked,
            final(out).datagrams@ == old(out).datagrams@,
            final(out).acknowledgements@ == old(out).acknowledgements@,
    {
        self.last_activity_time = now;
        let mut acked: Vec<u32> = Vec::new();
        self.send_layer.on_ack(ack, &mut acked);
        let ghost e0 = out.events@;
        let mut i: usize = 0;
        while i < acked.len()
            invariant
                i <= acked@.len(),
                out.events@.len() == e0.len() + i,
                out.events@.take(e0.len() as int) == e0,
                forall|j: int|
                    e0.len() <= j < out.events@.len() ==> (#[trigger] out.events@[j]) is PacketAcked,
                e0 == old(out).events@,
                out.datagrams@ == old(out).datagrams@,
                out.acknowledgements@ == old(out).acknowledgements@,
            decreases acked@.len() - i,
        {
            let ghost before = out.events@;
            out.events.push(SessionEvent::PacketAcked(acked[i]));
            proof {
                assert(out.events@.take(e0.len() as int) =~= before.take(e0.len() as int));
            }
            i = i + 1;
        }
    }

    /// Takes a NACK from the peer: the peer is alive, and what it missed is resent.
    pub fn handle_nack(&mut self, nack: &NACK, now: u64)
        requires
            old(self).wf(),
        ensures
            final(self).wf(),
            final(self).state() == old(self).state(),
            final(self).last_activity() == now,
            final(self).disconnection_time() == old(self).disconnection_time(),
    {
        self.last_activity_time = now;
        self.send_layer.on_nack(nack);
    }

    /// Queues a packet of the peer's own: refused unless the connection may carry packets.
    pub fn queue_user_packet(
        &mut self,
        payload: Vec<u8>,
        reliability: u8,
        order_channel: u8,
        immediate: bool,
        now: u64,
        out: &mut SessionOutput,
    ) -> (r: Result<(), SessionError>)
        requires
            old(self).wf(),
        ensures
            final(self).wf(),
            final(self).state() == old(self).state(),
            final(self).last_activity() == old(self).last_activity(),
            r is Err <==> !(old(self).state() == SessionState::ConnectingOnline || old(self).state()
                == SessionState::Connected),
            r == Err::<(), SessionError>(SessionError::NotConnected) || r is Ok,
            r is Err ==> final(out).datagrams@ == old(out).datagrams@,
            final(out).events@ == old(out).events@,
    {
        if !self.state.is_potentially_connected() {
            return Err(SessionError::NotConnected);
        }
        let mut packet = EncapsulatedPacket::new();
        packet.buffer = payload;
        packet.reliability = reliability;
        packet.order_channel = Some(order_channel);
        self.send_layer.add_encapsulated_to_queue(packet, immediate, now, &mut out.datagrams);
        Ok(())
    }

    /// Queues a packet of the peer's own whose acknowledgement is to be reported with
    /// `ack_identifier`: refused unless the connection may carry packets and the packet is
    /// sent reliably.
    pub fn queue_user_packet_needs_ack(
        &mut self,
        payload: Vec<u8>,
        reliability: u8,
        order_channel: u8,
        immediate: bool,
        ack_identifier: u32,
        now: u64,
        out: &mut SessionOutput,
    ) -> (r: Result<(), SessionError>)
        requires
            old(self).wf(),
        ensures
            final(self).wf(),
            final(self).state() == old(self).state(),
            final(self).last_activity() == old(self).last_activity(),
            !(old(self).state() == SessionState::ConnectingOnline || old(self).state()
                == SessionState::Connected) ==> r == Err::<(), SessionError>(
                SessionError::NotConnected,
            ),
            (old(self).state() == SessionState::ConnectingOnline || old(self).state()
                == SessionState::Connected) && !spec_is_reliable(reliability) ==> r == Err::<
                (),
                SessionError,
            >(SessionError::ReceiptForUnreliable),
            (old(self).state() == SessionState::ConnectingOnline || old(self).state()
                == SessionState::Connected) && spec_is_reliable(reliability) ==> r is Ok,
            r is Err ==> final(out).datagrams@ == old(out).datagrams@,
            final(out).events@ == old(out).events@,
    {
        if !self.state.is_potentially_connected() {
            return Err(SessionError::NotConnected);
        }
        if !is_reliable(reliability) {
            return Err(SessionError::ReceiptForUnreliable);
        }
        let mut packet = EncapsulatedPacket::new();
        packet.buffer = payload;
        packet.reliability = reliability;
        packet.order_channel = Some(order_channel);
        packet.identifier_ack = Some(ack_identifier);
        self.send_layer.add_encapsulated_to_queue(packet, immediate, now, &mut out.datagrams);
        Ok(())
    }

    /// Pings the peer at time `now`; the ping is remembered until its pong, and the oldest
    /// remembered ping is forgotten when there are too many.
    fn send_ping(&mut self, reliability: u8, now: u64, out: &mut SessionOutput)
        requires
            old(self).wf(),
        ensures
            final(self).wf(),
            final(self).state() == old(self).state(),
            final(self).last_activity() == old(self).last_activity(),
            final(self).disconnection_time() == old(self).disconnection_time(),
            final(self).spec_last_ping_ms() == old(self).spec_last_ping_ms(),
            final(out).events@ == old(out).events@,
            final(out).acknowledgements@ == old(out).acknowledgements@,
            final(self).pings() == pings_after_ping(old(self).pings(), now),
            internal_sent(
                old(self).state(),
                old(self).send_state(),
                final(self).send_state(),
                internal_packet(ping_bytes(now), reliability, 0),
                true,
                old(out).datagrams@,
                final(out).datagrams@,
            ),
    {
        if self.ping_send_times.len() >= MAX_PING_TRACKING {
            let mut oldest: usize = 0;
            let mut i: usize = 1;
            while i < self.ping_send_times.len()
                invariant
                    1 <= i <= self.ping_send_times@.len(),
                    oldest < self.ping_send_times@.len(),
                    oldest == oldest_ping(self.ping_send_times@, i as int),
                decreases self.ping_send_times@.len() - i,
            {
                if self.ping_send_times[i].1 < self.ping_send_times[oldest].1 {
                    oldest = i;
                }
                i = i + 1;
            }
            self.ping_send_times.remove(oldest);
        }
        self.ping_send_times.push((now, now));
        let mut stream = BinaryStream::new();
        let _ = ConnectedPing::create(now).encode(&mut stream);
        proof {
            assert(stream.data() =~= ping_bytes(now));
        }
        self.queue_internal_packet(stream.into_inner(), reliability, 0, true, now, out);
    }

    /// Answers a ping from the peer with a pong, sent unreliably.
    fn handle_connected_ping(&mut self, ping: ConnectedPing, now: u64, out: &mut SessionOutput)
        requires
            old(self).wf(),
        ensures
            final(self).wf(),
            final(self).state() == old(self).state(),
            final(self).last_activity() == old(self).last_activity(),
            final(self).disconnection_time() == old(self).disconnection_time(),
            final(self).spec_last_ping_ms() == old(self).spec_last_ping_ms(),
            final(out).events@ == old(out).events@,
            final(out).acknowledgements@ == old(out).acknowledgements@,
            final(self).pings() == old(self).pings(),
            internal_sent(
                old(self).state(),
                old(self).send_state(),
                final(self).send_state(),
                internal_packet(pong_bytes(ping.send_ping_time, now), UNRELIABLE, 0),
                false,
                old(out).datagrams@,
                final(out).datagrams@,
            ),
    {
        let pong = ConnectedPong::create(ping.send_ping_time, now);
        let mut stream = BinaryStream::new();
        let _ = pong.encode(&mut stream);
        proof {
            assert(stream.data() =~= pong_bytes(ping.send_ping_time, now));
        }
        self.queue_internal_packet(stream.into_inner(), UNRELIABLE, 0, false, now, out);
    }

    /// Takes a pong: when it answers a remembered ping, the round trip is measured and
    /// reported.
    fn handle_connected_pong(&mut self, pong: ConnectedPong, now: u64, out: &mut SessionOutput)
        requires
            old(self).wf(),
        ensures
            final(self).wf(),
            final(self).state() == old(self).state(),
            final(self).last_activity() == old(self).last_activity(),
            final(self).disconnection_time() == old(self).disconnection_time(),
            final(out).events@ == old(out).events@ || final(out).events@ == old(out).events@.push(
                SessionEvent::PingMeasured(final(self).spec_last_ping_ms()),
            ),
            final(out).datagrams@ == old(out).datagrams@,
            final(out).acknowledgements@ == old(out).acknowledgements@,
            pong_measured(
                old(self).pings(),
                final(self).pings(),
                old(self).spec_last_ping_ms(),
                final(self).spec_last_ping_ms(),
                old(out).events@,
                final(out).events@,
                pong.send_ping_time,
                now,
            ),
            (forall|j: int|
                0 <= j < old(self).pings().len() ==> (#[trigger] old(self).pings()[j]).0
                    != pong.send_ping_time) ==> {
                &&& final(self).pings() == old(self).pings()
                &&& final(self).spec_last_ping_ms() == old(self).spec_last_ping_ms()
                &&& final(out).events@ == old(out).events@
            },
            forall|i: int|
                0 <= i < old(self).pings().len() && (#[trigger] old(self).pings()[i]).0
                    == pong.send_ping_time && (forall|j: int|
                    0 <= j < i ==> old(self).pings()[j].0 != pong.send_ping_time) ==> {
                    &&& final(self).pings() == old(self).pings().remove(i)
                    &&& final(self).spec_last_ping_ms() == round_trip(old(self).pings()[i].1, now)
                    &&& final(out).events@ == old(out).events@.push(
                        SessionEvent::PingMeasured(round_trip(old(self).pings()[i].1, now)),
                    )
                },
    {
        let mut i: usize = 0;
        while i < self.ping_send_times.len()
            invariant
                i <= self.ping_send_times@.len(),
                self.wf(),
                self.state() == old(self).state(),
                self.last_activity() == old(self).last_activity(),
                self.disconnection_time() == old(self).disconnection_time(),
                out.events@ == old(out).events@,
                out.datagrams@ == old(out).datagrams@,
                out.acknowledgements@ == old(out).acknowledgements@,
                self.pings() == old(self).pings(),
                self.spec_last_ping_ms() == old(self).spec_last_ping_ms(),
                forall|j: int| 0 <= j < i ==> (#[trigger] old(self).pings()[j]).0 != pong.send_ping_time,
            decreases self.ping_send_times@.len() - i,
        {
            if self.ping_send_times[i].0 == pong.send_ping_time {
                proof {
                    assert forall|k: int|
                        0 <= k < old(self).pings().len() && (#[trigger] old(self).pings()[k]).0
                            == pong.send_ping_time && (forall|j: int|
                            0 <= j < k ==> old(self).pings()[j].0 != pong.send_ping_time) implies k
                        == i by {
                        if k < i {
                        } else if k > i {
                            assert(old(self).pings()[i as int].0 == pong.send_ping_time);
                        }
                    }
                }
                let (_, sent_at) = self.ping_send_times.remove(i);
                let rtt = if now > sent_at {
                    now - sent_at
                } else {
                    0
                };
                self.last_ping_measure_milli = rtt as u32;
                out.events.push(SessionEvent::PingMeasured(self.last_ping_measure_milli));
                return ;
            }
            i = i + 1;
        }
    }

    /// Hands on a packet that arrived whole and in order: the peer's own packets come back
    /// once connected; pings are answered, pongs measured, and a close notification from
    /// the peer closes the connection.
    fn route_packet(&mut self, packet: EncapsulatedPacket, now: u64, out: &mut SessionOutput) -> (r:
        Option<Vec<u8>>)
        requires
            old(self).wf(),
        ensures
            final(self).wf(),
            final(self).last_activity() == old(self).last_activity(),
            r == if packet.buffer@.len() > 0 && packet.buffer@[0] >= ID_USER_PACKET_ENUM
                && old(self).state() == SessionState::Connected {
                Some(packet.buffer)
            } else {
                None::<Vec<u8>>
            },
            packet.buffer@.len() > 0 && packet.buffer@[0] == ID_DISCONNECTION_NOTIFICATION
                ==> final(self).state() == SessionState::Disconnected && reported(
                old(out).events@,
                final(out).events@,
                old(self).state().spec_force_disconnect().1,
                DisconnectReason::ClientDisconnect,
            ),
            !(packet.buffer@.len() > 0 && packet.buffer@[0] == ID_DISCONNECTION_NOTIFICATION)
                ==> final(self).state() == old(self).state(),
            final(out).acknowledgements@ == old(out).acknowledgements@,
            parse_connected_ping(packet.buffer@) matches Ok((ping, _)) ==> internal_sent(
                old(self).state(),
                old(self).send_state(),
                final(self).send_state(),
                internal_packet(pong_bytes(ping.send_ping_time, now), UNRELIABLE, 0),
                false,
                old(out).datagrams@,
                final(out).datagrams@,
            ) && final(self).pings() == old(self).pings() && final(out).events@ == old(
                out,
            ).events@,
            parse_connected_pong(packet.buffer@) matches Ok((pong, _)) ==> pong_measured(
                old(self).pings(),
                final(self).pings(),
                old(self).spec_last_ping_ms(),
                final(self).spec_last_ping_ms(),
                old(out).events@,
                final(out).events@,
                pong.send_ping_time,
                now,
            ) && final(out).datagrams@ == old(out).datagrams@,
    {
        if packet.buffer.len() == 0 {
            return None;
        }
        let packet_id = packet.buffer[0];
        if packet_id >= ID_USER_PACKET_ENUM {
            if self.state == SessionState::Connected {
                return Some(packet.buffer);
            }
            return None;
        }
        if packet_id == ID_CONNECTED_PING {
            let mut stream = BinaryStream::from_slice(packet.buffer.as_slice());
            proof {
                assert(stream.remaining() =~= packet.buffer@);
            }
            match ConnectedPing::decode(&mut stream) {
                Ok(ping) => self.handle_connected_ping(ping, now, out),
                Err(_) => {},
            }
        } else if packet_id == ID_CONNECTED_PONG {
            let mut stream = BinaryStream::from_slice(packet.buffer.as_slice());
            proof {
                assert(stream.remaining() =~= packet.buffer@);
            }
            match ConnectedPong::decode(&mut stream) {
                Ok(pong) => self.handle_connected_pong(pong, now, out),
                Err(_) => {},
            }
        } else if packet_id == ID_DISCONNECTION_NOTIFICATION {
            self.force_disconnect(DisconnectReason::ClientDisconnect, out);
        } else if packet_id == ID_CONNECTION_REQUEST {
            let _ = self.handle_connection_request(packet.buffer);
        } else if packet_id == ID_CONNECTION_REQUEST_ACCEPTED {
            let _ = self.handle_connection_request_accepted(packet.buffer);
        } else if packet_id == ID_NEW_INCOMING_CONNECTION {
            let _ = self.handle_new_incoming_connection(packet.buffer);
        }
        None
    }

    /// The handshake's connection request; a plain connection leaves it to the server's
    /// side and is unchanged by it.
    pub fn handle_connection_request(&mut self, _buffer: Vec<u8>) -> (r: Result<(), SessionError>)
        ensures
            r is Ok,
            *final(self) == *old(self),
    {
        Ok(())
    }

    /// The handshake's acceptance of a request; a plain connection leaves it to the
    /// client's side and is unchanged by it.
    pub fn handle_connection_request_accepted(&mut self, _buffer: Vec<u8>) -> (r: Result<
        (),
        SessionError,
    >)
        ensures
            r is Ok,
            *final(self) == *old(self),
    {
        Ok(())
    }

    /// The handshake's last packet, from a client; a plain connection leaves it to the
    /// server's side and is unchanged by it.
    pub fn handle_new_incoming_connection(&mut self, _buffer: Vec<u8>) -> (r: Result<
        (),
        SessionError,
    >)
        ensures
            r is Ok,
            *final(self) == *old(self),
    {
        Ok(())
    }

    /// Takes a datagram from the peer at time `now`: the peer is alive; the packets it
    /// completes are handed on, and the peer's own packets among them come back. A refused
    /// split packet is reported after the packets before it are handed on; the connection
    /// should then close.
    pub fn handle_datagram(&mut self, datagram: Datagram, now: u64, out: &mut SessionOutput) -> (r:
        Result<Vec<Vec<u8>>, SplitPacketError>)
        requires
            old(self).wf(),
        ensures
            final(self).wf(),
            final(self).last_activity() == now,
            r is Err ==> exists|j: int|
                0 <= j < datagram.packets@.len() && (#[trigger] datagram.packets@[j]).split_info is Some,
            r matches Ok(users) ==> forall|j: int|
                0 <= j < users@.len() ==> (#[trigger] users@[j])@.len() > 0 && users@[j]@[0]
                    >= ID_USER_PACKET_ENUM && old(self).state() == SessionState::Connected,
            old(self).state() == SessionState::Disconnected ==> final(self).state()
                == SessionState::Disconnected,
    {
        self.last_activity_time = now;
        let mut delivered: Vec<EncapsulatedPacket> = Vec::new();
        let outcome = self.recv_layer.on_datagram(datagram, &mut delivered);
        let mut users: Vec<Vec<u8>> = Vec::new();
        let ghost s0 = self.state;
        while delivered.len() > 0
            invariant
                self.wf(),
                self.last_activity() == now,
                s0 == old(self).state(),
                s0 == SessionState::Disconnected ==> self.state() == SessionState::Disconnected,
                self.state() == s0 || self.state() == SessionState::Disconnected,
                forall|j: int|
                    0 <= j < users@.len() ==> (#[trigger] users@[j])@.len() > 0 && users@[j]@[0]
                        >= ID_USER_PACKET_ENUM,
                users@.len() > 0 ==> s0 == SessionState::Connected,
            decreases delivered@.len(),
        {
            let packet = delivered.remove(0);
            let ghost state_before = self.state();
            match self.route_packet(packet, now, out) {
                Some(payload) => {
                    assert(payload@.len() > 0 && payload@[0] >= ID_USER_PACKET_ENUM);
                    assert(state_before == SessionState::Connected);
                    let ghost prior = users@;
                    users.push(payload);
                    assert forall|j: int| 0 <= j < users@.len() implies (#[trigger] users@[j])@.len() > 0
                        && users@[j]@[0] >= ID_USER_PACKET_ENUM by {
                        if j < prior.len() {
                            assert(users@[j] == prior[j]);
                        }
                    }
                },
                None => {},
            }
        }
        match outcome {
            Ok(()) => Ok(users),
            Err(e) => Err(e),
        }
    }

    /// Takes bytes from the peer at time `now`: an ACK or NACK when their first byte says
    /// so and they decode as one, else a datagram when they decode as one, whose refused
    /// split packet closes the connection. Bytes that are neither are not taken (`None`)
    /// and change nothing; taken bytes give the peer's own packets they complete.
    pub fn handle_raw_packet(&mut self, buffer: &[u8], now: u64, out: &mut SessionOutput) -> (r:
        Option<Vec<Vec<u8>>>)
        requires
            old(self).wf(),
        ensures
            final(self).wf(),
            (taken_as_ack(buffer@) || taken_as_nack(buffer@)) ==> (r matches Some(u) && u@.len()
                == 0) && final(self).last_activity() == now && final(self).state() == old(
                self,
            ).state(),
            !(taken_as_ack(buffer@) || taken_as_nack(buffer@)) && parse_datagram(buffer@) is Ok
                ==> r is Some && final(self).last_activity() == now,
            !(taken_as_ack(buffer@) || taken_as_nack(buffer@)) && parse_datagram(buffer@) is Err
                ==> r is None && *final(self) == *old(self),
            r is None ==> final(out).datagrams@ == old(out).datagrams@,
            r is None ==> final(out).acknowledgements@ == old(out).acknowledgements@,
            r is None ==> final(out).events@ == old(out).events@,
            r matches Some(u) ==> forall|j: int|
                0 <= j < u@.len() ==> (#[trigger] u@[j])@.len() > 0 && u@[j]@[0]
                    >= ID_USER_PACKET_ENUM && old(self).state() == SessionState::Connected,
            old(self).state() == SessionState::Disconnected ==> final(self).state()
                == SessionState::Disconnected,
    {
        if buffer.len() > 0 && ((buffer[0] >= 0xa0 && buffer[0] <= 0xaf) || (buffer[0] >= 0xc0
            && buffer[0] <= 0xcf)) {
            let mut stream = BinaryStream::from_slice(buffer);
            proof {
                assert(stream.remaining() =~= buffer@);
            }
            if buffer[0] >= 0xc0 {
                match ACK::decode(&mut stream) {
                    Ok(ack) => {
                        self.handle_ack(&ack, now, out);
                        return Some(Vec::new());
                    },
                    Err(_) => {},
                }
            } else {
                match NACK::decode(&mut stream) {
                    Ok(nack) => {
                        self.handle_nack(&nack, now);
                        return Some(Vec::new());
                    },
                    Err(_) => {},
                }
            }
        }
        let mut stream = BinaryStream::from_slice(buffer);
        proof {
            assert(stream.remaining() =~= buffer@);
        }
        match Datagram::decode(&mut stream) {
            Ok(datagram) => {
                proof {
                    let b = buffer@.skip(1);
                    let x0: u8 = b[0];
                    let x1: u8 = b[1];
                    let x2: u8 = b[2];
                    assert(((x0 as u32) | ((x1 as u32) << 8u32) | ((x2 as u32) << 16u32))
                        < 0x1000000u32) by (bit_vector);
                }
                match self.handle_datagram(datagram, now, out) {
                    Ok(users) => Some(users),
                    Err(e) => {
                        self.force_disconnect(DisconnectReason::from_split_error(e), out);
                        Some(Vec::new())
                    },
                }
            },
            Err(_) => None,
        }
    }

    /// The periodic work at time `now`: a silent connection times out, a closing one moves
    /// on or gives up (see `state_after_update`), acknowledgements are sent, the sending
    /// side resends and sends, and a connected peer is pinged every few seconds.
    pub fn update(&mut self, now: u64, out: &mut SessionOutput)
        requires
            old(self).wf(),
        ensures
            final(self).wf(),
            final(self).state() == state_after_update(
                old(self).state(),
                now,
                old(self).last_activity(),
                old(self).disconnection_time(),
                old(self).idle(),
            ),
            final(self).last_activity() == old(self).last_activity(),
            final(out).events@ == if old(self).state() != SessionState::Disconnected && (old(
                self,
            ).state() == SessionState::ConnectingOnline || old(self).state()
                == SessionState::Connected) && elapsed_over(
                old(self).last_activity(),
                now,
                TIMEOUT_MS,
            ) {
                old(out).events@.push(SessionEvent::Disconnected(DisconnectReason::PeerTimeout))
            } else {
                old(out).events@
            },
            ({
                let proceeds = state_after_update(
                    old(self).state(),
                    now,
                    old(self).last_activity(),
                    old(self).disconnection_time(),
                    old(self).idle(),
                ) != SessionState::Disconnected;
                let n = old(out).acknowledgements@.len() as int;
                &&& final(out).acknowledgements@.len() >= n
                &&& final(out).acknowledgements@.take(n) == old(out).acknowledgements@
                &&& proceeds ==> acks_reported(old(self).recv_window(), final(out).acknowledgements@.skip(n))
                &&& !proceeds ==> final(out).acknowledgements@ == old(out).acknowledgements@
            }),
            final(out).datagrams@.len() >= old(out).datagrams@.len(),
            final(out).datagrams@.take(old(out).datagrams@.len() as int) == old(out).datagrams@,
            ping_due(old(self).state(), old(self).last_activity(), old(self).last_ping(), now)
                ==> final(self).pings() == pings_after_ping(old(self).pings(), now)
                && final(self).last_ping() == now,
            !ping_due(old(self).state(), old(self).last_activity(), old(self).last_ping(), now)
                ==> final(self).pings() == old(self).pings(),
            tick_sent(
                old(self).send_state(),
                final(self).send_state(),
                old(self).state() == SessionState::DisconnectingGraceful && state_after_update(
                    old(self).state(),
                    now,
                    old(self).last_activity(),
                    old(self).disconnection_time(),
                    old(self).idle(),
                ) == SessionState::DisconnectingNotified,
                state_after_update(
                    old(self).state(),
                    now,
                    old(self).last_activity(),
                    old(self).disconnection_time(),
                    old(self).idle(),
                ) != SessionState::Disconnected,
                ping_due(old(self).state(), old(self).last_activity(), old(self).last_ping(), now),
                now,
                old(out).datagrams@,
                final(out).datagrams@,
            ),
    {
        let ghost next = state_after_update(
            old(self).state(),
            now,
            old(self).last_activity(),
            old(self).disconnection_time(),
            old(self).idle(),
        );
        let ghost notify = old(self).state() == SessionState::DisconnectingGraceful && next
            == SessionState::DisconnectingNotified;
        let ghost proceeds = next != SessionState::Disconnected;
        let ghost ping = ping_due(old(self).state(), old(self).last_activity(), old(self).last_ping(), now);
        let ghost b0 = old(self).send_state();
        let ghost d0 = old(out).datagrams@;
        self.last_update_time = now;
        if self.state == SessionState::Disconnected {
            proof {
                assert(tick_steps(b0, b0, b0, self.send_state(), notify, proceeds, ping, now, d0, d0, d0, out.datagrams@));
            }
            return ;
        }
        if self.state.is_potentially_connected() && now > self.last_activity_time && now
            - self.last_activity_time > TIMEOUT_MS {
            self.force_disconnect(DisconnectReason::PeerTimeout, out);
            proof {
                assert(tick_steps(b0, b0, b0, self.send_state(), notify, proceeds, ping, now, d0, d0, d0, out.datagrams@));
            }
            return ;
        }
        if self.state == SessionState::DisconnectingGraceful || self.state
            == SessionState::DisconnectingNotified {
            match self.disconnection_time {
                Some(t) => {
                    if now > t && now - t > DISCONNECT_TIMEOUT_MS {
                        self.force_disconnect(DisconnectReason::PeerTimeout, out);
                        proof {
                            assert(tick_steps(b0, b0, b0, self.send_state(), notify, proceeds, ping, now, d0, d0, d0, out.datagrams@));
                        }
                        return ;
                    }
                },
                None => {
                    self.disconnection_time = Some(now);
                },
            }
            let sending = self.send_layer.needs_update();
            let receiving = self.recv_layer.needs_update();
            if !sending && !receiving {
                if self.state == SessionState::DisconnectingGraceful {
                    let mut stream = BinaryStream::new();
                    let _ = DisconnectionNotification {  }.encode(&mut stream);
                    self.queue_internal_packet(
                        stream.into_inner(),
                        RELIABLE_ORDERED,
                        0,
                        true,
                        now,
                        out,
                    );
                    self.state = SessionState::DisconnectingNotified;
                    self.disconnection_time = Some(now);
                } else {
                    self.state = SessionState::Disconnected;
                    proof {
                        assert(tick_steps(b0, b0, b0, self.send_state(), notify, proceeds, ping, now, d0, d0, d0, out.datagrams@));
                    }
                    return ;
                }
            }
        }
        let ghost s1 = self.send_state();
        let ghost d1 = out.datagrams@;
        let ghost a0 = out.acknowledgements@;
        let mut acknowledgements = self.recv_layer.update();
        let ghost acks = acknowledgements@;
        out.acknowledgements.append(&mut acknowledgements);
        proof {
            assert(out.acknowledgements@.skip(a0.len() as int) =~= acks);
            assert(out.acknowledgements@.take(a0.len() as int) =~= a0);
        }
        self.send_layer.update(now, &mut out.datagrams);
        let ghost s2 = self.send_state();
        let ghost d2 = out.datagrams@;
        if self.state == SessionState::Connected && now >= self.last_ping_time && now
            - self.last_ping_time >= PING_INTERVAL_MS {
            self.send_ping(UNRELIABLE, now, out);
            self.last_ping_time = now;
        }
        proof {
            assert(tick_steps(b0, s1, s2, self.send_state(), notify, proceeds, ping, now, d0, d1, d2, out.datagrams@));
        }
    }

    /// Queues a packet of the protocol's own, given its bytes; nothing is queued once the
    /// connection is closed.
    fn queue_internal_packet(
        &mut self,
        bytes: Vec<u8>,
        reliability: u8,
        order_channel: u8,
        immediate: bool,
        now: u64,
        out: &mut SessionOutput,
    )
        requires
            old(self).wf(),
        ensures
            final(self).wf(),
            final(self).state() == old(self).state(),
            final(self).last_activity() == old(self).last_activity(),
            final(self).disconnection_time() == old(self).disconnection_time(),
            final(self).spec_last_ping_ms() == old(self).spec_last_ping_ms(),
            final(out).events@ == old(out).events@,
            final(out).acknowledgements@ == old(out).acknowledgements@,
            final(self).pings() == old(self).pings(),
            final(self).recv_window() == old(self).recv_window(),
            internal_sent(
                old(self).state(),
                old(self).send_state(),
                final(self).send_state(),
                internal_packet(bytes@, reliability, order_channel),
                immediate,
                old(out).datagrams@,
                final(out).datagrams@,
            ),
    {
        if self.state == SessionState::Disconnected {
            return ;
        }
        let mut packet = EncapsulatedPacket::new();
        packet.buffer = bytes;
        packet.reliability = reliability;
        packet.order_channel = Some(order_channel);
        self.send_layer.add_encapsulated_to_queue(packet, immediate, now, &mut out.datagrams);
    }
}

} // verus!
