//! A server's decisions on the bytes it receives: which addresses are blocked, how many
//! packets an address may send in a tick, what offline messages are answered, and the
//! bandwidth reported each second.
use vstd::prelude::*;
use crate::binary::BinaryUtilError;
use crate::raklib::address::{InternetAddress, IpAddress};
use crate::raklib::handler::{
    raw_outcome,
    OfflineReply,
    SimpleProtocolAcceptor,
    UnconnectedMessageHandler,
};
use crate::raklib::ip_table::IpTable;

verus! {

/// What the server tells its owner, besides the bytes it sends.
#[derive(Debug)]
pub enum ServerEvent {
    /// Bytes from an address that no handler took.
    RawPacket(InternetAddress, Vec<u8>),
    /// The bytes sent and received in the last second.
    BandwidthStats(u64, u64),
}

/// What the server hands out: bytes to send to an address, and events.
#[derive(Debug)]
pub struct ServerOutput {
    pub sends: Vec<(InternetAddress, Vec<u8>)>,
    pub events: Vec<ServerEvent>,
}

impl ServerOutput {
    pub fn new() -> (r: Self)
        ensures
            r.sends@.len() == 0,
            r.events@.len() == 0,
    {
        ServerOutput { sends: Vec::new(), events: Vec::new() }
    }
}

/// How long an address that sent too much stays blocked, in milliseconds.
pub const BLOCK_DURATION_MS: u64 = 300_000;

/// How many packets an address may send in one tick.
pub const DEFAULT_PACKET_LIMIT: u32 = 1000;

/// How often the bandwidth is reported, in milliseconds.
pub const STATS_INTERVAL_MS: u64 = 1000;

/// Whether `ip` is blocked at time `now`.
pub open spec fn still_blocked(blocked: Map<IpAddress, u64>, ip: IpAddress, now: u64) -> bool {
    blocked.contains_key(ip) && blocked[ip] > now
}

/// The packets counted for `ip` in this tick, this one included.
pub open spec fn next_count(counts: Map<IpAddress, u32>, ip: IpAddress) -> u32 {
    (if counts.contains_key(ip) {
        counts[ip]
    } else {
        0u32
    }).saturating_add(1)
}

/// Whether a packet from `ip` at time `now` is looked at: not while `ip` is blocked, and not
/// once it exceeds the limit of the tick.
pub open spec fn admitted(
    blocked: Map<IpAddress, u64>,
    counts: Map<IpAddress, u32>,
    ip: IpAddress,
    now: u64,
    limit: u32,
) -> bool {
    !still_blocked(blocked, ip, now) && next_count(counts, ip) <= limit
}

/// The blocked addresses after a packet from `ip` at time `now`: an expired block is
/// lifted, and an address over the limit is blocked for `duration` milliseconds.
pub open spec fn blocked_after(
    blocked: Map<IpAddress, u64>,
    counts: Map<IpAddress, u32>,
    ip: IpAddress,
    now: u64,
    limit: u32,
    duration: u64,
) -> Map<IpAddress, u64> {
    if still_blocked(blocked, ip, now) {
        blocked
    } else if next_count(counts, ip) > limit {
        blocked.insert(ip, now.saturating_add(duration))
    } else {
        blocked.remove(ip)
    }
}

/// The packet counts after a packet from `ip` at time `now`: it is counted unless `ip`
/// is blocked.
pub open spec fn counts_after(
    blocked: Map<IpAddress, u64>,
    counts: Map<IpAddress, u32>,
    ip: IpAddress,
    now: u64,
) -> Map<IpAddress, u32> {
    if still_blocked(blocked, ip, now) {
        counts
    } else {
        counts.insert(ip, next_count(counts, ip))
    }
}

/// How an offline outcome `o` for bytes `payload` from `addr` shows in what the server
/// hands out and returns: an answer is sent back, bytes that are no offline message are
/// reported, a dropped message leaves no trace, and a decoding error is returned.
pub open spec fn dispatched(
    o: Result<OfflineReply, BinaryUtilError>,
    addr: InternetAddress,
    payload: Vec<u8>,
    sends_before: Seq<(InternetAddress, Vec<u8>)>,
    sends_after: Seq<(InternetAddress, Vec<u8>)>,
    events_before: Seq<ServerEvent>,
    events_after: Seq<ServerEvent>,
    r: Result<(), BinaryUtilError>,
) -> bool {
    match o {
        Ok(OfflineReply::Send(bytes)) => r is Ok && sends_after == sends_before.push((addr, bytes))
            && events_after == events_before,
        Ok(OfflineReply::Dropped) => r is Ok && sends_after == sends_before && events_after
            == events_before,
        Ok(OfflineReply::Ignored) => r is Ok && sends_after == sends_before && events_after
            == events_before.push(ServerEvent::RawPacket(addr, payload)),
        Err(e) => r == Err::<(), BinaryUtilError>(e) && sends_after == sends_before
            && events_after == events_before,
    }
}

/// While an address is blocked, its packets are neither counted nor looked at, and its
/// block stays as it is.
pub proof fn lemma_blocked_stays_blocked(
    blocked: Map<IpAddress, u64>,
    counts: Map<IpAddress, u32>,
    ip: IpAddress,
    now: u64,
    limit: u32,
    duration: u64,
)
    requires
        still_blocked(blocked, ip, now),
    ensures
        !admitted(blocked, counts, ip, now, limit),
        blocked_after(blocked, counts, ip, now, limit, duration) == blocked,
        counts_after(blocked, counts, ip, now) == counts,
{
}

/// An address that is not blocked and goes over the limit of the tick is blocked from then
/// on for `duration` milliseconds (or to the end of time, when that runs past it), and the
/// packet that went over is not looked at.
pub proof fn lemma_over_limit_blocks(
    blocked: Map<IpAddress, u64>,
    counts: Map<IpAddress, u32>,
    ip: IpAddress,
    now: u64,
    limit: u32,
    duration: u64,
    later: u64,
)
    requires
        !still_blocked(blocked, ip, now),
        next_count(counts, ip) > limit,
        now <= later,
        later < now.saturating_add(duration),
    ensures
        !admitted(blocked, counts, ip, now, limit),
        still_blocked(blocked_after(blocked, counts, ip, now, limit, duration), ip, later),
{
}

/// A packet is counted exactly when its address is not blocked, and an address under
/// the limit is let through.
pub proof fn lemma_counted_once(
    blocked: Map<IpAddress, u64>,
    counts: Map<IpAddress, u32>,
    ip: IpAddress,
    now: u64,
    limit: u32,
)
    requires
        !still_blocked(blocked, ip, now),
        counts.contains_key(ip) ==> counts[ip] < u32::MAX,
    ensures
        counts_after(blocked, counts, ip, now)[ip] == (if counts.contains_key(ip) {
            counts[ip] + 1
        } else {
            1
        }),
        counts_after(blocked, counts, ip, now)[ip] <= limit ==> admitted(
            blocked,
            counts,
            ip,
            now,
            limit,
        ),
{
}

/// Bytes from `addr` that a server lets through are answered as the offline handler
/// decides: some outcome `o` of the handler shows in what is handed out and returned, and
/// the bytes of a reply are counted as sent.
pub open spec fn answered(
    handler: UnconnectedMessageHandler,
    payload: Vec<u8>,
    addr: InternetAddress,
    sends_before: Seq<(InternetAddress, Vec<u8>)>,
    sends_after: Seq<(InternetAddress, Vec<u8>)>,
    events_before: Seq<ServerEvent>,
    events_after: Seq<ServerEvent>,
    r: Result<(), BinaryUtilError>,
    sent_before: u64,
    sent_after: u64,
) -> bool {
    exists|o: Result<OfflineReply, BinaryUtilError>|
        #![trigger raw_outcome(handler.spec_server_id(), handler.spec_acceptor(), payload@, addr, o)]
        raw_outcome(handler.spec_server_id(), handler.spec_acceptor(), payload@, addr, o)
            && dispatched(o, addr, payload, sends_before, sends_after, events_before, events_after, r)
            && sent_after == sent_before.saturating_add(reply_len(o))
}

/// Seconds as milliseconds, at most the largest `u64`.
pub open spec fn secs_to_ms(secs: u64) -> u64 {
    if secs > u64::MAX / 1000 {
        u64::MAX
    } else {
        (secs * 1000) as u64
    }
}

/// The bytes a reply sends, if any.
pub open spec fn reply_len(o: Result<OfflineReply, BinaryUtilError>) -> u64 {
    match o {
        Ok(OfflineReply::Send(bytes)) => bytes@.len() as u64,
        _ => 0,
    }
}

/// The decisions of a RakNet server on what it receives.
#[derive(Debug)]
pub struct Server {
    server_id: u64,
    unconnected_handler: UnconnectedMessageHandler,
    blocked_ips: IpTable<u64>,
    block_duration: u64,
    ip_packets_this_tick: IpTable<u32>,
    global_packet_limit: u32,
    server_name: String,
    port_checking: bool,
    last_tick_time: u64,
    tick_counter: u64,
    bytes_sent_this_second: u64,
    bytes_received_this_second: u64,
    last_stat_time: u64,
}

impl Server {
    pub closed spec fn wf(&self) -> bool {
        self.blocked_ips.wf() && self.ip_packets_this_tick.wf()
    }

    /// The blocked addresses and when their blocks end.
    pub closed spec fn blocked(&self) -> Map<IpAddress, u64> {
        self.blocked_ips@
    }

    /// The packets counted per address in this tick.
    pub closed spec fn packet_counts(&self) -> Map<IpAddress, u32> {
        self.ip_packets_this_tick@
    }

    pub closed spec fn limit(&self) -> u32 {
        self.global_packet_limit
    }

    pub closed spec fn block_duration(&self) -> u64 {
        self.block_duration
    }

    pub closed spec fn handler(&self) -> UnconnectedMessageHandler {
        self.unconnected_handler
    }

    pub closed spec fn spec_server_id(&self) -> u64 {
        self.server_id
    }

    pub closed spec fn name(&self) -> Seq<char> {
        self.server_name@
    }

    pub closed spec fn port_check(&self) -> bool {
        self.port_checking
    }

    pub closed spec fn ticks(&self) -> u64 {
        self.tick_counter
    }

    pub closed spec fn last_tick(&self) -> u64 {
        self.last_tick_time
    }

    pub closed spec fn bytes_sent(&self) -> u64 {
        self.bytes_sent_this_second
    }

    pub closed spec fn bytes_received(&self) -> u64 {
        self.bytes_received_this_second
    }

    pub closed spec fn last_stats(&self) -> u64 {
        self.last_stat_time
    }

    /// A server with id `server_id` that accepts what `protocol_acceptor` accepts,
    /// started at time `now`: nothing blocked, 1000 packets per address and tick, blocks of
    /// five minutes.
    pub fn new(server_id: u64, protocol_acceptor: SimpleProtocolAcceptor, now: u64) -> (r: Self)
        ensures
            r.wf(),
            r.spec_server_id() == server_id,
            r.handler().spec_server_id() == server_id,
            r.handler().spec_acceptor() == protocol_acceptor,
            r.blocked() == Map::<IpAddress, u64>::empty(),
            r.packet_counts() == Map::<IpAddress, u32>::empty(),
            r.limit() == DEFAULT_PACKET_LIMIT,
            r.block_duration() == BLOCK_DURATION_MS,
            r.name() == "PocketMine-rs Server"@,
            r.port_check(),
            r.ticks() == 0,
            r.last_tick() == now,
            r.bytes_sent() == 0,
            r.bytes_received() == 0,
            r.last_stats() == now,
    {
        Server {
            server_id,
            unconnected_handler: UnconnectedMessageHandler::new(server_id, protocol_acceptor),
            blocked_ips: IpTable::new(),
            block_duration: BLOCK_DURATION_MS,
            ip_packets_this_tick: IpTable::new(),
            global_packet_limit: DEFAULT_PACKET_LIMIT,
            server_name: "PocketMine-rs Server".to_owned(),
            port_checking: true,
            last_tick_time: now,
            tick_counter: 0,
            bytes_sent_this_second: 0,
            bytes_received_this_second: 0,
            last_stat_time: now,
        }
    }

    pub fn server_id(&self) -> (r: u64)
        ensures
            r == self.spec_server_id(),
    {
        self.server_id
    }

    /// Starts a tick at time `now`: the tick is counted and the packet counts start anew.
    pub fn start_tick(&mut self, now: u64)
        requires
            old(self).wf(),
        ensures
            final(self).wf(),
            final(self).last_tick() == now,
            final(self).ticks() == old(self).ticks().saturating_add(1),
            final(self).packet_counts() == Map::<IpAddress, u32>::empty(),
            final(self).blocked() == old(self).blocked(),
            final(self).limit() == old(self).limit(),
            final(self).block_duration() == old(self).block_duration(),
            final(self).handler() == old(self).handler(),
            final(self).bytes_sent() == old(self).bytes_sent(),
            final(self).bytes_received() == old(self).bytes_received(),
            final(self).last_stats() == old(self).last_stats(),
    {
        self.last_tick_time = now;
        self.tick_counter = self.tick_counter.saturating_add(1);
        self.ip_packets_this_tick.clear();
    }

    /// Decides whether a packet from `ip` at time `now` is looked at, counting it and
    /// blocking an address that sends too much.
    fn let_through(&mut self, ip: IpAddress, now: u64) -> (r: bool)
        requires
            old(self).wf(),
        ensures
            final(self).wf(),
            r == admitted(old(self).blocked(), old(self).packet_counts(), ip, now, old(self).limit()),
            final(self).blocked() == blocked_after(
                old(self).blocked(),
                old(self).packet_counts(),
                ip,
                now,
                old(self).limit(),
                old(self).block_duration(),
            ),
            final(self).packet_counts() == counts_after(
                old(self).blocked(),
                old(self).packet_counts(),
                ip,
                now,
            ),
            final(self).limit() == old(self).limit(),
            final(self).block_duration() == old(self).block_duration(),
            final(self).handler() == old(self).handler(),
            final(self).bytes_sent() == old(self).bytes_sent(),
            final(self).bytes_received() == old(self).bytes_received(),
            final(self).last_stats() == old(self).last_stats(),
            final(self).ticks() == old(self).ticks(),
    {
        match self.blocked_ips.get(&ip) {
            Some(expiry) => {
                if expiry > now {
                    return false;
                }
                self.blocked_ips.remove(&ip);
            },
            None => {},
        }
        let count = match self.ip_packets_this_tick.get(&ip) {
            Some(c) => c.saturating_add(1),
            None => 1,
        };
        self.ip_packets_this_tick.insert(ip, count);
        if count > self.global_packet_limit {
            self.block_address_internal(ip, now);
            return false;
        }
        true
    }

    /// Blocks `ip` from time `now` for the server's block duration.
    fn block_address_internal(&mut self, ip: IpAddress, now: u64)
        requires
            old(self).wf(),
        ensures
            final(self).wf(),
            final(self).blocked() == old(self).blocked().insert(
                ip,
                now.saturating_add(old(self).block_duration()),
            ),
            final(self).packet_counts() == old(self).packet_counts(),
            final(self).limit() == old(self).limit(),
            final(self).block_duration() == old(self).block_duration(),
            final(self).handler() == old(self).handler(),
            final(self).bytes_sent() == old(self).bytes_sent(),
            final(self).bytes_received() == old(self).bytes_received(),
            final(self).last_stats() == old(self).last_stats(),
            final(self).ticks() == old(self).ticks(),
    {
        let expiry = now.saturating_add(self.block_duration);
        self.blocked_ips.insert(ip, expiry);
    }

    /// Takes the bytes `buffer` that `addr` sent at time `now`: they are counted; unless
    /// the address is blocked or over its limit, an offline message among them is answered,
    /// and other bytes are reported. A message that does not decode gives its error.
    pub fn handle_raw_packet(
        &mut self,
        buffer: Vec<u8>,
        addr: InternetAddress,
        now: u64,
        out: &mut ServerOutput,
    ) -> (r: Result<(), BinaryUtilError>)
        requires
            old(self).wf(),
        ensures
            final(self).wf(),
            final(self).bytes_received() == old(self).bytes_received().saturating_add(
                buffer@.len() as u64,
            ),
            final(self).blocked() == blocked_after(
                old(self).blocked(),
                old(self).packet_counts(),
                addr.spec_ip(),
                now,
                old(self).limit(),
                old(self).block_duration(),
            ),
            final(self).packet_counts() == counts_after(
                old(self).blocked(),
                old(self).packet_counts(),
                addr.spec_ip(),
                now,
            ),
            final(self).limit() == old(self).limit(),
            final(self).block_duration() == old(self).block_duration(),
            final(self).handler() == old(self).handler(),
            final(self).last_stats() == old(self).last_stats(),
            final(self).ticks() == old(self).ticks(),
            !admitted(
                old(self).blocked(),
                old(self).packet_counts(),
                addr.spec_ip(),
                now,
                old(self).limit(),
            ) ==> r is Ok && final(out).sends@ == old(out).sends@ && final(out).events@ == old(
                out,
            ).events@ && final(self).bytes_sent() == old(self).bytes_sent(),
            admitted(
                old(self).blocked(),
                old(self).packet_counts(),
                addr.spec_ip(),
                now,
                old(self).limit(),
            ) ==> answered(
                old(self).handler(),
                buffer,
                addr,
                old(out).sends@,
                final(out).sends@,
                old(out).events@,
                final(out).events@,
                r,
                old(self).bytes_sent(),
                final(self).bytes_sent(),
            ),
    {
        let len = buffer.len() as u64;
        self.bytes_received_this_second = self.bytes_received_this_second.saturating_add(len);
        if !self.let_through(addr.ip(), now) {
            return Ok(());
        }
        let outcome = self.unconnected_handler.handle_raw(buffer.as_slice(), addr);
        match outcome {
            Ok(OfflineReply::Send(reply)) => {
                let sent = reply.len() as u64;
                self.bytes_sent_this_second = self.bytes_sent_this_second.saturating_add(sent);
                out.sends.push((addr, reply));
                Ok(())
            },
            Ok(OfflineReply::Dropped) => Ok(()),
            Ok(OfflineReply::Ignored) => {
                out.events.push(ServerEvent::RawPacket(addr, buffer));
                Ok(())
            },
            Err(e) => Err(e),
        }
    }

    /// Ends a tick at time `now`: once a second, the bandwidth is reported and its counts
    /// start anew, and blocks that ended are lifted.
    pub fn finish_tick(&mut self, now: u64, out: &mut ServerOutput)
        requires
            old(self).wf(),
        ensures
            final(self).wf(),
            final(out).sends@ == old(out).sends@,
            final(self).packet_counts() == old(self).packet_counts(),
            final(self).limit() == old(self).limit(),
            final(self).block_duration() == old(self).block_duration(),
            final(self).handler() == old(self).handler(),
            final(self).ticks() == old(self).ticks(),
            old(self).last_stats() as int + STATS_INTERVAL_MS <= now ==> {
                &&& final(out).events@ == old(out).events@.push(
                    ServerEvent::BandwidthStats(old(self).bytes_sent(), old(self).bytes_received()),
                )
                &&& final(self).bytes_sent() == 0
                &&& final(self).bytes_received() == 0
                &&& final(self).last_stats() == now
                &&& final(self).blocked() == old(self).blocked().restrict(
                    old(self).blocked().dom().filter(|ip: IpAddress| old(self).blocked()[ip] > now),
                )
            },
            !(old(self).last_stats() as int + STATS_INTERVAL_MS <= now) ==> {
                &&& final(out).events@ == old(out).events@
                &&& final(self).bytes_sent() == old(self).bytes_sent()
                &&& final(self).bytes_received() == old(self).bytes_received()
                &&& final(self).last_stats() == old(self).last_stats()
                &&& final(self).blocked() == old(self).blocked()
            },
    {
        if now >= self.last_stat_time && now - self.last_stat_time >= STATS_INTERVAL_MS {
            out.events.push(
                ServerEvent::BandwidthStats(
                    self.bytes_sent_this_second,
                    self.bytes_received_this_second,
                ),
            );
            self.bytes_sent_this_second = 0;
            self.bytes_received_this_second = 0;
            self.last_stat_time = now;
            self.blocked_ips.retain_above(now);
        }
    }

    /// Blocks `address` from time `now` for `timeout_secs` seconds.
    pub fn block_address(&mut self, address: IpAddress, timeout_secs: u64, now: u64)
        requires
            old(self).wf(),
        ensures
            final(self).wf(),
            final(self).blocked() == old(self).blocked().insert(
                address,
                now.saturating_add(secs_to_ms(timeout_secs)),
            ),
            final(self).packet_counts() == old(self).packet_counts(),
            final(self).limit() == old(self).limit(),
            final(self).block_duration() == old(self).block_duration(),
            final(self).handler() == old(self).handler(),
    {
        let ms = if timeout_secs > u64::MAX / 1000 {
            u64::MAX
        } else {
            timeout_secs * 1000
        };
        let expiry = now.saturating_add(ms);
        self.blocked_ips.insert(address, expiry);
    }

    /// Lifts the block of `address`.
    pub fn unblock_address(&mut self, address: IpAddress)
        requires
            old(self).wf(),
        ensures
            final(self).wf(),
            final(self).blocked() == old(self).blocked().remove(address),
            final(self).packet_counts() == old(self).packet_counts(),
            final(self).limit() == old(self).limit(),
            final(self).block_duration() == old(self).block_duration(),
            final(self).handler() == old(self).handler(),
    {
        self.blocked_ips.remove(&address);
    }

    /// Sets how many packets an address may send in one tick.
    pub fn set_packets_per_tick_limit(&mut self, limit: u32)
        requires
            old(self).wf(),
        ensures
            final(self).wf(),
            final(self).limit() == limit,
            final(self).blocked() == old(self).blocked(),
            final(self).packet_counts() == old(self).packet_counts(),
            final(self).block_duration() == old(self).block_duration(),
            final(self).handler() == old(self).handler(),
    {
        self.global_packet_limit = limit;
    }

    /// Sets the server's name.
    pub fn set_name(&mut self, name: String)
        requires
            old(self).wf(),
        ensures
            final(self).wf(),
            final(self).name() == name@,
            final(self).blocked() == old(self).blocked(),
            final(self).packet_counts() == old(self).packet_counts(),
            final(self).limit() == old(self).limit(),
            final(self).handler() == old(self).handler(),
    {
        self.server_name = name;
    }

    /// Turns the checking of ports on or off.
    pub fn set_port_check(&mut self, enabled: bool)
        requires
            old(self).wf(),
        ensures
            final(self).wf(),
            final(self).port_check() == enabled,
            final(self).blocked() == old(self).blocked(),
            final(self).packet_counts() == old(self).packet_counts(),
            final(self).limit() == old(self).limit(),
            final(self).handler() == old(self).handler(),
    {
        self.port_checking = enabled;
    }

    pub fn get_name(&self) -> (r: &str)
        ensures
            r@ == self.name(),
    {
        self.server_name.as_str()
    }

    pub fn port_checking(&self) -> (r: bool)
        ensures
            r == self.port_check(),
    {
        self.port_checking
    }
}

} // verus!
