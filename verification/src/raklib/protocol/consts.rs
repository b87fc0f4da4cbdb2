//! Message identifiers and the reliability classes of encapsulated packets.
use vstd::prelude::*;

verus! {

pub const ID_CONNECTED_PING: u8 = 0x00;
pub const ID_UNCONNECTED_PING: u8 = 0x01;
pub const ID_UNCONNECTED_PING_OPEN_CONNECTIONS: u8 = 0x02;
pub const ID_CONNECTED_PONG: u8 = 0x03;
pub const ID_DETECT_LOST_CONNECTIONS: u8 = 0x04;
pub const ID_OPEN_CONNECTION_REQUEST_1: u8 = 0x05;
pub const ID_OPEN_CONNECTION_REPLY_1: u8 = 0x06;
pub const ID_OPEN_CONNECTION_REQUEST_2: u8 = 0x07;
pub const ID_OPEN_CONNECTION_REPLY_2: u8 = 0x08;
pub const ID_CONNECTION_REQUEST: u8 = 0x09;
pub const ID_REMOTE_SYSTEM_REQUIRES_PUBLIC_KEY: u8 = 0x0a;
pub const ID_OUR_SYSTEM_REQUIRES_SECURITY: u8 = 0x0b;
pub const ID_PUBLIC_KEY_MISMATCH: u8 = 0x0c;
pub const ID_OUT_OF_BAND_INTERNAL: u8 = 0x0d;
pub const ID_SND_RECEIPT_ACKED: u8 = 0x0e;
pub const ID_SND_RECEIPT_LOSS: u8 = 0x0f;
pub const ID_CONNECTION_REQUEST_ACCEPTED: u8 = 0x10;
pub const ID_CONNECTION_ATTEMPT_FAILED: u8 = 0x11;
pub const ID_ALREADY_CONNECTED: u8 = 0x12;
pub const ID_NEW_INCOMING_CONNECTION: u8 = 0x13;
pub const ID_NO_FREE_INCOMING_CONNECTIONS: u8 = 0x14;
pub const ID_DISCONNECTION_NOTIFICATION: u8 = 0x15;
pub const ID_CONNECTION_LOST: u8 = 0x16;
pub const ID_CONNECTION_BANNED: u8 = 0x17;
pub const ID_INVALID_PASSWORD: u8 = 0x18;
pub const ID_INCOMPATIBLE_PROTOCOL_VERSION: u8 = 0x19;
pub const ID_IP_RECENTLY_CONNECTED: u8 = 0x1a;
pub const ID_TIMESTAMP: u8 = 0x1b;
pub const ID_UNCONNECTED_PONG: u8 = 0x1c;
pub const ID_ADVERTISE_SYSTEM: u8 = 0x1d;
pub const ID_DOWNLOAD_PROGRESS: u8 = 0x1e;
pub const ID_USER_PACKET_ENUM: u8 = 0x86;
pub const ID_NACK: u8 = 0xa0;
pub const ID_ACK: u8 = 0xc0;

pub const UNRELIABLE: u8 = 0;
pub const UNRELIABLE_SEQUENCED: u8 = 1;
pub const RELIABLE: u8 = 2;
pub const RELIABLE_ORDERED: u8 = 3;
pub const RELIABLE_SEQUENCED: u8 = 4;
pub const UNRELIABLE_WITH_ACK_RECEIPT: u8 = 5;
pub const RELIABLE_WITH_ACK_RECEIPT: u8 = 6;
pub const RELIABLE_ORDERED_WITH_ACK_RECEIPT: u8 = 7;

/// The number of ordering channels.
pub const MAX_ORDER_CHANNELS: usize = 32;

/// Packets of this class are resent until acknowledged and carry a message index.
pub open spec fn spec_is_reliable(reliability: u8) -> bool {
    reliability == RELIABLE || reliability == RELIABLE_ORDERED || reliability == RELIABLE_SEQUENCED
        || reliability == RELIABLE_WITH_ACK_RECEIPT || reliability
        == RELIABLE_ORDERED_WITH_ACK_RECEIPT
}

/// Packets of this class carry a sequence index.
pub open spec fn spec_is_sequenced(reliability: u8) -> bool {
    reliability == UNRELIABLE_SEQUENCED || reliability == RELIABLE_SEQUENCED
}

/// Packets of this class are delivered in order on their channel.
pub open spec fn spec_is_ordered(reliability: u8) -> bool {
    reliability == RELIABLE_ORDERED || reliability == RELIABLE_ORDERED_WITH_ACK_RECEIPT
}

/// Packets of this class carry an order index and channel.
pub open spec fn spec_is_sequenced_or_ordered(reliability: u8) -> bool {
    spec_is_sequenced(reliability) || spec_is_ordered(reliability)
}

#[verifier::when_used_as_spec(spec_is_reliable)]
pub fn is_reliable(reliability: u8) -> (r: bool)
    ensures
        r == spec_is_reliable(reliability),
{
    reliability == RELIABLE || reliability == RELIABLE_ORDERED || reliability == RELIABLE_SEQUENCED
        || reliability == RELIABLE_WITH_ACK_RECEIPT || reliability
        == RELIABLE_ORDERED_WITH_ACK_RECEIPT
}

#[verifier::when_used_as_spec(spec_is_sequenced)]
pub fn is_sequenced(reliability: u8) -> (r: bool)
    ensures
        r == spec_is_sequenced(reliability),
{
    reliability == UNRELIABLE_SEQUENCED || reliability == RELIABLE_SEQUENCED
}

#[verifier::when_used_as_spec(spec_is_ordered)]
pub fn is_ordered(reliability: u8) -> (r: bool)
    ensures
        r == spec_is_ordered(reliability),
{
    reliability == RELIABLE_ORDERED || reliability == RELIABLE_ORDERED_WITH_ACK_RECEIPT
}

#[verifier::when_used_as_spec(spec_is_sequenced_or_ordered)]
pub fn is_sequenced_or_ordered(reliability: u8) -> (r: bool)
    ensures
        r == spec_is_sequenced_or_ordered(reliability),
{
    reliability == UNRELIABLE_SEQUENCED || reliability == RELIABLE_ORDERED || reliability
        == RELIABLE_SEQUENCED || reliability == RELIABLE_ORDERED_WITH_ACK_RECEIPT
}

/// An ordered packet is never also sequenced, and every ordered or sequenced packet is
/// ordered or sequenced (the classes split cleanly).
pub proof fn lemma_reliability_classes(reliability: u8)
    ensures
        !(spec_is_ordered(reliability) && spec_is_sequenced(reliability)),
        spec_is_ordered(reliability) ==> spec_is_reliable(reliability),
        reliability == UNRELIABLE ==> !spec_is_reliable(reliability)
            && !spec_is_sequenced_or_ordered(reliability),
{
}

/// The reliability classes by number: 2, 3, 4, 6 and 7 are reliable (resent until
/// acknowledged, with a message index); 1 and 4 are sequenced; 3 and 7 are ordered; and
/// 1, 3, 4 and 7 carry an order index and channel. Nothing else is.
pub proof fn law_reliability_numbers(r: u8)
    ensures
        spec_is_reliable(r) <==> (r == 2 || r == 3 || r == 4 || r == 6 || r == 7),
        spec_is_sequenced(r) <==> (r == 1 || r == 4),
        spec_is_ordered(r) <==> (r == 3 || r == 7),
        spec_is_sequenced_or_ordered(r) <==> (r == 1 || r == 3 || r == 4 || r == 7),
{
}

} // verus!
