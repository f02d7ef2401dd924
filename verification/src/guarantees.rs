//! What the transport promises, stated over the model of a connection and of
//! the peer and proved from it: that the latest sequenced message wins, that
//! a reliable message goes out again until it is acknowledged, who is given up
//! and when, who can become a peer, that a poll is bounded, and what an empty
//! payload does.

use vstd::prelude::*;
use crate::connection::{Config, ConnectionState, ConnectionView, PeerIdentity};
use crate::envelope::{PacketView, lemma_packet_round_trip, packet_bytes, parse_packet};
use crate::message::{ClientMessage, DecodeError, ServerMessage};
use crate::peer::{DatagramView, EventView, PeerView, casualties, distinct, survivors};
use crate::reliable::{
    after_resend,
    as_resend,
    due_entries,
    holds_sequence,
    is_due,
    lemma_due_is_resent,
    lemma_resend_leaves_none_due,
    lemma_without_drops,
};
use crate::sequence::{SEQUENCE_WINDOW, SequencedReceiver};

verus! {

/// Latest wins, on a complete connection. Take two sequenced messages numbered
/// `earlier < later`, less than a window apart, where the later one is newer
/// than what was delivered before. Whichever of the two arrives first, the
/// later one is delivered, nothing is delivered after it, and it is the one
/// that the connection remembers.
pub proof fn lemma_latest_sequenced_wins(
    connection: ConnectionView,
    earlier: u16,
    first: Seq<u8>,
    later: u16,
    second: Seq<u8>,
    protocol: Seq<u8>,
    now: u64,
)
    requires
        connection.state == ConnectionState::Connected,
        earlier < later,
        later - earlier < SEQUENCE_WINDOW,
        (SequencedReceiver { latest: connection.sequenced_in }).accepts(later),
    ensures
        ({
            let old_packet = PacketView::Sequenced { sequence: earlier, payload: first };
            let new_packet = PacketView::Sequenced { sequence: later, payload: second };
            let in_order = connection.handled(old_packet, protocol, now).connection.handled(
                new_packet,
                protocol,
                now,
            );
            let new_first = connection.handled(new_packet, protocol, now);
            let swapped = new_first.connection.handled(old_packet, protocol, now);
            &&& in_order.delivered == Some(second)
            &&& in_order.connection.sequenced_in == Some(later)
            &&& new_first.delivered == Some(second)
            &&& swapped.delivered.is_none()
            &&& swapped.connection.sequenced_in == Some(later)
        }),
{
    SequencedReceiver::lemma_latest_wins(
        SequencedReceiver { latest: connection.sequenced_in },
        earlier,
        later,
    );
}

/// An acknowledgement that is heard releases the reliable message it names:
/// afterwards no message with that number waits.
pub proof fn lemma_acknowledged_is_released(
    connection: ConnectionView,
    sequence: u16,
    protocol: Seq<u8>,
    now: u64,
)
    requires
        connection.state == ConnectionState::Connected,
    ensures
        !holds_sequence(
            connection.handled(PacketView::Acknowledge { sequence }, protocol, now).connection.retry,
            sequence,
        ),
{
    lemma_without_drops(connection.retry, sequence);
}

/// A reliable message that waits on a connection that was not given up goes
/// out again in every upkeep at which a whole resend interval has passed
/// since it last went out, and it keeps waiting. After the upkeep no message
/// is due any more, so with an upkeep at least once per interval every
/// waiting message goes out at least once per interval.
pub proof fn lemma_waiting_goes_out_again(
    connection: ConnectionView,
    protocol: Seq<u8>,
    now: u64,
    config: Config,
    i: int,
)
    requires
        connection.state != ConnectionState::TimedOut,
        config.resend_interval > 0,
        0 <= i < connection.retry.len(),
        is_due(connection.retry[i], now, config.resend_interval),
    ensures
        connection.maintained(protocol, now, config).datagrams.contains(
            packet_bytes(
                PacketView::Reliable {
                    sequence: connection.retry[i].sequence,
                    payload: connection.retry[i].payload,
                },
            ),
        ),
        connection.maintained(protocol, now, config).connection.retry.len()
            == connection.retry.len(),
        connection.maintained(protocol, now, config).connection.retry[i].sequence
            == connection.retry[i].sequence,
        connection.maintained(protocol, now, config).connection.retry[i].payload
            == connection.retry[i].payload,
        forall|k: int|
            0 <= k < connection.retry.len() ==> !is_due(
                #[trigger] connection.maintained(protocol, now, config).connection.retry[k],
                now,
                config.resend_interval,
            ),
{
    let due = due_entries(connection.retry, now, config.resend_interval);
    lemma_due_is_resent(connection.retry, now, config.resend_interval, i);
    lemma_resend_leaves_none_due(connection.retry, now, config.resend_interval);
    let k = choose|k: int| 0 <= k < due.len() && due[k] == as_resend(connection.retry[i]);
    let sent = connection.maintained(protocol, now, config).datagrams;
    assert(sent[k] == packet_bytes(
        PacketView::Reliable {
            sequence: connection.retry[i].sequence,
            payload: connection.retry[i].payload,
        },
    ));
    assert(connection.maintained(protocol, now, config).connection.retry == after_resend(
        connection.retry,
        now,
        config.resend_interval,
    ));
}

/// The packet counts as heard by the connection: the connection has not been
/// given up, and the packet is a handshake or a welcome with our protocol
/// identifier, or anything else once the connection is complete.
pub open spec fn heard(connection: ConnectionView, packet: PacketView, protocol: Seq<u8>) -> bool {
    connection.state != ConnectionState::TimedOut && match packet {
        PacketView::Handshake { protocol: theirs } => theirs == protocol,
        PacketView::Welcome { protocol: theirs } => theirs == protocol,
        _ => connection.state == ConnectionState::Connected,
    }
}

/// A connection was last seen exactly when it last heard a packet: a packet
/// that is heard sets the time, any other leaves the connection as it was. No
/// packet makes a connection give up, and none revives one that was given up.
pub proof fn lemma_last_seen_is_last_heard(
    connection: ConnectionView,
    packet: PacketView,
    protocol: Seq<u8>,
    now: u64,
)
    ensures
        heard(connection, packet, protocol) ==> connection.handled(
            packet,
            protocol,
            now,
        ).connection.last_seen == now,
        !heard(connection, packet, protocol) ==> connection.handled(packet, protocol, now)
            == connection.ignored(),
        connection.handled(packet, protocol, now).connection.identity == connection.identity,
        (connection.handled(packet, protocol, now).connection.state == ConnectionState::TimedOut)
            == (connection.state == ConnectionState::TimedOut),
{
}

/// A connection that was not given up for another reason expires exactly when
/// nothing was heard from it for longer than the timeout.
pub proof fn lemma_expires_by_silence(connection: ConnectionView, now: u64, timeout: u64)
    requires
        connection.state != ConnectionState::TimedOut,
    ensures
        connection.expired(now, timeout) <==> now - connection.last_seen > timeout,
{
}

/// Some connection to `identity` has expired.
pub open spec fn expired_at(
    connections: Seq<ConnectionView>,
    identity: PeerIdentity,
    now: u64,
    timeout: u64,
) -> bool {
    exists|j: int|
        0 <= j < connections.len() && (#[trigger] connections[j]).identity == identity
            && connections[j].expired(now, timeout)
}

/// Some connection to `identity` is in the table.
pub open spec fn listed(connections: Seq<ConnectionView>, identity: PeerIdentity) -> bool {
    exists|j: int| 0 <= j < connections.len() && (#[trigger] connections[j]).identity == identity
}

/// The reports of a sweep are reports of timeouts, and an endpoint is
/// reported exactly if its connection has expired.
pub proof fn lemma_reported_iff_expired(
    connections: Seq<ConnectionView>,
    identity: PeerIdentity,
    now: u64,
    timeout: u64,
)
    ensures
        casualties(connections, now, timeout).contains(EventView::PeerTimedOut { address: identity })
            <==> expired_at(connections, identity, now, timeout),
        forall|k: int|
            0 <= k < casualties(connections, now, timeout).len() ==> (#[trigger] casualties(
                connections,
                now,
                timeout,
            )[k]) is PeerTimedOut,
    decreases connections.len(),
{
    let report = EventView::PeerTimedOut { address: identity };
    let reports = casualties(connections, now, timeout);
    if connections.len() > 0 {
        let shorter = connections.drop_last();
        let last = connections.last();
        let earlier = casualties(shorter, now, timeout);
        lemma_reported_iff_expired(shorter, identity, now, timeout);
        if reports.contains(report) {
            let k = choose|k: int| 0 <= k < reports.len() && reports[k] == report;
            if k < earlier.len() {
                assert(earlier[k] == report);
                assert(earlier.contains(report));
                let j = choose|j: int|
                    0 <= j < shorter.len() && (#[trigger] shorter[j]).identity == identity
                        && shorter[j].expired(now, timeout);
                assert(connections[j].identity == identity);
            } else {
                assert(connections[connections.len() - 1].identity == identity);
            }
        }
        if expired_at(connections, identity, now, timeout) {
            let j = choose|j: int|
                0 <= j < connections.len() && (#[trigger] connections[j]).identity == identity
                    && connections[j].expired(now, timeout);
            if j < shorter.len() {
                assert(shorter[j].identity == identity);
                assert(earlier.contains(report));
                let k = choose|k: int| 0 <= k < earlier.len() && earlier[k] == report;
                assert(reports[k] == report);
            } else {
                assert(reports[reports.len() - 1] == report);
            }
        }
        assert forall|k: int| 0 <= k < reports.len() implies (#[trigger] reports[k]) is PeerTimedOut by {
            if k < earlier.len() {
                assert(reports[k] == earlier[k]);
            }
        }
    }
}

/// Where no endpoint has two connections, no endpoint is reported twice by
/// one sweep.
pub proof fn lemma_reported_once(connections: Seq<ConnectionView>, now: u64, timeout: u64)
    requires
        distinct(connections),
    ensures
        forall|a: int, b: int|
            0 <= a < b < casualties(connections, now, timeout).len() ==> casualties(
                connections,
                now,
                timeout,
            )[a] != casualties(connections, now, timeout)[b],
    decreases connections.len(),
{
    let reports = casualties(connections, now, timeout);
    if connections.len() > 0 {
        let shorter = connections.drop_last();
        let last = connections.last();
        let earlier = casualties(shorter, now, timeout);
        assert forall|a: int, b: int|
            0 <= a < shorter.len() && 0 <= b < shorter.len() && a != b implies (
        #[trigger] shorter[a]).identity != (#[trigger] shorter[b]).identity by {
            assert(shorter[a] == connections[a]);
            assert(shorter[b] == connections[b]);
        }
        lemma_reported_once(shorter, now, timeout);
        assert forall|a: int, b: int| 0 <= a < b < reports.len() implies reports[a]
            != reports[b] by {
            if b < earlier.len() {
                assert(reports[a] == earlier[a] && reports[b] == earlier[b]);
            } else {
                assert(reports[b] == EventView::PeerTimedOut { address: last.identity });
                assert(reports[a] == earlier[a]);
                if earlier[a] == reports[b] {
                    assert(earlier.contains(EventView::PeerTimedOut { address: last.identity }));
                    lemma_reported_iff_expired(shorter, last.identity, now, timeout);
                    let j = choose|j: int|
                        0 <= j < shorter.len() && (#[trigger] shorter[j]).identity == last.identity
                            && shorter[j].expired(now, timeout);
                    assert(connections[j].identity == connections[connections.len()
                        - 1].identity);
                }
            }
        }
    }
}

/// An endpoint stays in the table through a sweep exactly if it had a
/// connection that has not expired; with one connection to an endpoint at
/// most, a reported endpoint is gone, so that it cannot be reported again.
pub proof fn lemma_kept_iff_not_expired(
    connections: Seq<ConnectionView>,
    identity: PeerIdentity,
    now: u64,
    timeout: u64,
)
    requires
        distinct(connections),
    ensures
        listed(survivors(connections, now, timeout), identity) <==> listed(connections, identity)
            && !expired_at(connections, identity, now, timeout),
    decreases connections.len(),
{
    let kept = survivors(connections, now, timeout);
    if connections.len() > 0 {
        let shorter = connections.drop_last();
        let last = connections.last();
        let earlier = survivors(shorter, now, timeout);
        assert forall|a: int, b: int|
            0 <= a < shorter.len() && 0 <= b < shorter.len() && a != b implies (
        #[trigger] shorter[a]).identity != (#[trigger] shorter[b]).identity by {
            assert(shorter[a] == connections[a]);
            assert(shorter[b] == connections[b]);
        }
        lemma_kept_iff_not_expired(shorter, identity, now, timeout);
        if listed(kept, identity) {
            let k = choose|k: int| 0 <= k < kept.len() && (#[trigger] kept[k]).identity == identity;
            if k < earlier.len() {
                assert(earlier[k].identity == identity);
                assert(listed(earlier, identity));
                let j = choose|j: int|
                    0 <= j < shorter.len() && (#[trigger] shorter[j]).identity == identity;
                assert(connections[j].identity == identity);
                if expired_at(connections, identity, now, timeout) {
                    let e = choose|e: int|
                        0 <= e < connections.len() && (#[trigger] connections[e]).identity
                            == identity && connections[e].expired(now, timeout);
                    if e < shorter.len() {
                        assert(shorter[e].identity == identity);
                    } else {
                        assert(connections[j].identity != connections[e].identity);
                    }
                }
            } else {
                let n = connections.len() - 1;
                assert(connections[n].identity == identity);
                if expired_at(connections, identity, now, timeout) {
                    let e = choose|e: int|
                        0 <= e < connections.len() && (#[trigger] connections[e]).identity
                            == identity && connections[e].expired(now, timeout);
                    if e != n {
                        assert(connections[e].identity != connections[n].identity);
                    }
                }
            }
        }
        if listed(connections, identity) && !expired_at(connections, identity, now, timeout) {
            let j = choose|j: int|
                0 <= j < connections.len() && (#[trigger] connections[j]).identity == identity;
            if j < shorter.len() {
                assert(shorter[j].identity == identity);
                if expired_at(shorter, identity, now, timeout) {
                    let e = choose|e: int|
                        0 <= e < shorter.len() && (#[trigger] shorter[e]).identity == identity
                            && shorter[e].expired(now, timeout);
                    assert(connections[e].identity == identity);
                }
                assert(listed(earlier, identity));
                let k = choose|k: int|
                    0 <= k < earlier.len() && (#[trigger] earlier[k]).identity == identity;
                assert(kept[k].identity == identity);
            } else {
                assert(connections[j].identity == identity);
                assert(!last.expired(now, timeout));
                assert(kept[kept.len() - 1].identity == identity);
            }
        }
    }
}

/// A poll hands back a bounded batch: at most one event for each datagram
/// that arrived, and at most one more for each connection that was there or
/// was opened by one of them.
pub proof fn lemma_poll_is_bounded(peer: PeerView, incoming: Seq<DatagramView>, now: u64)
    ensures
        peer.polled(incoming, now).events.len() <= 2 * incoming.len() + peer.connections.len(),
        peer.polled(incoming, now).peer.connections.len() <= incoming.len()
            + peer.connections.len(),
{
    lemma_arrivals_are_bounded(peer, incoming, now);
    let heard = peer.received_all(incoming, now);
    lemma_kept_or_reported(heard.peer.connections, now, peer.config.timeout);
}

proof fn lemma_arrivals_are_bounded(peer: PeerView, incoming: Seq<DatagramView>, now: u64)
    ensures
        peer.received_all(incoming, now).events.len() <= incoming.len(),
        peer.received_all(incoming, now).outgoing.len() <= incoming.len(),
        peer.received_all(incoming, now).peer.connections.len() <= incoming.len()
            + peer.connections.len(),
    decreases incoming.len(),
{
    if incoming.len() > 0 {
        lemma_arrivals_are_bounded(peer, incoming.drop_last(), now);
    }
}

/// A sweep keeps a connection or reports it: none is lost and none is
/// counted twice.
pub proof fn lemma_kept_or_reported(connections: Seq<ConnectionView>, now: u64, timeout: u64)
    ensures
        casualties(connections, now, timeout).len() + survivors(connections, now, timeout).len()
            == connections.len(),
    decreases connections.len(),
{
    if connections.len() > 0 {
        lemma_kept_or_reported(connections.drop_last(), now, timeout);
    }
}

/// The datagram shows our protocol identifier: it is a handshake or a welcome
/// that carries it.
pub open spec fn shows_protocol(data: Seq<u8>, protocol: Seq<u8>) -> bool {
    match parse_packet(data) {
        Some(PacketView::Handshake { protocol: theirs }) => theirs == protocol,
        Some(PacketView::Welcome { protocol: theirs }) => theirs == protocol,
        _ => false,
    }
}

/// The datagram is a handshake or a welcome with another protocol identifier
/// than ours.
pub open spec fn shows_other_protocol(data: Seq<u8>, protocol: Seq<u8>) -> bool {
    match parse_packet(data) {
        Some(PacketView::Handshake { protocol: theirs }) => theirs != protocol,
        Some(PacketView::Welcome { protocol: theirs }) => theirs != protocol,
        _ => false,
    }
}

/// A handshake or a welcome with another protocol identifier than ours does
/// nothing at all: no connection is opened or changed, nothing is reported and
/// nothing is answered.
pub proof fn lemma_mismatch_is_dropped(peer: PeerView, source: PeerIdentity, data: Seq<u8>, now: u64)
    requires
        shows_other_protocol(data, peer.protocol),
    ensures
        peer.received(source, data, now).peer == peer,
        peer.received(source, data, now).event.is_none(),
        peer.received(source, data, now).reply.is_none(),
{
    if peer.knows(source) {
        let i = peer.slot(source);
        assert(peer.connections.update(i, peer.connections[i]) =~= peer.connections);
    }
}

/// Only a datagram that shows our protocol identifier can make its sender a
/// new peer.
pub proof fn lemma_new_peer_shows_protocol(
    peer: PeerView,
    source: PeerIdentity,
    data: Seq<u8>,
    now: u64,
)
    ensures
        peer.received(source, data, now).event matches Some(EventView::NewPeer { address })
            ==> address == source && shows_protocol(data, peer.protocol),
{
}

/// Where none of the arriving datagrams shows our protocol identifier, a poll
/// reports no new peer.
pub proof fn lemma_no_peer_without_protocol(peer: PeerView, incoming: Seq<DatagramView>, now: u64)
    requires
        forall|i: int|
            0 <= i < incoming.len() ==> !shows_protocol(
                (#[trigger] incoming[i]).data,
                peer.protocol,
            ),
    ensures
        forall|k: int|
            0 <= k < peer.polled(incoming, now).events.len() ==> !((#[trigger] peer.polled(
                incoming,
                now,
            ).events[k]) is NewPeer),
{
    lemma_none_heard_shows_protocol(peer, incoming, now);
    let heard = peer.received_all(incoming, now);
    let given_up = casualties(heard.peer.connections, now, peer.config.timeout);
    lemma_reported_iff_expired(
        heard.peer.connections,
        PeerIdentity { host: 0, port: 0 },
        now,
        peer.config.timeout,
    );
    let events = peer.polled(incoming, now).events;
    assert forall|k: int| 0 <= k < events.len() implies !((#[trigger] events[k]) is NewPeer) by {
        if k < heard.events.len() {
            assert(events[k] == heard.events[k]);
        } else {
            assert(events[k] == given_up[k - heard.events.len()]);
        }
    }
}

proof fn lemma_none_heard_shows_protocol(peer: PeerView, incoming: Seq<DatagramView>, now: u64)
    requires
        forall|i: int|
            0 <= i < incoming.len() ==> !shows_protocol(
                (#[trigger] incoming[i]).data,
                peer.protocol,
            ),
    ensures
        peer.received_all(incoming, now).peer.protocol == peer.protocol,
        forall|k: int|
            0 <= k < peer.received_all(incoming, now).events.len() ==> !((
            #[trigger] peer.received_all(incoming, now).events[k]) is NewPeer),
    decreases incoming.len(),
{
    if incoming.len() > 0 {
        let shorter = incoming.drop_last();
        assert forall|i: int| 0 <= i < shorter.len() implies !shows_protocol(
            (#[trigger] shorter[i]).data,
            peer.protocol,
        ) by {
            assert(shorter[i] == incoming[i]);
        }
        lemma_none_heard_shows_protocol(peer, shorter, now);
        let earlier = peer.received_all(shorter, now);
        let last = incoming[incoming.len() - 1];
        lemma_new_peer_shows_protocol(earlier.peer, last.address, last.data, now);
        let events = peer.received_all(incoming, now).events;
        assert forall|k: int| 0 <= k < events.len() implies !((#[trigger] events[k]) is NewPeer) by {
            if k < earlier.events.len() {
                assert(events[k] == earlier.events[k]);
            }
        }
    }
}

/// A data packet with an empty payload is still heard: on a complete
/// connection it sets the time the endpoint was last seen, whatever its tier.
/// What it delivers, if anything, is the empty payload, which no side can
/// decode: it is malformed.
pub proof fn lemma_empty_payload_is_heard(
    peer: PeerView,
    source: PeerIdentity,
    packet: PacketView,
    now: u64,
)
    requires
        peer.connected(source),
        packet == (PacketView::Unreliable { payload: Seq::empty() }) || (exists|sequence: u16|
            packet == (PacketView::Sequenced { sequence, payload: Seq::empty() }) || packet == (
            PacketView::Reliable { sequence, payload: Seq::empty() })),
    ensures
        peer.received(source, packet_bytes(packet), now).peer.connections[peer.slot(
            source,
        )].last_seen == now,
        peer.received(source, packet_bytes(packet), now).event matches Some(event) ==> event == (
        EventView::Message { source, data: Seq::empty() }),
        ClientMessage::parse(Seq::<u8>::empty()) == Err::<ClientMessage, DecodeError>(
            DecodeError::Malformed,
        ),
        ServerMessage::parse(Seq::<u8>::empty()) == Err::<ServerMessage, DecodeError>(
            DecodeError::Malformed,
        ),
{
    lemma_packet_round_trip(packet);
}

} // verus!
