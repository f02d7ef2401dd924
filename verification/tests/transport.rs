use blockgame::connection::{Config, PeerIdentity, Sending};
use blockgame::envelope::{Packet, Reliability};
use blockgame::message::{ClientMessage, DecodeError};
use blockgame::peer::{Datagram, Event, Peer};

const PROTOCOL: &str = "blockgame-0.1.0";

fn settings() -> Config {
    Config {
        timeout: 1000,
        resend_interval: 100,
        heartbeat_interval: 250,
        retry_capacity: 4,
        remembered: 8,
    }
}

fn endpoint(port: u16) -> PeerIdentity {
    PeerIdentity { host: 0x0000_0000_0000_0000_0000_ffff_7f00_0001, port }
}

fn handshake(protocol: &str) -> Vec<u8> {
    Packet::Handshake { protocol: protocol.as_bytes().to_vec() }.encode()
}

/// A server that has completed a connection with `remote` at time 0.
fn server_with(remote: PeerIdentity) -> Peer {
    let mut server = Peer::start(PROTOCOL, settings());
    let receipt = server.receive(remote, &handshake(PROTOCOL), 0);
    assert_eq!(receipt.event, Some(Event::NewPeer { address: remote }));
    server
}

fn data_of(sending: Sending) -> Vec<u8> {
    match sending {
        Sending::Transmit(data) => data,
        other => panic!("nothing to transmit: {:?}", other),
    }
}

#[test]
fn a_new_peer_has_no_connections() {
    let peer = Peer::start(PROTOCOL, settings());
    assert_eq!(peer.connection_count(), 0);
    assert!(!peer.is_connected(endpoint(1)));
}

#[test]
fn connecting_sends_a_handshake_and_waits() {
    let mut client = Peer::start(PROTOCOL, settings());
    let sent = client.connect(endpoint(25566), 0);
    assert_eq!(sent, Some(Datagram { address: endpoint(25566), data: handshake(PROTOCOL) }));
    assert_eq!(client.connection_count(), 1);
    assert!(!client.is_connected(endpoint(25566)));
}

#[test]
fn connecting_twice_is_connecting_once() {
    let mut client = Peer::start(PROTOCOL, settings());
    assert!(client.connect(endpoint(25566), 0).is_some());
    assert_eq!(client.connect(endpoint(25566), 5), None);
    assert_eq!(client.connection_count(), 1);
}

#[test]
fn handshake_makes_both_sides_peers() {
    let server_at = endpoint(25566);
    let client_at = endpoint(40000);
    let mut server = Peer::start(PROTOCOL, settings());
    let mut client = Peer::start(PROTOCOL, settings());

    let hello = client.connect(server_at, 0).unwrap();
    let at_server = server.receive(client_at, &hello.data, 1);
    assert_eq!(at_server.event, Some(Event::NewPeer { address: client_at }));
    let welcome = at_server.reply.unwrap();
    assert_eq!(welcome.address, client_at);
    assert_eq!(
        Packet::decode(&welcome.data),
        Some(Packet::Welcome { protocol: PROTOCOL.as_bytes().to_vec() })
    );
    assert!(server.is_connected(client_at));

    let at_client = client.receive(server_at, &welcome.data, 2);
    assert_eq!(at_client.event, Some(Event::NewPeer { address: server_at }));
    assert_eq!(at_client.reply, None);
    assert!(client.is_connected(server_at));
}

#[test]
fn a_repeated_handshake_is_answered_but_makes_no_second_peer() {
    let remote = endpoint(40000);
    let mut server = server_with(remote);
    let again = server.receive(remote, &handshake(PROTOCOL), 10);
    assert_eq!(again.event, None);
    assert!(again.reply.is_some());
    assert_eq!(server.connection_count(), 1);
}

#[test]
fn a_welcome_is_never_answered() {
    let remote = endpoint(40000);
    let mut server = server_with(remote);
    let welcome = Packet::Welcome { protocol: PROTOCOL.as_bytes().to_vec() }.encode();
    let receipt = server.receive(remote, &welcome, 10);
    assert_eq!(receipt.event, None);
    assert_eq!(receipt.reply, None);
}

#[test]
fn a_welcome_from_a_stranger_opens_nothing() {
    let mut peer = Peer::start(PROTOCOL, settings());
    let welcome = Packet::Welcome { protocol: PROTOCOL.as_bytes().to_vec() }.encode();
    let receipt = peer.receive(endpoint(7), &welcome, 0);
    assert_eq!(receipt.event, None);
    assert_eq!(receipt.reply, None);
    assert_eq!(peer.connection_count(), 0);
}

#[test]
fn mismatched_protocol_makes_no_peer() {
    let mut server = Peer::start(PROTOCOL, settings());
    for other in ["blockgame-0.2.0", "blockgame-0.1.", "blockgame-0.1.00", "", "BLOCKGAME-0.1.0"] {
        let receipt = server.receive(endpoint(40000), &handshake(other), 0);
        assert_eq!(receipt.event, None);
        assert_eq!(receipt.reply, None);
    }
    assert_eq!(server.connection_count(), 0);
    let poll = server.poll(&vec![Datagram { address: endpoint(1), data: handshake("other-1.0") }], 5);
    assert!(poll.events.is_empty());
    assert!(poll.outgoing.is_empty());
}

#[test]
fn mismatched_welcome_leaves_the_client_waiting() {
    let server_at = endpoint(25566);
    let mut client = Peer::start(PROTOCOL, settings());
    client.connect(server_at, 0).unwrap();
    let welcome = Packet::Welcome { protocol: b"blockgame-9.9.9".to_vec() }.encode();
    let receipt = client.receive(server_at, &welcome, 1);
    assert_eq!(receipt.event, None);
    assert!(!client.is_connected(server_at));
}

#[test]
fn data_from_a_stranger_is_dropped() {
    let mut server = Peer::start(PROTOCOL, settings());
    for packet in [
        Packet::Unreliable { payload: vec![1] },
        Packet::Sequenced { sequence: 0, payload: vec![1] },
        Packet::Reliable { sequence: 0, payload: vec![1] },
        Packet::Acknowledge { sequence: 0 },
    ] {
        let receipt = server.receive(endpoint(40000), &packet.encode(), 0);
        assert_eq!(receipt.event, None);
        assert_eq!(receipt.reply, None);
    }
    assert_eq!(server.connection_count(), 0);
}

#[test]
fn data_is_dropped_while_the_handshake_is_pending() {
    let server_at = endpoint(25566);
    let mut client = Peer::start(PROTOCOL, settings());
    client.connect(server_at, 0).unwrap();
    let receipt = client.receive(server_at, &Packet::Unreliable { payload: vec![1] }.encode(), 1);
    assert_eq!(receipt.event, None);
    assert_eq!(receipt.reply, None);
}

#[test]
fn sending_opens_no_connection() {
    let mut peer = Peer::start(PROTOCOL, settings());
    assert_eq!(peer.send(endpoint(9), vec![1], Reliability::Reliable, 0), Sending::NotConnected);
    assert_eq!(peer.connection_count(), 0);
}

#[test]
fn sending_waits_for_the_handshake() {
    let mut client = Peer::start(PROTOCOL, settings());
    client.connect(endpoint(25566), 0).unwrap();
    assert_eq!(
        client.send(endpoint(25566), vec![1], Reliability::Unreliable, 1),
        Sending::NotConnected
    );
}

#[test]
fn each_tier_numbers_its_own_messages() {
    let remote = endpoint(40000);
    let mut server = server_with(remote);
    let payload = vec![42u8];
    assert_eq!(
        server.send(remote, payload.clone(), Reliability::Unreliable, 1),
        Sending::Transmit(vec![1, 42])
    );
    assert_eq!(
        server.send(remote, payload.clone(), Reliability::Sequenced, 1),
        Sending::Transmit(vec![2, 0, 0, 42])
    );
    assert_eq!(
        server.send(remote, payload.clone(), Reliability::Sequenced, 1),
        Sending::Transmit(vec![2, 1, 0, 42])
    );
    assert_eq!(
        server.send(remote, payload.clone(), Reliability::Reliable, 1),
        Sending::Transmit(vec![3, 0, 0, 42])
    );
    assert_eq!(
        server.send(remote, payload, Reliability::Sequenced, 1),
        Sending::Transmit(vec![2, 2, 0, 42])
    );
}

#[test]
fn unreliable_messages_are_delivered_as_they_come() {
    let remote = endpoint(40000);
    let mut server = server_with(remote);
    let datagram = Packet::Unreliable { payload: vec![1, 2] }.encode();
    for now in [1, 2] {
        let receipt = server.receive(remote, &datagram, now);
        assert_eq!(receipt.event, Some(Event::Message { source: remote, data: vec![1, 2] }));
        assert_eq!(receipt.reply, None);
    }
}

#[test]
fn sequenced_messages_are_delivered_latest_first_only() {
    let remote = endpoint(40000);
    let mut server = server_with(remote);
    let five = Packet::Sequenced { sequence: 5, payload: vec![5] }.encode();
    let four = Packet::Sequenced { sequence: 4, payload: vec![4] }.encode();
    let six = Packet::Sequenced { sequence: 6, payload: vec![6] }.encode();
    assert_eq!(
        server.receive(remote, &five, 1).event,
        Some(Event::Message { source: remote, data: vec![5] })
    );
    assert_eq!(server.receive(remote, &four, 2).event, None);
    assert_eq!(server.receive(remote, &five, 3).event, None);
    assert_eq!(
        server.receive(remote, &six, 4).event,
        Some(Event::Message { source: remote, data: vec![6] })
    );
}

#[test]
fn sequenced_messages_of_two_peers_do_not_mix() {
    let first = endpoint(40000);
    let second = endpoint(40001);
    let mut server = server_with(first);
    assert!(server.receive(second, &handshake(PROTOCOL), 0).event.is_some());
    let five = Packet::Sequenced { sequence: 5, payload: vec![5] }.encode();
    let four = Packet::Sequenced { sequence: 4, payload: vec![4] }.encode();
    assert!(server.receive(first, &five, 1).event.is_some());
    assert!(server.receive(second, &four, 1).event.is_some());
    assert!(server.receive(first, &four, 2).event.is_none());
}

#[test]
fn reliable_messages_are_acknowledged_and_delivered_once() {
    let remote = endpoint(40000);
    let mut server = server_with(remote);
    let datagram = Packet::Reliable { sequence: 9, payload: vec![7] }.encode();
    let acknowledgement =
        Some(Datagram { address: remote, data: Packet::Acknowledge { sequence: 9 }.encode() });

    let first = server.receive(remote, &datagram, 1);
    assert_eq!(first.event, Some(Event::Message { source: remote, data: vec![7] }));
    assert_eq!(first.reply, acknowledgement);

    let second = server.receive(remote, &datagram, 2);
    assert_eq!(second.event, None);
    assert_eq!(second.reply, acknowledgement);
}

#[test]
fn reliable_messages_arrive_in_any_order() {
    let remote = endpoint(40000);
    let mut server = server_with(remote);
    for sequence in [3u16, 1, 2] {
        let datagram = Packet::Reliable { sequence, payload: vec![sequence as u8] }.encode();
        assert_eq!(
            server.receive(remote, &datagram, 1).event,
            Some(Event::Message { source: remote, data: vec![sequence as u8] })
        );
    }
}

#[test]
fn unacknowledged_reliable_messages_are_sent_again() {
    let remote = endpoint(40000);
    let mut server = server_with(remote);
    let datagram = data_of(server.send(remote, vec![1, 2, 3], Reliability::Reliable, 10));
    assert!(server.poll(&Vec::new(), 109).outgoing.is_empty());
    let again = Datagram { address: remote, data: datagram };
    assert_eq!(server.poll(&Vec::new(), 110).outgoing, vec![again.clone()]);
    assert!(server.poll(&Vec::new(), 200).outgoing.is_empty());
    assert_eq!(server.poll(&Vec::new(), 210).outgoing, vec![again]);
}

#[test]
fn an_acknowledgement_ends_the_resending() {
    let remote = endpoint(40000);
    let mut server = server_with(remote);
    let datagram = data_of(server.send(remote, vec![1], Reliability::Reliable, 10));
    assert_eq!(Packet::decode(&datagram), Some(Packet::Reliable { sequence: 0, payload: vec![1] }));
    let receipt = server.receive(remote, &Packet::Acknowledge { sequence: 0 }.encode(), 20);
    assert_eq!(receipt.event, None);
    assert_eq!(receipt.reply, None);
    assert!(server.poll(&Vec::new(), 110).outgoing.is_empty());
    assert!(server.poll(&Vec::new(), 200).outgoing.is_empty());
}

#[test]
fn reliable_delivery_end_to_end() {
    let server_at = endpoint(25566);
    let client_at = endpoint(40000);
    let mut server = Peer::start(PROTOCOL, settings());
    let mut client = Peer::start(PROTOCOL, settings());
    let hello = client.connect(server_at, 0).unwrap();
    let welcome = server.receive(client_at, &hello.data, 0).reply.unwrap();
    client.receive(server_at, &welcome.data, 0);

    let lost = data_of(client.send(server_at, vec![9, 9], Reliability::Reliable, 10));
    let resent = client.poll(&Vec::new(), 120).outgoing;
    assert_eq!(resent, vec![Datagram { address: server_at, data: lost }]);

    let at_server = server.poll(&vec![Datagram { address: client_at, data: resent[0].data.clone() }], 121);
    assert_eq!(at_server.events, vec![Event::Message { source: client_at, data: vec![9, 9] }]);
    assert_eq!(at_server.outgoing.len(), 1);

    let back = Datagram { address: server_at, data: at_server.outgoing[0].data.clone() };
    let at_client = client.poll(&vec![back], 122);
    assert!(at_client.events.is_empty());
    assert!(client.poll(&Vec::new(), 230).outgoing.is_empty());
}

#[test]
fn a_full_retry_buffer_gives_the_connection_up() {
    let remote = endpoint(40000);
    let mut server = server_with(remote);
    for _ in 0..4 {
        assert!(matches!(
            server.send(remote, vec![1], Reliability::Reliable, 1),
            Sending::Transmit(_)
        ));
    }
    assert_eq!(server.send(remote, vec![1], Reliability::Reliable, 1), Sending::Overflow);
    assert!(!server.is_connected(remote));
    assert_eq!(server.send(remote, vec![1], Reliability::Unreliable, 1), Sending::NotConnected);
    let poll = server.poll(&Vec::new(), 2);
    assert_eq!(poll.events, vec![Event::PeerTimedOut { address: remote }]);
    assert!(poll.outgoing.is_empty());
    assert_eq!(server.connection_count(), 0);
}

#[test]
fn a_connection_given_up_hears_nothing() {
    let remote = endpoint(40000);
    let mut server = server_with(remote);
    for _ in 0..5 {
        server.send(remote, vec![1], Reliability::Reliable, 1);
    }
    let receipt = server.receive(remote, &Packet::Unreliable { payload: vec![1] }.encode(), 2);
    assert_eq!(receipt.event, None);
    assert_eq!(server.poll(&Vec::new(), 3).events, vec![Event::PeerTimedOut { address: remote }]);
}

#[test]
fn silence_times_a_connection_out_once() {
    let remote = endpoint(40000);
    let mut server = server_with(remote);
    assert!(server.poll(&Vec::new(), 1000).events.is_empty());
    assert_eq!(server.connection_count(), 1);
    assert_eq!(
        server.poll(&Vec::new(), 1001).events,
        vec![Event::PeerTimedOut { address: remote }]
    );
    assert_eq!(server.connection_count(), 0);
    assert!(server.poll(&Vec::new(), 1002).events.is_empty());
    assert!(server.poll(&Vec::new(), 5000).events.is_empty());
}

#[test]
fn sweep_reports_only_the_expired() {
    let mut server = Peer::start(PROTOCOL, settings());
    server.receive(endpoint(1), &handshake(PROTOCOL), 0);
    server.receive(endpoint(2), &handshake(PROTOCOL), 500);
    server.receive(endpoint(3), &handshake(PROTOCOL), 0);
    assert_eq!(
        server.sweep(1200),
        vec![
            Event::PeerTimedOut { address: endpoint(1) },
            Event::PeerTimedOut { address: endpoint(3) }
        ]
    );
    assert_eq!(server.connection_count(), 1);
    assert!(server.is_connected(endpoint(2)));
    assert!(server.sweep(1200).is_empty());
}

#[test]
fn every_packet_heard_puts_the_timeout_off() {
    let remote = endpoint(40000);
    let mut server = server_with(remote);
    let packets = [
        Packet::Unreliable { payload: vec![1] },
        Packet::Sequenced { sequence: 1, payload: vec![1] },
        Packet::Sequenced { sequence: 1, payload: vec![1] },
        Packet::Reliable { sequence: 1, payload: vec![1] },
        Packet::Acknowledge { sequence: 77 },
        Packet::Handshake { protocol: PROTOCOL.as_bytes().to_vec() },
        Packet::Welcome { protocol: PROTOCOL.as_bytes().to_vec() },
    ];
    let mut now = 0;
    for packet in packets {
        now += 900;
        server.receive(remote, &packet.encode(), now);
        assert!(server.poll(&Vec::new(), now + 1000).events.is_empty());
    }
    assert_eq!(
        server.poll(&Vec::new(), now + 1001).events,
        vec![Event::PeerTimedOut { address: remote }]
    );
}

#[test]
fn what_is_not_heard_does_not_put_the_timeout_off() {
    let remote = endpoint(40000);
    let mut server = server_with(remote);
    server.receive(remote, &Vec::new(), 900);
    server.receive(remote, &vec![99, 1, 2], 900);
    server.receive(remote, &handshake("blockgame-0.2.0"), 900);
    server.receive(endpoint(40001), &Packet::Unreliable { payload: vec![1] }.encode(), 900);
    assert_eq!(
        server.poll(&Vec::new(), 1001).events,
        vec![Event::PeerTimedOut { address: remote }]
    );
}

#[test]
fn an_empty_payload_is_malformed_but_heard() {
    let remote = endpoint(40000);
    let tiers = [
        Packet::Unreliable { payload: Vec::new() },
        Packet::Sequenced { sequence: 3, payload: Vec::new() },
        Packet::Reliable { sequence: 3, payload: Vec::new() },
    ];
    for packet in tiers {
        let mut server = server_with(remote);
        let receipt = server.receive(remote, &packet.encode(), 900);
        match receipt.event {
            Some(Event::Message { source, data }) => {
                assert_eq!(source, remote);
                assert!(data.is_empty());
                assert_eq!(ClientMessage::deserialize(&data), Err(DecodeError::Malformed));
            }
            other => panic!("no message: {:?}", other),
        }
        assert!(server.poll(&Vec::new(), 1900).events.is_empty());
        assert_eq!(
            server.poll(&Vec::new(), 1901).events,
            vec![Event::PeerTimedOut { address: remote }]
        );
    }
}

#[test]
fn a_peer_that_comes_back_is_a_new_peer() {
    let remote = endpoint(40000);
    let mut server = server_with(remote);
    assert_eq!(server.poll(&Vec::new(), 2000).events.len(), 1);
    let poll = server.poll(&vec![Datagram { address: remote, data: handshake(PROTOCOL) }], 2001);
    assert_eq!(poll.events, vec![Event::NewPeer { address: remote }]);
    assert!(server.is_connected(remote));
}

#[test]
fn a_pending_connection_asks_again_and_is_given_up() {
    let server_at = endpoint(25566);
    let mut client = Peer::start(PROTOCOL, settings());
    client.connect(server_at, 0).unwrap();
    let ask = Datagram { address: server_at, data: handshake(PROTOCOL) };
    assert!(client.poll(&Vec::new(), 249).outgoing.is_empty());
    assert_eq!(client.poll(&Vec::new(), 250).outgoing, vec![ask.clone()]);
    assert!(client.poll(&Vec::new(), 499).outgoing.is_empty());
    assert_eq!(client.poll(&Vec::new(), 500).outgoing, vec![ask]);
    let poll = client.poll(&Vec::new(), 1001);
    assert_eq!(poll.events, vec![Event::PeerTimedOut { address: server_at }]);
    assert!(poll.outgoing.is_empty());
}

#[test]
fn a_quiet_connection_shows_that_it_is_there() {
    let remote = endpoint(40000);
    let mut server = server_with(remote);
    server.send(remote, vec![1], Reliability::Unreliable, 100);
    assert!(server.poll(&Vec::new(), 349).outgoing.is_empty());
    assert_eq!(
        server.poll(&Vec::new(), 350).outgoing,
        vec![Datagram { address: remote, data: handshake(PROTOCOL) }]
    );
}

#[test]
fn poll_reports_in_the_order_of_arrival_then_timeouts() {
    let old = endpoint(1);
    let mut server = server_with(old);
    let incoming = vec![
        Datagram { address: endpoint(2), data: handshake(PROTOCOL) },
        Datagram { address: endpoint(2), data: Packet::Unreliable { payload: vec![1] }.encode() },
        Datagram { address: endpoint(3), data: handshake("nope") },
        Datagram { address: endpoint(2), data: Packet::Reliable { sequence: 0, payload: vec![2] }.encode() },
    ];
    let poll = server.poll(&incoming, 1500);
    assert_eq!(
        poll.events,
        vec![
            Event::NewPeer { address: endpoint(2) },
            Event::Message { source: endpoint(2), data: vec![1] },
            Event::Message { source: endpoint(2), data: vec![2] },
            Event::PeerTimedOut { address: old },
        ]
    );
    assert_eq!(
        poll.outgoing,
        vec![
            Datagram {
                address: endpoint(2),
                data: Packet::Welcome { protocol: PROTOCOL.as_bytes().to_vec() }.encode()
            },
            Datagram { address: endpoint(2), data: Packet::Acknowledge { sequence: 0 }.encode() },
        ]
    );
}

#[test]
fn an_idle_poll_is_empty() {
    let mut peer = Peer::start(PROTOCOL, settings());
    let poll = peer.poll(&Vec::new(), 12345);
    assert!(poll.events.is_empty());
    assert!(poll.outgoing.is_empty());
}

#[test]
fn stopping_takes_the_peer_away() {
    let server = server_with(endpoint(40000));
    server.stop();
}
