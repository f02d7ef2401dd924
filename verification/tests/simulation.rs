use blockgame::client::Connection;
use blockgame::connection::{Config, PeerIdentity};
use blockgame::envelope::Packet;
use blockgame::message::{
    ClientMessage, PlayerFrame, PlayerUpdate, Point3, ServerMessage, Vector2,
};
use blockgame::peer::{Datagram, Event, Peer};
use blockgame::server::{Player, PlayerRecord, Players, Server, PROTOCOL};

const SPEED: f32 = 2.0;

const DELTA: f32 = 1.0 / 30.0;

fn sim_settings() -> Config {
    Config {
        timeout: 1000,
        resend_interval: 100,
        heartbeat_interval: 250,
        retry_capacity: 16,
        remembered: 64,
    }
}

fn sim_endpoint(port: u16) -> PeerIdentity {
    PeerIdentity { host: 0x0000_0000_0000_0000_0000_ffff_7f00_0001, port }
}

fn bits2(x: f32, y: f32) -> Vector2 {
    Vector2 { x: x.to_bits(), y: y.to_bits() }
}

fn bits3(x: f32, y: f32, z: f32) -> Point3 {
    Point3 { x: x.to_bits(), y: y.to_bits(), z: z.to_bits() }
}

fn frame_payload(x: f32, y: f32) -> Vec<u8> {
    ClientMessage::PlayerFrame(PlayerFrame { input: bits2(x, y) }).serialize()
}

fn update_payload(x: f32, y: f32, z: f32) -> Vec<u8> {
    ServerMessage::PlayerUpdate(PlayerUpdate { position: bits3(x, y, z) }).serialize()
}

/// One step of every player, as the server's loop does it between taking the
/// events in and sending the snapshots out.
fn step_players(players: &mut Players) {
    for index in 0..players.len() {
        let PlayerRecord { address, player } = players.record(index).unwrap();
        let mut x = f32::from_bits(player.input.x);
        let mut y = f32::from_bits(player.input.y);
        if x != 0.0 || y != 0.0 {
            let length = (x * x + y * y).sqrt();
            x /= length;
            y /= length;
        }
        let mut position = player.position;
        position.x = (f32::from_bits(position.x) + x * DELTA * SPEED).to_bits();
        position.z = (f32::from_bits(position.z) + y * DELTA * SPEED).to_bits();
        players.set_position(address, position);
    }
}

/// A client and a server that have shaken hands at time 0.
fn connected_pair(server_at: PeerIdentity, client_at: PeerIdentity) -> (Connection, Peer, Players) {
    let mut server = Peer::start(PROTOCOL, sim_settings());
    let mut players = Players::new();
    let (mut client, hello) = Connection::new(server_at, PROTOCOL, sim_settings(), 0);
    let hello = hello.unwrap();
    assert_eq!(hello.address, server_at);
    let poll = server.poll(&vec![Datagram { address: client_at, data: hello.data }], 0);
    players.apply_all(&poll.events);
    let answers: Vec<Datagram> = poll
        .outgoing
        .into_iter()
        .map(|d| Datagram { address: server_at, data: d.data })
        .collect();
    let mut position = bits3(0.0, 40.0, 0.0);
    client.update(&answers, 0, &mut position);
    assert!(client.is_connected());
    (client, server, players)
}

#[test]
fn a_new_player_rests_above_the_origin() {
    let player = Player::new();
    assert_eq!(player.input, bits2(0.0, 0.0));
    assert_eq!(player.position, bits3(0.0, 40.0, 0.0));
}

#[test]
fn players_enter_and_leave_with_their_peers() {
    let mut players = Players::new();
    players.apply(&Event::NewPeer { address: sim_endpoint(1) });
    players.apply(&Event::NewPeer { address: sim_endpoint(2) });
    assert_eq!(players.len(), 2);
    assert_eq!(players.get(sim_endpoint(1)), Some(Player::new()));
    players.apply(&Event::PeerTimedOut { address: sim_endpoint(1) });
    assert_eq!(players.len(), 1);
    assert_eq!(players.get(sim_endpoint(1)), None);
    assert_eq!(
        players.record(0),
        Some(PlayerRecord { address: sim_endpoint(2), player: Player::new() })
    );
    assert_eq!(players.record(1), None);
    players.apply(&Event::PeerTimedOut { address: sim_endpoint(1) });
    assert_eq!(players.len(), 1);
}

#[test]
fn a_peer_that_enters_again_starts_afresh() {
    let mut players = Players::new();
    players.enter(sim_endpoint(1));
    players.set_position(sim_endpoint(1), bits3(5.0, 40.0, 5.0));
    players.set_input(sim_endpoint(1), bits2(1.0, 0.0));
    players.enter(sim_endpoint(1));
    assert_eq!(players.len(), 1);
    assert_eq!(players.get(sim_endpoint(1)), Some(Player::new()));
}

#[test]
fn a_player_frame_sets_the_input_of_its_sender() {
    let mut players = Players::new();
    players.enter(sim_endpoint(1));
    players.enter(sim_endpoint(2));
    players.apply(&Event::Message { source: sim_endpoint(2), data: frame_payload(0.5, -1.0) });
    assert_eq!(players.get(sim_endpoint(1)).unwrap().input, bits2(0.0, 0.0));
    assert_eq!(players.get(sim_endpoint(2)).unwrap().input, bits2(0.5, -1.0));
    assert_eq!(players.get(sim_endpoint(2)).unwrap().position, bits3(0.0, 40.0, 0.0));
}

#[test]
fn a_payload_that_does_not_decode_changes_no_player() {
    let mut players = Players::new();
    players.enter(sim_endpoint(1));
    players.set_input(sim_endpoint(1), bits2(1.0, 0.0));
    let before = players.get(sim_endpoint(1));
    for data in [Vec::new(), vec![0, 0, 0], vec![1, 0, 0, 0, 0, 0, 0, 0, 0, 0, 0, 0], vec![0; 11]] {
        players.apply(&Event::Message { source: sim_endpoint(1), data });
        assert_eq!(players.get(sim_endpoint(1)), before);
    }
}

#[test]
fn a_message_makes_no_player() {
    let mut players = Players::new();
    players.apply(&Event::Message { source: sim_endpoint(1), data: frame_payload(1.0, 0.0) });
    assert_eq!(players.len(), 0);
    players.set_input(sim_endpoint(1), bits2(1.0, 0.0));
    players.set_position(sim_endpoint(1), bits3(1.0, 1.0, 1.0));
    assert_eq!(players.len(), 0);
}

#[test]
fn events_are_applied_in_their_order() {
    let mut players = Players::new();
    players.apply_all(&vec![
        Event::NewPeer { address: sim_endpoint(1) },
        Event::Message { source: sim_endpoint(1), data: frame_payload(1.0, 0.0) },
        Event::Message { source: sim_endpoint(1), data: frame_payload(0.0, 1.0) },
        Event::NewPeer { address: sim_endpoint(2) },
        Event::PeerTimedOut { address: sim_endpoint(2) },
    ]);
    assert_eq!(players.len(), 1);
    assert_eq!(players.get(sim_endpoint(1)).unwrap().input, bits2(0.0, 1.0));
}

#[test]
fn every_player_is_told_its_own_position() {
    let mut server = Peer::start(PROTOCOL, sim_settings());
    let mut players = Players::new();
    let hello = Packet::Handshake { protocol: PROTOCOL.as_bytes().to_vec() }.encode();
    let poll = server.poll(
        &vec![
            Datagram { address: sim_endpoint(1), data: hello.clone() },
            Datagram { address: sim_endpoint(2), data: hello },
        ],
        0,
    );
    players.apply_all(&poll.events);
    players.set_position(sim_endpoint(2), bits3(1.0, 2.0, 3.0));
    players.enter(sim_endpoint(3));

    let first = players.broadcast(&mut server, 10);
    assert_eq!(
        first,
        vec![
            Datagram {
                address: sim_endpoint(1),
                data: Packet::Sequenced { sequence: 0, payload: update_payload(0.0, 40.0, 0.0) }
                    .encode()
            },
            Datagram {
                address: sim_endpoint(2),
                data: Packet::Sequenced { sequence: 0, payload: update_payload(1.0, 2.0, 3.0) }
                    .encode()
            },
        ]
    );
    let second = players.broadcast(&mut server, 20);
    assert_eq!(
        Packet::decode(&second[1].data),
        Some(Packet::Sequenced { sequence: 1, payload: update_payload(1.0, 2.0, 3.0) })
    );
}

#[test]
fn a_second_of_input_moves_the_player_two_units() {
    let server_at = sim_endpoint(25566);
    let client_at = sim_endpoint(40000);
    let (mut client, mut server, mut players) = connected_pair(server_at, client_at);
    let mut shown = bits3(0.0, 40.0, 0.0);
    for tick in 1..=30u64 {
        let now = tick * 33;
        let input = client.send_input(bits2(1.0, 0.0), now).unwrap();
        let poll = server.poll(&vec![Datagram { address: client_at, data: input.data }], now);
        players.apply_all(&poll.events);
        step_players(&mut players);
        let snapshots: Vec<Datagram> = players
            .broadcast(&mut server, now)
            .into_iter()
            .map(|d| Datagram { address: server_at, data: d.data })
            .collect();
        assert_eq!(snapshots.len(), 1);
        client.update(&snapshots, now, &mut shown);
    }
    let position = players.get(client_at).unwrap().position;
    assert!((f32::from_bits(position.x) - 2.0).abs() < 1e-4);
    assert_eq!(position.y, 40.0f32.to_bits());
    assert_eq!(position.z, 0.0f32.to_bits());
    assert_eq!(shown, position);
}

#[test]
fn lost_frames_do_not_slow_the_player_down() {
    let server_at = sim_endpoint(25566);
    let client_at = sim_endpoint(40000);
    let (mut client, mut server, mut players) = connected_pair(server_at, client_at);
    for tick in 1..=30u64 {
        let now = tick * 33;
        let input = client.send_input(bits2(1.0, 0.0), now).unwrap();
        let arrived = if tick == 1 || tick % 3 == 0 {
            vec![Datagram { address: client_at, data: input.data }]
        } else {
            Vec::new()
        };
        let poll = server.poll(&arrived, now);
        players.apply_all(&poll.events);
        step_players(&mut players);
        players.broadcast(&mut server, now);
    }
    let position = players.get(client_at).unwrap().position;
    assert!((f32::from_bits(position.x) - 2.0).abs() < 1e-4);
}

#[test]
fn diagonal_input_is_no_faster() {
    let mut players = Players::new();
    players.enter(sim_endpoint(1));
    players.set_input(sim_endpoint(1), bits2(1.0, 1.0));
    for _ in 0..30 {
        step_players(&mut players);
    }
    let position = players.get(sim_endpoint(1)).unwrap().position;
    let x = f32::from_bits(position.x);
    let z = f32::from_bits(position.z);
    assert!(((x * x + z * z).sqrt() - 2.0).abs() < 1e-4);
}

#[test]
fn the_client_shows_update_five_and_ignores_four() {
    let server_at = sim_endpoint(25566);
    let client_at = sim_endpoint(40000);
    let (mut client, _server, _players) = connected_pair(server_at, client_at);
    let mut shown = bits3(0.0, 40.0, 0.0);
    let five = Packet::Sequenced { sequence: 5, payload: update_payload(5.0, 40.0, 0.0) }.encode();
    let four = Packet::Sequenced { sequence: 4, payload: update_payload(4.0, 40.0, 0.0) }.encode();
    client.update(
        &vec![
            Datagram { address: server_at, data: five },
            Datagram { address: server_at, data: four },
        ],
        10,
        &mut shown,
    );
    assert_eq!(shown, bits3(5.0, 40.0, 0.0));
}

#[test]
fn the_client_shows_the_later_update_in_either_order() {
    let server_at = sim_endpoint(25566);
    let client_at = sim_endpoint(40000);
    let (mut client, _server, _players) = connected_pair(server_at, client_at);
    let mut shown = bits3(0.0, 40.0, 0.0);
    let five = Packet::Sequenced { sequence: 5, payload: update_payload(5.0, 40.0, 0.0) }.encode();
    let four = Packet::Sequenced { sequence: 4, payload: update_payload(4.0, 40.0, 0.0) }.encode();
    client.update(&vec![Datagram { address: server_at, data: four }], 10, &mut shown);
    assert_eq!(shown, bits3(4.0, 40.0, 0.0));
    client.update(&vec![Datagram { address: server_at, data: five }], 20, &mut shown);
    assert_eq!(shown, bits3(5.0, 40.0, 0.0));
}

#[test]
fn the_client_ignores_what_it_cannot_decode() {
    let server_at = sim_endpoint(25566);
    let (mut client, _server, _players) = connected_pair(server_at, sim_endpoint(40000));
    let mut shown = bits3(1.0, 2.0, 3.0);
    let broken = vec![
        Datagram { address: server_at, data: Packet::Unreliable { payload: Vec::new() }.encode() },
        Datagram { address: server_at, data: Packet::Unreliable { payload: vec![9, 0, 0, 0] }.encode() },
        Datagram { address: server_at, data: Packet::Unreliable { payload: frame_payload(1.0, 1.0) }.encode() },
        Datagram { address: server_at, data: Vec::new() },
    ];
    client.update(&broken, 10, &mut shown);
    assert_eq!(shown, bits3(1.0, 2.0, 3.0));
    assert!(client.is_connected());
}

#[test]
fn the_client_sends_no_input_before_the_server_answers() {
    let server_at = sim_endpoint(25566);
    let (mut client, hello) = Connection::new(server_at, PROTOCOL, sim_settings(), 0);
    assert_eq!(
        hello,
        Some(Datagram {
            address: server_at,
            data: Packet::Handshake { protocol: PROTOCOL.as_bytes().to_vec() }.encode()
        })
    );
    assert!(!client.is_connected());
    assert_eq!(client.send_input(bits2(1.0, 0.0), 1), None);
}

#[test]
fn the_client_sends_its_input_sequenced() {
    let server_at = sim_endpoint(25566);
    let (mut client, _server, _players) = connected_pair(server_at, sim_endpoint(40000));
    let first = client.send_input(bits2(1.0, 0.0), 1).unwrap();
    assert_eq!(first.address, server_at);
    assert_eq!(
        Packet::decode(&first.data),
        Some(Packet::Sequenced { sequence: 0, payload: frame_payload(1.0, 0.0) })
    );
    let second = client.send_input(bits2(0.0, -1.0), 2).unwrap();
    assert_eq!(
        Packet::decode(&second.data),
        Some(Packet::Sequenced { sequence: 1, payload: frame_payload(0.0, -1.0) })
    );
}

#[test]
fn the_client_notices_that_the_server_is_gone() {
    let server_at = sim_endpoint(25566);
    let (mut client, _server, _players) = connected_pair(server_at, sim_endpoint(40000));
    let mut shown = bits3(0.0, 40.0, 0.0);
    client.update(&Vec::new(), 1000, &mut shown);
    assert!(client.is_connected());
    client.update(&Vec::new(), 1001, &mut shown);
    assert!(!client.is_connected());
    assert_eq!(client.send_input(bits2(1.0, 0.0), 1002), None);
}

#[test]
fn a_stopped_client_does_nothing() {
    let server_at = sim_endpoint(25566);
    let (mut client, _server, _players) = connected_pair(server_at, sim_endpoint(40000));
    client.stop();
    assert!(!client.is_connected());
    let mut shown = bits3(1.0, 2.0, 3.0);
    let update = Packet::Sequenced { sequence: 9, payload: update_payload(9.0, 9.0, 9.0) }.encode();
    let out = client.update(&vec![Datagram { address: server_at, data: update }], 10, &mut shown);
    assert!(out.is_empty());
    assert_eq!(shown, bits3(1.0, 2.0, 3.0));
    assert_eq!(client.send_input(bits2(1.0, 0.0), 11), None);
    client.stop();
    assert!(!client.is_connected());
}

#[test]
fn the_server_ticks_in_two_halves() {
    let client_at = sim_endpoint(40000);
    let mut server = Server::start(PROTOCOL, sim_settings());
    assert_eq!(server.players().len(), 0);

    let hello = Packet::Handshake { protocol: PROTOCOL.as_bytes().to_vec() }.encode();
    let input = Packet::Sequenced { sequence: 0, payload: frame_payload(0.0, 1.0) }.encode();
    let poll = server.begin_tick(
        &vec![
            Datagram { address: client_at, data: hello },
            Datagram { address: client_at, data: input },
        ],
        0,
    );
    assert_eq!(
        poll.events,
        vec![
            Event::NewPeer { address: client_at },
            Event::Message { source: client_at, data: frame_payload(0.0, 1.0) },
        ]
    );
    assert_eq!(poll.outgoing.len(), 1);
    assert_eq!(server.players().get(client_at).unwrap().input, bits2(0.0, 1.0));

    server.move_player(client_at, bits3(0.0, 40.0, 0.5));
    let snapshots = server.end_tick(0);
    assert_eq!(
        snapshots,
        vec![Datagram {
            address: client_at,
            data: Packet::Sequenced { sequence: 0, payload: update_payload(0.0, 40.0, 0.5) }
                .encode()
        }]
    );

    let poll = server.begin_tick(&Vec::new(), 1001);
    assert_eq!(poll.events, vec![Event::PeerTimedOut { address: client_at }]);
    assert_eq!(server.players().len(), 0);
    assert!(server.end_tick(1001).is_empty());
}

#[test]
fn the_protocol_names_the_game_and_its_version() {
    assert_eq!(blockgame::server::PROTOCOL, "blockgame-0.1.0");
    assert_eq!(blockgame::server::DEFAULT_PORT, 25566);
}
