//! The client's side: one connection to the server, the player's position as
//! the server reports it, and the input that goes the other way.

use vstd::prelude::*;
use vstd::string::StringSliceAdditionalSpecFns;
use crate::connection::{Config, PeerIdentity, Sending};
use crate::envelope::{PacketView, Reliability, packet_bytes};
use crate::message::{ClientMessage, PlayerFrame, Point3, ServerMessage, Vector2};
use crate::peer::{
    Datagram,
    DatagramView,
    Event,
    EventView,
    Peer,
    PeerView,
    datagram_view,
    datagram_views,
    event_views,
    optional,
    started,
    transmitted,
};

verus! {

/// How often per second the client steps.
pub const CLIENT_TICKS_PER_SECOND: u32 = 60;

/// The client's connection to the server.
pub struct Connection {
    server: PeerIdentity,
    peer: Option<Peer>,
    connected: bool,
}

/// What `Connection` stands for.
pub struct ClientView {
    pub server: PeerIdentity,
    /// The local endpoint, until the connection is stopped.
    pub peer: Option<PeerView>,
    /// The server has answered and has not been given up since.
    pub connected: bool,
}

/// What the client holds that events change: whether it is connected, and
/// where its player is.
pub struct Standing {
    pub connected: bool,
    pub position: Point3,
}

/// The client's standing after one event. A new peer means connected, a peer
/// given up means not connected, and a message that decodes as a player update
/// moves the player to where the server has it. A payload that does not decode
/// changes nothing.
pub open spec fn reacted(standing: Standing, event: EventView) -> Standing {
    match event {
        EventView::NewPeer { address } => Standing { connected: true, ..standing },
        EventView::PeerTimedOut { address } => Standing { connected: false, ..standing },
        EventView::Message { source, data } => match ServerMessage::parse(data) {
            Ok(ServerMessage::PlayerUpdate(update)) => Standing {
                position: update.position,
                ..standing
            },
            Err(_) => standing,
        },
    }
}

/// The client's standing after the events, one after the other.
pub open spec fn reacted_all(standing: Standing, events: Seq<EventView>) -> Standing
    decreases events.len(),
{
    if events.len() == 0 {
        standing
    } else {
        reacted(reacted_all(standing, events.drop_last()), events.last())
    }
}

/// The payload that carries the player's input.
pub open spec fn input_payload(input: Vector2) -> Seq<u8> {
    ClientMessage::PlayerFrame(PlayerFrame { input }).bytes()
}

impl Connection {
    /// The connection as the contracts speak of it.
    pub closed spec fn view(&self) -> ClientView {
        ClientView {
            server: self.server,
            peer: match self.peer {
                Some(peer) => Some(peer@),
                None => None,
            },
            connected: self.connected,
        }
    }

    /// The peer, while there is one, is well-formed, and there is one while
    /// the client is connected.
    pub closed spec fn wf(&self) -> bool {
        &&& self.peer matches Some(peer) ==> peer.wf()
        &&& self.connected ==> self.peer.is_some()
    }

    /// In a well-formed connection there is a peer while the client is
    /// connected.
    pub proof fn lemma_connected_has_peer(&self)
        requires
            self.wf(),
        ensures
            self@.connected ==> self@.peer.is_some(),
    {
    }

    /// Starts a peer that speaks `protocol_id` and asks `server` for a
    /// connection at `now`. Returns the connection, not yet connected, and the
    /// handshake to send.
    pub fn new(server: PeerIdentity, protocol_id: &str, config: Config, now: u64) -> (r: (
        Connection,
        Option<Datagram>,
    ))
        ensures
            r.0.wf(),
            r.0@ == (ClientView {
                server,
                peer: Some(started(protocol_id.spec_bytes(), config).connecting(server, now).0),
                connected: false,
            }),
            datagram_view(r.1) == Some(
                DatagramView {
                    address: server,
                    data: packet_bytes(
                        PacketView::Handshake { protocol: protocol_id.spec_bytes() },
                    ),
                },
            ),
    {
        let mut peer = Peer::start(protocol_id, config);
        let handshake = peer.connect(server, now);
        (Connection { server, peer: Some(peer), connected: false }, handshake)
    }

    /// Whether the server has answered and has not been given up since.
    pub fn is_connected(&self) -> (r: bool)
        ensures
            r == self@.connected,
    {
        self.connected
    }

    /// Gives the peer up. The server is not told. Stopping twice is stopping
    /// once.
    pub fn stop(&mut self)
        ensures
            final(self).wf(),
            final(self)@ == (ClientView { server: old(self)@.server, peer: None, connected: false }),
    {
        match self.peer.take() {
            Some(peer) => peer.stop(),
            None => {},
        }
        self.connected = false;
    }

    /// One turn of the client at `now`: polls the peer with the datagrams
    /// read since the last turn, follows what it reports, and returns what
    /// has to be sent. The player is moved to wherever the server last said it
    /// is. A stopped connection does nothing.
    pub fn update(&mut self, incoming: &Vec<Datagram>, now: u64, player_position: &mut Point3) -> (r:
        Vec<Datagram>)
        requires
            old(self).wf(),
        ensures
            final(self).wf(),
            final(self)@.server == old(self)@.server,
            old(self)@.peer.is_none() ==> {
                &&& final(self)@ == old(self)@
                &&& *final(player_position) == *old(player_position)
                &&& r@.len() == 0
            },
            old(self)@.peer matches Some(peer) ==> {
                let polled = peer.polled(datagram_views(incoming@), now);
                let standing = reacted_all(
                    Standing { connected: old(self)@.connected, position: *old(player_position) },
                    polled.events,
                );
                &&& final(self)@.peer == Some(polled.peer)
                &&& final(self)@.connected == standing.connected
                &&& *final(player_position) == standing.position
                &&& datagram_views(r@) == polled.outgoing
            },
    {
        let poll = match &mut self.peer {
            Some(peer) => peer.poll(incoming, now),
            None => {
                return Vec::new();
            },
        };
        let ghost happened = event_views(poll.events@);
        let ghost polled_peer = self.peer;
        let ghost start = Standing { connected: old(self)@.connected, position: *old(player_position) };
        let mut i: usize = 0;
        assert(happened.subrange(0, 0) =~= Seq::<EventView>::empty());
        while i < poll.events.len()
            invariant
                i <= poll.events.len(),
                self.peer == polled_peer,
                self.peer.is_some(),
                self.server == old(self).server,
                happened == event_views(poll.events@),
                (Standing { connected: self.connected, position: *player_position }) == reacted_all(
                    start,
                    happened.subrange(0, i as int),
                ),
            decreases poll.events.len() - i,
        {
            proof {
                let longer = happened.subrange(0, i + 1);
                assert(longer.drop_last() =~= happened.subrange(0, i as int));
                assert(longer.last() == poll.events@[i as int]@);
            }
            match &poll.events[i] {
                Event::NewPeer { address } => {
                    self.connected = true;
                },
                Event::PeerTimedOut { address } => {
                    self.connected = false;
                },
                Event::Message { source, data } => {
                    match ServerMessage::deserialize(data) {
                        Ok(ServerMessage::PlayerUpdate(update)) => {
                            *player_position = update.position;
                        },
                        Err(_) => {},
                    }
                },
            }
            i += 1;
        }
        assert(happened.subrange(0, i as int) =~= happened);
        poll.outgoing
    }

    /// Sends the player's input to the server at `now`, as a sequenced
    /// message, and returns the datagram to send. Nothing happens while the
    /// client is not connected.
    pub fn send_input(&mut self, input: Vector2, now: u64) -> (r: Option<Datagram>)
        requires
            old(self).wf(),
        ensures
            final(self).wf(),
            final(self)@.server == old(self)@.server,
            final(self)@.connected == old(self)@.connected,
            !old(self)@.connected ==> final(self)@ == old(self)@ && r.is_none(),
            old(self)@.connected ==> {
                let sent = old(self)@.peer.unwrap().sending(
                    old(self)@.server,
                    input_payload(input),
                    Reliability::Sequenced,
                    now,
                );
                &&& final(self)@.peer == Some(sent.0)
                &&& optional(datagram_view(r)) == transmitted(old(self)@.server, sent.1)
            },
    {
        if !self.connected {
            return None;
        }
        let message = ClientMessage::PlayerFrame(PlayerFrame { input });
        let server = self.server;
        let sending = match &mut self.peer {
            Some(peer) => peer.send(server, message.serialize(), Reliability::Sequenced, now),
            None => Sending::NotConnected,
        };
        match sending {
            Sending::Transmit(data) => Some(Datagram { address: server, data }),
            _ => None,
        }
    }
}

} // verus!
