//! The server's side of the simulation: one record per connected player,
//! kept in step with what the transport reports, and the snapshots that go
//! out after each tick. Moving a player is floating-point arithmetic and is
//! done by the caller, between `apply_all` and `broadcast`.

use vstd::prelude::*;
use vstd::string::StringSliceAdditionalSpecFns;
use crate::connection::{Config, PeerIdentity, Sending};
use crate::envelope::Reliability;
use crate::message::{ClientMessage, Point3, ServerMessage, PlayerUpdate, Vector2};
use crate::peer::{
    Datagram,
    DatagramView,
    Event,
    EventView,
    Peer,
    PeerView,
    Poll,
    datagram_views,
    event_views,
    started,
    transmitted,
};

verus! {

/// The protocol identifier of this version: the name of the game, a hyphen
/// and the version. Peers that show another one are not talked to.
pub const PROTOCOL: &'static str = "blockgame-0.1.0";

/// The port on which the server listens unless told otherwise.
pub const DEFAULT_PORT: u16 = 25566;

/// How often per second the server steps the simulation.
pub const SERVER_TICKS_PER_SECOND: u32 = 30;

/// The bit pattern of the height at which a player enters the world, 40.0.
pub const SPAWN_HEIGHT: u32 = 0x4220_0000;

/// What the server knows of one player.
#[derive(Clone, Copy, Debug, PartialEq, Eq, Structural)]
pub struct Player {
    /// The direction the player last asked for, as it came.
    pub input: Vector2,
    /// Where the player is.
    pub position: Point3,
}

impl Player {
    /// A player who has just entered: at rest, above the origin.
    pub open spec fn spawned() -> Player {
        Player {
            input: Vector2 { x: 0, y: 0 },
            position: Point3 { x: 0, y: SPAWN_HEIGHT, z: 0 },
        }
    }

    /// A player who has just entered: at rest, above the origin.
    pub fn new() -> (r: Player)
        ensures
            r == Player::spawned(),
    {
        Player { input: Vector2 { x: 0, y: 0 }, position: Point3 { x: 0, y: SPAWN_HEIGHT, z: 0 } }
    }
}

/// A player and the endpoint that plays it.
#[derive(Clone, Copy, Debug, PartialEq, Eq, Structural)]
pub struct PlayerRecord {
    pub address: PeerIdentity,
    pub player: Player,
}

/// Some record belongs to `address`.
pub open spec fn has_player(records: Seq<PlayerRecord>, address: PeerIdentity) -> bool {
    exists|i: int| 0 <= i < records.len() && (#[trigger] records[i]).address == address
}

/// No endpoint has two records.
pub open spec fn one_each(records: Seq<PlayerRecord>) -> bool {
    forall|i: int, j: int|
        0 <= i < records.len() && 0 <= j < records.len() && i != j ==> (
        #[trigger] records[i]).address != (#[trigger] records[j]).address
}

/// The records without those of `address`, in their order.
pub open spec fn departed(records: Seq<PlayerRecord>, address: PeerIdentity) -> Seq<PlayerRecord>
    decreases records.len(),
{
    if records.len() == 0 {
        records
    } else if records.last().address == address {
        departed(records.drop_last(), address)
    } else {
        departed(records.drop_last(), address).push(records.last())
    }
}

/// The records with every record of `address` changed by `change`.
pub open spec fn changed(
    records: Seq<PlayerRecord>,
    address: PeerIdentity,
    change: spec_fn(Player) -> Player,
) -> Seq<PlayerRecord> {
    Seq::new(
        records.len(),
        |i: int|
            if records[i].address == address {
                PlayerRecord { address, player: change(records[i].player) }
            } else {
                records[i]
            },
    )
}

/// The records with the input of `address` set.
pub open spec fn with_input(records: Seq<PlayerRecord>, address: PeerIdentity, input: Vector2) -> Seq<
    PlayerRecord,
> {
    changed(records, address, |p: Player| Player { input, ..p })
}

/// The records with the position of `address` set.
pub open spec fn with_position(
    records: Seq<PlayerRecord>,
    address: PeerIdentity,
    position: Point3,
) -> Seq<PlayerRecord> {
    changed(records, address, |p: Player| Player { position, ..p })
}

/// The records with `address` as a player who has just entered: a record it
/// had starts afresh, else one is added at the end.
pub open spec fn entered(records: Seq<PlayerRecord>, address: PeerIdentity) -> Seq<PlayerRecord> {
    if has_player(records, address) {
        changed(records, address, |p: Player| Player::spawned())
    } else {
        records.push(PlayerRecord { address, player: Player::spawned() })
    }
}

/// The records after one event. A new peer enters as a player, a peer that
/// was given up leaves, and a message that decodes as a player's frame sets
/// the input of its sender. A payload that does not decode changes nothing.
pub open spec fn applied(records: Seq<PlayerRecord>, event: EventView) -> Seq<PlayerRecord> {
    match event {
        EventView::NewPeer { address } => entered(records, address),
        EventView::PeerTimedOut { address } => departed(records, address),
        EventView::Message { source, data } => match ClientMessage::parse(data) {
            Ok(ClientMessage::PlayerFrame(frame)) => with_input(records, source, frame.input),
            Err(_) => records,
        },
    }
}

/// The records after the events, one after the other.
pub open spec fn applied_all(records: Seq<PlayerRecord>, events: Seq<EventView>) -> Seq<
    PlayerRecord,
>
    decreases events.len(),
{
    if events.len() == 0 {
        records
    } else {
        applied(applied_all(records, events.drop_last()), events.last())
    }
}

/// The payload that tells a player where the server has it.
pub open spec fn snapshot(record: PlayerRecord) -> Seq<u8> {
    ServerMessage::PlayerUpdate(PlayerUpdate { position: record.player.position }).bytes()
}

/// The peer after a broadcast, and what has to be sent.
pub struct Broadcast {
    pub peer: PeerView,
    pub outgoing: Seq<DatagramView>,
}

/// What telling every player its own position does at `now`: record by
/// record, a sequenced message goes to the player's endpoint, as far as the
/// peer has a complete connection to it.
pub open spec fn broadcasted(peer: PeerView, records: Seq<PlayerRecord>, now: u64) -> Broadcast
    decreases records.len(),
{
    if records.len() == 0 {
        Broadcast { peer, outgoing: Seq::empty() }
    } else {
        let earlier = broadcasted(peer, records.drop_last(), now);
        let last = records.last();
        let sent = earlier.peer.sending(last.address, snapshot(last), Reliability::Sequenced, now);
        Broadcast { peer: sent.0, outgoing: earlier.outgoing + transmitted(last.address, sent.1) }
    }
}

/// The player records of the server, one for each endpoint at most, in the
/// order in which the players entered.
pub struct Players {
    records: Vec<PlayerRecord>,
}

impl Players {
    /// The records, in the order in which the players entered.
    pub closed spec fn view(&self) -> Seq<PlayerRecord> {
        self.records@
    }

    /// No endpoint has two records.
    pub closed spec fn wf(&self) -> bool {
        one_each(self.records@)
    }

    /// In a well-formed table no endpoint has two records.
    pub proof fn lemma_one_each(&self)
        requires
            self.wf(),
        ensures
            one_each(self@),
    {
    }

    /// A table without players.
    pub fn new() -> (r: Players)
        ensures
            r.wf(),
            r@ == Seq::<PlayerRecord>::empty(),
    {
        Players { records: Vec::new() }
    }

    /// How many players there are.
    pub fn len(&self) -> (r: usize)
        ensures
            r == self@.len(),
    {
        self.records.len()
    }

    /// The record at place `index`, if there is one.
    pub fn record(&self, index: usize) -> (r: Option<PlayerRecord>)
        ensures
            r == if index < self@.len() {
                Some(self@[index as int])
            } else {
                None
            },
    {
        if index < self.records.len() {
            Some(self.records[index])
        } else {
            None
        }
    }

    fn place(&self, address: PeerIdentity) -> (r: Option<usize>)
        ensures
            r.is_some() == has_player(self@, address),
            r.is_some() ==> r.unwrap() < self@.len() && self@[r.unwrap() as int].address == address,
    {
        let mut i: usize = 0;
        while i < self.records.len()
            invariant
                i <= self.records.len(),
                forall|k: int| 0 <= k < i ==> (#[trigger] self.records@[k]).address != address,
            decreases self.records.len() - i,
        {
            if self.records[i].address == address {
                return Some(i);
            }
            i += 1;
        }
        None
    }

    /// The player of `address`, if it has one.
    pub fn get(&self, address: PeerIdentity) -> (r: Option<Player>)
        requires
            self.wf(),
        ensures
            r.is_some() == has_player(self@, address),
            r.is_some() ==> exists|i: int|
                0 <= i < self@.len() && self@[i] == (PlayerRecord { address, player: r.unwrap() }),
    {
        match self.place(address) {
            Some(i) => {
                assert(self@[i as int] == (PlayerRecord {
                    address,
                    player: self.records[i as int].player,
                }));
                Some(self.records[i].player)
            },
            None => None,
        }
    }

    /// Lets `address` enter as a player.
    pub fn enter(&mut self, address: PeerIdentity)
        requires
            old(self).wf(),
        ensures
            final(self).wf(),
            final(self)@ == entered(old(self)@, address),
    {
        match self.place(address) {
            Some(i) => {
                self.records.set(i, PlayerRecord { address, player: Player::new() });
                proof {
                    let before = old(self)@;
                    let after = entered(before, address);
                    assert forall|k: int| 0 <= k < before.len() implies self@[k] == after[k] by {
                        if k != i {
                            assert(before[k].address != before[i as int].address);
                        }
                    }
                    assert(self@ =~= after);
                }
            },
            None => {
                self.records.push(PlayerRecord { address, player: Player::new() });
            },
        }
    }

    /// Removes the player of `address`, if it has one.
    pub fn leave(&mut self, address: PeerIdentity)
        requires
            old(self).wf(),
        ensures
            final(self).wf(),
            final(self)@ == departed(old(self)@, address),
            !has_player(final(self)@, address),
    {
        let ghost before = self@;
        match self.place(address) {
            Some(i) => {
                self.records.remove(i);
                proof {
                    lemma_departed_one(before, address, i as int);
                    lemma_remove_keeps_one_each(before, i as int);
                    let after = before.remove(i as int);
                    assert(self@ == after);
                    if has_player(after, address) {
                        let k = choose|k: int|
                            0 <= k < after.len() && (#[trigger] after[k]).address == address;
                        let origin = if k < i {
                            k
                        } else {
                            k + 1
                        };
                        assert(after[k] == before[origin]);
                        assert(before[origin].address != before[i as int].address);
                    }
                }
            },
            None => {
                proof {
                    lemma_departed_none(before, address);
                }
            },
        }
    }

    /// Sets the input of the player of `address`, if it has one.
    pub fn set_input(&mut self, address: PeerIdentity, input: Vector2)
        requires
            old(self).wf(),
        ensures
            final(self).wf(),
            final(self)@ == with_input(old(self)@, address, input),
    {
        match self.place(address) {
            Some(i) => {
                let player = Player { input, position: self.records[i].player.position };
                self.records.set(i, PlayerRecord { address, player });
                proof {
                    let before = old(self)@;
                    let after = with_input(before, address, input);
                    assert forall|k: int| 0 <= k < before.len() implies self@[k] == after[k] by {
                        if k != i {
                            assert(before[k].address != before[i as int].address);
                        }
                    }
                    assert(self@ =~= after);
                }
            },
            None => {
                assert(self@ =~= with_input(old(self)@, address, input));
            },
        }
    }

    /// Sets the position of the player of `address`, if it has one: the
    /// caller's way to move a player once it has worked out where to.
    pub fn set_position(&mut self, address: PeerIdentity, position: Point3)
        requires
            old(self).wf(),
        ensures
            final(self).wf(),
            final(self)@ == with_position(old(self)@, address, position),
    {
        match self.place(address) {
            Some(i) => {
                let player = Player { input: self.records[i].player.input, position };
                self.records.set(i, PlayerRecord { address, player });
                proof {
                    let before = old(self)@;
                    let after = with_position(before, address, position);
                    assert forall|k: int| 0 <= k < before.len() implies self@[k] == after[k] by {
                        if k != i {
                            assert(before[k].address != before[i as int].address);
                        }
                    }
                    assert(self@ =~= after);
                }
            },
            None => {
                assert(self@ =~= with_position(old(self)@, address, position));
            },
        }
    }

    /// Takes note of one event of the transport.
    pub fn apply(&mut self, event: &Event)
        requires
            old(self).wf(),
        ensures
            final(self).wf(),
            final(self)@ == applied(old(self)@, event@),
    {
        match event {
            Event::NewPeer { address } => self.enter(*address),
            Event::PeerTimedOut { address } => self.leave(*address),
            Event::Message { source, data } => {
                match ClientMessage::deserialize(data) {
                    Ok(ClientMessage::PlayerFrame(frame)) => self.set_input(*source, frame.input),
                    Err(_) => {},
                }
            },
        }
    }

    /// Takes note of the events of one poll, in their order.
    pub fn apply_all(&mut self, events: &Vec<Event>)
        requires
            old(self).wf(),
        ensures
            final(self).wf(),
            final(self)@ == applied_all(old(self)@, event_views(events@)),
    {
        let ghost happened = event_views(events@);
        let mut i: usize = 0;
        assert(happened.subrange(0, 0) =~= Seq::<EventView>::empty());
        while i < events.len()
            invariant
                i <= events.len(),
                self.wf(),
                happened == event_views(events@),
                self@ == applied_all(old(self)@, happened.subrange(0, i as int)),
            decreases events.len() - i,
        {
            proof {
                let longer = happened.subrange(0, i + 1);
                assert(longer.drop_last() =~= happened.subrange(0, i as int));
                assert(longer.last() == events@[i as int]@);
            }
            self.apply(&events[i]);
            i += 1;
        }
        assert(happened.subrange(0, i as int) =~= happened);
    }

    /// Tells every player its own position through `peer` at `now` and
    /// returns the datagrams to send, in the order of the table.
    pub fn broadcast(&self, peer: &mut Peer, now: u64) -> (outgoing: Vec<Datagram>)
        requires
            old(peer).wf(),
        ensures
            final(peer).wf(),
            final(peer)@ == broadcasted(old(peer)@, self@, now).peer,
            datagram_views(outgoing@) == broadcasted(old(peer)@, self@, now).outgoing,
    {
        let ghost start = peer@;
        let mut outgoing: Vec<Datagram> = Vec::new();
        let mut i: usize = 0;
        proof {
            assert(self@.subrange(0, 0) =~= Seq::<PlayerRecord>::empty());
            assert(datagram_views(outgoing@) =~= Seq::<DatagramView>::empty());
        }
        while i < self.records.len()
            invariant
                i <= self.records.len(),
                peer.wf(),
                start == old(peer)@,
                peer@ == broadcasted(start, self@.subrange(0, i as int), now).peer,
                datagram_views(outgoing@) == broadcasted(
                    start,
                    self@.subrange(0, i as int),
                    now,
                ).outgoing,
            decreases self.records.len() - i,
        {
            let ghost sent = datagram_views(outgoing@);
            proof {
                let longer = self@.subrange(0, i + 1);
                assert(longer.drop_last() =~= self@.subrange(0, i as int));
                assert(longer.last() == self@[i as int]);
            }
            let record = self.records[i];
            let message = ServerMessage::PlayerUpdate(
                PlayerUpdate { position: record.player.position },
            );
            match peer.send(record.address, message.serialize(), Reliability::Sequenced, now) {
                Sending::Transmit(data) => {
                    outgoing.push(Datagram { address: record.address, data });
                    assert(datagram_views(outgoing@) =~= sent + seq![
                        DatagramView { address: record.address, data: data@ },
                    ]);
                },
                _ => {
                    assert(datagram_views(outgoing@) =~= sent + Seq::<DatagramView>::empty());
                },
            }
            i += 1;
        }
        assert(self@.subrange(0, i as int) =~= self@);
        outgoing
    }
}

/// The server: its endpoint and its players. One tick is `begin_tick`, then
/// the caller's moving of the players, then `end_tick`.
pub struct Server {
    peer: Peer,
    players: Players,
}

/// What `Server` stands for.
pub struct ServerView {
    pub peer: PeerView,
    pub players: Seq<PlayerRecord>,
}

impl Server {
    /// The server as the contracts speak of it.
    pub closed spec fn view(&self) -> ServerView {
        ServerView { peer: self.peer@, players: self.players@ }
    }

    /// The endpoint and the player table are well-formed.
    pub closed spec fn wf(&self) -> bool {
        self.peer.wf() && self.players.wf()
    }

    /// A server that speaks `protocol_id`, with no connections and no players.
    pub fn start(protocol_id: &str, config: Config) -> (r: Server)
        ensures
            r.wf(),
            r@ == (ServerView {
                peer: started(protocol_id.spec_bytes(), config),
                players: Seq::empty(),
            }),
    {
        Server { peer: Peer::start(protocol_id, config), players: Players::new() }
    }

    /// The players, as they are.
    pub fn players(&self) -> (r: &Players)
        ensures
            r@ == self@.players,
    {
        &self.players
    }

    /// The first half of a tick at `now`: polls the endpoint with the
    /// datagrams read since the last tick and follows what it reports, so that
    /// players enter, leave and change their input. Returns what the poll
    /// reported and what has to be sent.
    pub fn begin_tick(&mut self, incoming: &Vec<Datagram>, now: u64) -> (r: Poll)
        requires
            old(self).wf(),
        ensures
            final(self).wf(),
            final(self)@.peer == old(self)@.peer.polled(datagram_views(incoming@), now).peer,
            final(self)@.players == applied_all(
                old(self)@.players,
                old(self)@.peer.polled(datagram_views(incoming@), now).events,
            ),
            event_views(r.events@) == old(self)@.peer.polled(
                datagram_views(incoming@),
                now,
            ).events,
            datagram_views(r.outgoing@) == old(self)@.peer.polled(
                datagram_views(incoming@),
                now,
            ).outgoing,
    {
        let poll = self.peer.poll(incoming, now);
        self.players.apply_all(&poll.events);
        poll
    }

    /// Puts the player of `address` where the caller has worked out that it
    /// is now.
    pub fn move_player(&mut self, address: PeerIdentity, position: Point3)
        requires
            old(self).wf(),
        ensures
            final(self).wf(),
            final(self)@.peer == old(self)@.peer,
            final(self)@.players == with_position(old(self)@.players, address, position),
    {
        self.players.set_position(address, position);
    }

    /// The second half of a tick at `now`: tells every player its own
    /// position and returns the datagrams to send.
    pub fn end_tick(&mut self, now: u64) -> (outgoing: Vec<Datagram>)
        requires
            old(self).wf(),
        ensures
            final(self).wf(),
            final(self)@.players == old(self)@.players,
            final(self)@.peer == broadcasted(old(self)@.peer, old(self)@.players, now).peer,
            datagram_views(outgoing@) == broadcasted(
                old(self)@.peer,
                old(self)@.players,
                now,
            ).outgoing,
    {
        self.players.broadcast(&mut self.peer, now)
    }
}

/// A message never makes or removes a player, and one that does not decode
/// changes nothing at all: players come and go with their peers only.
pub proof fn lemma_message_keeps_the_players(
    records: Seq<PlayerRecord>,
    source: PeerIdentity,
    data: Seq<u8>,
)
    ensures
        applied(records, EventView::Message { source, data }).len() == records.len(),
        forall|i: int|
            0 <= i < records.len() ==> (#[trigger] applied(
                records,
                EventView::Message { source, data },
            )[i]).address == records[i].address,
        forall|i: int|
            0 <= i < records.len() ==> (#[trigger] applied(
                records,
                EventView::Message { source, data },
            )[i]).player.position == records[i].player.position,
        ClientMessage::parse(data).is_err() ==> applied(
            records,
            EventView::Message { source, data },
        ) == records,
{
}

/// Where `address` has no record, nothing leaves with it.
pub proof fn lemma_departed_none(records: Seq<PlayerRecord>, address: PeerIdentity)
    requires
        !has_player(records, address),
    ensures
        departed(records, address) == records,
    decreases records.len(),
{
    if records.len() > 0 {
        let shorter = records.drop_last();
        assert(records[records.len() - 1].address != address);
        assert forall|k: int| 0 <= k < shorter.len() implies (#[trigger] shorter[k]).address
            != address by {
            assert(records[k].address != address);
        }
        lemma_departed_none(shorter, address);
        assert(shorter.push(records.last()) =~= records);
    }
}

/// Where `address` has one record, that record leaves and nothing else.
pub proof fn lemma_departed_one(records: Seq<PlayerRecord>, address: PeerIdentity, i: int)
    requires
        one_each(records),
        0 <= i < records.len(),
        records[i].address == address,
    ensures
        departed(records, address) == records.remove(i),
    decreases records.len(),
{
    let shorter = records.drop_last();
    let n = records.len() - 1;
    if i == n {
        assert forall|k: int| 0 <= k < shorter.len() implies (#[trigger] shorter[k]).address
            != address by {
            assert(records[k].address != records[n].address);
        }
        lemma_departed_none(shorter, address);
        assert(records.remove(i) =~= shorter);
    } else {
        assert(records[n].address != records[i].address);
        assert forall|a: int, b: int|
            0 <= a < shorter.len() && 0 <= b < shorter.len() && a != b implies (
        #[trigger] shorter[a]).address != (#[trigger] shorter[b]).address by {
            assert(shorter[a] == records[a]);
            assert(shorter[b] == records[b]);
        }
        lemma_departed_one(shorter, address, i);
        assert(records.remove(i) =~= shorter.remove(i).push(records.last()));
    }
}

/// Removing a record leaves no endpoint with two.
pub proof fn lemma_remove_keeps_one_each(records: Seq<PlayerRecord>, i: int)
    requires
        one_each(records),
        0 <= i < records.len(),
    ensures
        one_each(records.remove(i)),
{
    let after = records.remove(i);
    assert forall|a: int, b: int|
        0 <= a < after.len() && 0 <= b < after.len() && a != b implies (#[trigger] after[a]).address
        != (#[trigger] after[b]).address by {
        let from_a = if a < i {
            a
        } else {
            a + 1
        };
        let from_b = if b < i {
            b
        } else {
            b + 1
        };
        assert(after[a] == records[from_a]);
        assert(after[b] == records[from_b]);
    }
}

} // verus!
