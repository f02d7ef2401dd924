//! The local endpoint: the table of its connections, what an arriving
//! datagram does to it, what has to be sent, and who is given up. The socket
//! itself stays with the caller, who hands over what it read, with the time,
//! and sends what comes back.

use vstd::prelude::*;
use vstd::string::StringSliceAdditionalSpecFns;
use crate::connection::{
    Config,
    Connection,
    ConnectionState,
    ConnectionView,
    PeerIdentity,
    Sending,
    SendingView,
};
use crate::envelope::{Packet, PacketView, Reliability, packet_bytes, parse_packet};
use crate::wire::{bytes_equal, bytes_views, copy_bytes};

verus! {

/// What the application learns from a poll.
#[derive(Clone, Debug, PartialEq, Eq)]
pub enum Event {
    /// A connection to this endpoint is complete.
    NewPeer { address: PeerIdentity },
    /// This endpoint was given up; its connection is gone.
    PeerTimedOut { address: PeerIdentity },
    /// This endpoint sent a payload, to be decoded by the application.
    Message { source: PeerIdentity, data: Vec<u8> },
}

/// What `Event` stands for.
pub enum EventView {
    NewPeer { address: PeerIdentity },
    PeerTimedOut { address: PeerIdentity },
    Message { source: PeerIdentity, data: Seq<u8> },
}

impl View for Event {
    type V = EventView;

    open spec fn view(&self) -> EventView {
        match self {
            Event::NewPeer { address } => EventView::NewPeer { address: *address },
            Event::PeerTimedOut { address } => EventView::PeerTimedOut { address: *address },
            Event::Message { source, data } => EventView::Message { source: *source, data: data@ },
        }
    }
}

/// Bytes on their way to or from an endpoint.
#[derive(Clone, Debug, PartialEq, Eq)]
pub struct Datagram {
    pub address: PeerIdentity,
    pub data: Vec<u8>,
}

/// What `Datagram` stands for.
pub struct DatagramView {
    pub address: PeerIdentity,
    pub data: Seq<u8>,
}

impl View for Datagram {
    type V = DatagramView;

    open spec fn view(&self) -> DatagramView {
        DatagramView { address: self.address, data: self.data@ }
    }
}

/// The view of an event that may be there.
pub open spec fn event_view(event: Option<Event>) -> Option<EventView> {
    match event {
        Some(event) => Some(event@),
        None => None,
    }
}

/// The view of a datagram that may be there.
pub open spec fn datagram_view(datagram: Option<Datagram>) -> Option<DatagramView> {
    match datagram {
        Some(datagram) => Some(datagram@),
        None => None,
    }
}

/// What became of one arriving datagram.
#[derive(Clone, Debug, PartialEq, Eq)]
pub struct Receipt {
    /// What the application has to learn of it, if anything.
    pub event: Option<Event>,
    /// What has to be sent back, if anything.
    pub reply: Option<Datagram>,
}

/// What `Receipt` stands for, together with the peer afterwards.
pub struct Received {
    pub peer: PeerView,
    pub event: Option<EventView>,
    pub reply: Option<DatagramView>,
}

/// What one poll hands back.
#[derive(Clone, Debug, PartialEq, Eq)]
pub struct Poll {
    /// What the application has to learn, in the order in which it happened:
    /// first what the arriving datagrams brought, then who was given up.
    pub events: Vec<Event>,
    /// What has to be sent, in this order.
    pub outgoing: Vec<Datagram>,
}

/// What `Poll` stands for, together with the peer afterwards.
pub struct Polled {
    pub peer: PeerView,
    pub events: Seq<EventView>,
    pub outgoing: Seq<DatagramView>,
}

/// The item if there is one, as a sequence.
pub open spec fn optional<T>(item: Option<T>) -> Seq<T> {
    match item {
        Some(item) => seq![item],
        None => Seq::empty(),
    }
}

/// A peer that has just been started: it has no connections.
pub open spec fn started(protocol: Seq<u8>, config: Config) -> PeerView {
    PeerView { protocol, config, connections: Seq::empty() }
}

/// The datagram to `address` that a send results in, if it results in one.
pub open spec fn transmitted(address: PeerIdentity, sending: SendingView) -> Seq<DatagramView> {
    match sending {
        SendingView::Transmit(data) => seq![DatagramView { address, data }],
        _ => Seq::empty(),
    }
}

/// The local endpoint.
pub struct Peer {
    protocol: Vec<u8>,
    config: Config,
    connections: Vec<Connection>,
}

/// What `Peer` stands for.
pub struct PeerView {
    /// The protocol identifier that every connection has to show.
    pub protocol: Seq<u8>,
    pub config: Config,
    /// The connections, in the order in which they were opened.
    pub connections: Seq<ConnectionView>,
}

/// What `connections` stand for.
pub open spec fn connection_views(connections: Seq<Connection>) -> Seq<ConnectionView> {
    Seq::new(connections.len(), |i: int| connections[i]@)
}

/// No endpoint has two connections.
pub open spec fn distinct(connections: Seq<ConnectionView>) -> bool {
    forall|i: int, j: int|
        0 <= i < connections.len() && 0 <= j < connections.len() && i != j ==> (
        #[trigger] connections[i]).identity != (#[trigger] connections[j]).identity
}

impl PeerView {
    /// There is a connection to this endpoint, pending or complete.
    pub open spec fn knows(self, identity: PeerIdentity) -> bool {
        exists|i: int|
            0 <= i < self.connections.len() && (#[trigger] self.connections[i]).identity
                == identity
    }

    /// The place of the connection to this endpoint in the table.
    pub open spec fn slot(self, identity: PeerIdentity) -> int {
        choose|i: int|
            0 <= i < self.connections.len() && (#[trigger] self.connections[i]).identity
                == identity
    }

    /// The connection to this endpoint is complete.
    pub open spec fn connected(self, identity: PeerIdentity) -> bool {
        self.knows(identity) && self.connections[self.slot(identity)].state
            == ConnectionState::Connected
    }

    /// What connecting to `remote` at `now` does: unless there is a
    /// connection to it already, a pending one is opened and a handshake
    /// goes out.
    pub open spec fn connecting(self, remote: PeerIdentity, now: u64) -> (PeerView, Option<
        DatagramView,
    >) {
        if self.knows(remote) {
            (self, None)
        } else {
            (
                PeerView {
                    connections: self.connections.push(
                        ConnectionView::fresh(
                            remote,
                            ConnectionState::Connecting,
                            now,
                            self.config,
                        ),
                    ),
                    ..self
                },
                Some(
                    DatagramView {
                        address: remote,
                        data: packet_bytes(PacketView::Handshake { protocol: self.protocol }),
                    },
                ),
            )
        }
    }

    /// What sending `payload` to `remote` at `now` does: nothing where there
    /// is no connection to it, else what the connection makes of it.
    pub open spec fn sending(
        self,
        remote: PeerIdentity,
        payload: Seq<u8>,
        tier: Reliability,
        now: u64,
    ) -> (PeerView, SendingView) {
        if self.knows(remote) {
            let i = self.slot(remote);
            let prepared = self.connections[i].prepared(payload, tier, now);
            (
                PeerView { connections: self.connections.update(i, prepared.connection), ..self },
                prepared.sending,
            )
        } else {
            (self, SendingView::NotConnected)
        }
    }

    /// What the given datagrams do, arriving one after the other at `now`.
    pub open spec fn received_all(self, incoming: Seq<DatagramView>, now: u64) -> Polled
        decreases incoming.len(),
    {
        if incoming.len() == 0 {
            Polled { peer: self, events: Seq::empty(), outgoing: Seq::empty() }
        } else {
            let earlier = self.received_all(incoming.drop_last(), now);
            let last = earlier.peer.received(incoming.last().address, incoming.last().data, now);
            Polled {
                peer: last.peer,
                events: earlier.events + optional(last.event),
                outgoing: earlier.outgoing + optional(last.reply),
            }
        }
    }

    /// What one poll at `now` does, given the datagrams that have arrived
    /// since the last: they are taken in, one after the other; then every
    /// connection that has expired is reported and removed; then the others
    /// get their upkeep.
    pub open spec fn polled(self, incoming: Seq<DatagramView>, now: u64) -> Polled {
        let heard = self.received_all(incoming, now);
        let kept = survivors(heard.peer.connections, now, self.config.timeout);
        Polled {
            peer: PeerView {
                connections: upkept(kept, self.protocol, now, self.config),
                ..heard.peer
            },
            events: heard.events + casualties(heard.peer.connections, now, self.config.timeout),
            outgoing: heard.outgoing + upkeep_datagrams(kept, self.protocol, now, self.config),
        }
    }

    /// What a datagram that arrives from `source` at `now` does.
    ///
    /// One that carries no packet is dropped. From a known endpoint the
    /// packet goes to its connection; a completed handshake is reported as a
    /// new peer and a delivered payload as a message. From an unknown endpoint
    /// only a handshake with our own protocol identifier counts: it opens a
    /// complete connection, is reported as a new peer and answered with a
    /// welcome. Anything else from an unknown endpoint is dropped without a
    /// trace.
    pub open spec fn received(self, source: PeerIdentity, data: Seq<u8>, now: u64) -> Received {
        let nothing = Received { peer: self, event: None, reply: None };
        match parse_packet(data) {
            None => nothing,
            Some(packet) => {
                if self.knows(source) {
                    let i = self.slot(source);
                    let handled = self.connections[i].handled(packet, self.protocol, now);
                    Received {
                        peer: PeerView {
                            connections: self.connections.update(i, handled.connection),
                            ..self
                        },
                        event: if handled.connected {
                            Some(EventView::NewPeer { address: source })
                        } else {
                            match handled.delivered {
                                Some(payload) => Some(
                                    EventView::Message { source, data: payload },
                                ),
                                None => None,
                            }
                        },
                        reply: match handled.reply {
                            Some(reply) => Some(
                                DatagramView { address: source, data: packet_bytes(reply) },
                            ),
                            None => None,
                        },
                    }
                } else {
                    match packet {
                        PacketView::Handshake { protocol: theirs } => {
                            if theirs == self.protocol {
                                Received {
                                    peer: PeerView {
                                        connections: self.connections.push(
                                            ConnectionView::fresh(
                                                source,
                                                ConnectionState::Connected,
                                                now,
                                                self.config,
                                            ),
                                        ),
                                        ..self
                                    },
                                    event: Some(EventView::NewPeer { address: source }),
                                    reply: Some(
                                        DatagramView {
                                            address: source,
                                            data: packet_bytes(
                                                PacketView::Welcome { protocol: self.protocol },
                                            ),
                                        },
                                    ),
                                }
                            } else {
                                nothing
                            }
                        },
                        _ => nothing,
                    }
                }
            },
        }
    }
}

/// What a list of events stands for.
pub open spec fn event_views(events: Seq<Event>) -> Seq<EventView> {
    Seq::new(events.len(), |i: int| events[i]@)
}

/// What a list of datagrams stands for.
pub open spec fn datagram_views(datagrams: Seq<Datagram>) -> Seq<DatagramView> {
    Seq::new(datagrams.len(), |i: int| datagrams[i]@)
}

/// The connections that are kept at `now`, in their order: those that have
/// not expired.
pub open spec fn survivors(connections: Seq<ConnectionView>, now: u64, timeout: u64) -> Seq<
    ConnectionView,
>
    decreases connections.len(),
{
    if connections.len() == 0 {
        connections
    } else if connections.last().expired(now, timeout) {
        survivors(connections.drop_last(), now, timeout)
    } else {
        survivors(connections.drop_last(), now, timeout).push(connections.last())
    }
}

/// The reports of the connections that are given up at `now`, in their
/// order: one for each that has expired.
pub open spec fn casualties(connections: Seq<ConnectionView>, now: u64, timeout: u64) -> Seq<
    EventView,
>
    decreases connections.len(),
{
    if connections.len() == 0 {
        Seq::empty()
    } else if connections.last().expired(now, timeout) {
        casualties(connections.drop_last(), now, timeout).push(
            EventView::PeerTimedOut { address: connections.last().identity },
        )
    } else {
        casualties(connections.drop_last(), now, timeout)
    }
}

proof fn lemma_sweep_push(
    connections: Seq<ConnectionView>,
    connection: ConnectionView,
    now: u64,
    timeout: u64,
)
    ensures
        survivors(connections.push(connection), now, timeout) == if connection.expired(
            now,
            timeout,
        ) {
            survivors(connections, now, timeout)
        } else {
            survivors(connections, now, timeout).push(connection)
        },
        casualties(connections.push(connection), now, timeout) == if connection.expired(
            now,
            timeout,
        ) {
            casualties(connections, now, timeout).push(
                EventView::PeerTimedOut { address: connection.identity },
            )
        } else {
            casualties(connections, now, timeout)
        },
{
    assert(connections.push(connection).drop_last() =~= connections);
}

/// Every connection that is kept was there before and has not expired.
pub proof fn lemma_survivors_were_there(connections: Seq<ConnectionView>, now: u64, timeout: u64)
    ensures
        survivors(connections, now, timeout).len() <= connections.len(),
        forall|k: int|
            0 <= k < survivors(connections, now, timeout).len() ==> {
                &&& !(#[trigger] survivors(connections, now, timeout)[k]).expired(now, timeout)
                &&& connections.contains(survivors(connections, now, timeout)[k])
            },
    decreases connections.len(),
{
    if connections.len() > 0 {
        let shorter = connections.drop_last();
        lemma_survivors_were_there(shorter, now, timeout);
        let kept = survivors(connections, now, timeout);
        assert forall|k: int| 0 <= k < kept.len() implies {
            &&& !(#[trigger] kept[k]).expired(now, timeout)
            &&& connections.contains(kept[k])
        } by {
            if k < survivors(shorter, now, timeout).len() {
                let earlier = survivors(shorter, now, timeout)[k];
                assert(kept[k] == earlier);
                assert(shorter.contains(earlier));
                let j = choose|j: int| 0 <= j < shorter.len() && shorter[j] == earlier;
                assert(connections[j] == earlier);
            } else {
                assert(kept[k] == connections[connections.len() - 1]);
            }
        }
    }
}

/// Giving connections up leaves no endpoint with two.
pub proof fn lemma_survivors_distinct(connections: Seq<ConnectionView>, now: u64, timeout: u64)
    requires
        distinct(connections),
    ensures
        distinct(survivors(connections, now, timeout)),
    decreases connections.len(),
{
    if connections.len() > 0 {
        let shorter = connections.drop_last();
        let last = connections.last();
        assert forall|a: int, b: int|
            0 <= a < shorter.len() && 0 <= b < shorter.len() && a != b implies (
        #[trigger] shorter[a]).identity != (#[trigger] shorter[b]).identity by {
            assert(shorter[a] == connections[a]);
            assert(shorter[b] == connections[b]);
        }
        lemma_survivors_distinct(shorter, now, timeout);
        lemma_survivors_were_there(shorter, now, timeout);
        let before = survivors(shorter, now, timeout);
        if !last.expired(now, timeout) {
            assert forall|k: int| 0 <= k < before.len() implies (#[trigger] before[k]).identity
                != last.identity by {
                assert(shorter.contains(before[k]));
                let j = choose|j: int| 0 <= j < shorter.len() && shorter[j] == before[k];
                assert(connections[j] == before[k]);
                assert(connections[j].identity != connections[connections.len() - 1].identity);
            }
            lemma_push_keeps_distinct(before, last);
        }
    }
}

/// The connections after their upkeep at `now`.
pub open spec fn upkept(
    connections: Seq<ConnectionView>,
    protocol: Seq<u8>,
    now: u64,
    config: Config,
) -> Seq<ConnectionView> {
    Seq::new(
        connections.len(),
        |i: int| connections[i].maintained(protocol, now, config).connection,
    )
}

/// The given bytes, each run on its way to `address`.
pub open spec fn addressed(address: PeerIdentity, datagrams: Seq<Seq<u8>>) -> Seq<DatagramView> {
    Seq::new(datagrams.len(), |i: int| DatagramView { address, data: datagrams[i] })
}

/// What the upkeep of the connections at `now` sends, connection by
/// connection in the order of the table.
pub open spec fn upkeep_datagrams(
    connections: Seq<ConnectionView>,
    protocol: Seq<u8>,
    now: u64,
    config: Config,
) -> Seq<DatagramView>
    decreases connections.len(),
{
    if connections.len() == 0 {
        Seq::empty()
    } else {
        upkeep_datagrams(connections.drop_last(), protocol, now, config) + addressed(
            connections.last().identity,
            connections.last().maintained(protocol, now, config).datagrams,
        )
    }
}

proof fn lemma_upkeep_push(
    connections: Seq<ConnectionView>,
    connection: ConnectionView,
    protocol: Seq<u8>,
    now: u64,
    config: Config,
)
    ensures
        upkeep_datagrams(connections.push(connection), protocol, now, config) == upkeep_datagrams(
            connections,
            protocol,
            now,
            config,
        ) + addressed(connection.identity, connection.maintained(protocol, now, config).datagrams),
{
    assert(connections.push(connection).drop_last() =~= connections);
}

/// Taking datagrams in changes neither the protocol identifier nor the
/// settings.
pub proof fn lemma_received_keeps_settings(peer: PeerView, incoming: Seq<DatagramView>, now: u64)
    ensures
        peer.received_all(incoming, now).peer.protocol == peer.protocol,
        peer.received_all(incoming, now).peer.config == peer.config,
    decreases incoming.len(),
{
    if incoming.len() > 0 {
        lemma_received_keeps_settings(peer, incoming.drop_last(), now);
    }
}

/// Replacing a connection by one to the same endpoint leaves no endpoint
/// with two.
pub proof fn lemma_update_keeps_distinct(
    connections: Seq<ConnectionView>,
    i: int,
    connection: ConnectionView,
)
    requires
        distinct(connections),
        0 <= i < connections.len(),
        connection.identity == connections[i].identity,
    ensures
        distinct(connections.update(i, connection)),
{
    let after = connections.update(i, connection);
    assert forall|a: int, b: int|
        0 <= a < after.len() && 0 <= b < after.len() && a != b implies (#[trigger] after[a]).identity
        != (#[trigger] after[b]).identity by {
        assert(after[a].identity == connections[a].identity);
        assert(after[b].identity == connections[b].identity);
    }
}

/// Adding a connection to an endpoint that had none leaves no endpoint with
/// two.
pub proof fn lemma_push_keeps_distinct(connections: Seq<ConnectionView>, connection: ConnectionView)
    requires
        distinct(connections),
        forall|k: int|
            0 <= k < connections.len() ==> (#[trigger] connections[k]).identity
                != connection.identity,
    ensures
        distinct(connections.push(connection)),
{
    let after = connections.push(connection);
    assert forall|a: int, b: int|
        0 <= a < after.len() && 0 <= b < after.len() && a != b implies (#[trigger] after[a]).identity
        != (#[trigger] after[b]).identity by {
        if a < connections.len() {
            assert(after[a] == connections[a]);
        }
        if b < connections.len() {
            assert(after[b] == connections[b]);
        }
    }
}

impl Peer {
    /// The peer as the contracts speak of it.
    pub closed spec fn view(&self) -> PeerView {
        PeerView {
            protocol: self.protocol@,
            config: self.config,
            connections: connection_views(self.connections@),
        }
    }

    /// Every connection keeps within its bounds and no endpoint has two.
    pub closed spec fn wf(&self) -> bool {
        &&& forall|i: int| 0 <= i < self.connections@.len() ==> (#[trigger] self.connections@[i]).wf()
        &&& distinct(connection_views(self.connections@))
    }

    /// In a well-formed peer no endpoint has two connections.
    pub proof fn lemma_distinct(&self)
        requires
            self.wf(),
        ensures
            distinct(self@.connections),
    {
    }

    /// A peer that speaks `protocol_id` and has no connections yet.
    pub fn start(protocol_id: &str, config: Config) -> (r: Peer)
        ensures
            r.wf(),
            r@ == started(protocol_id.spec_bytes(), config),
    {
        let r = Peer { protocol: protocol_id.as_bytes_vec(), config, connections: Vec::new() };
        assert(r@.connections =~= Seq::<ConnectionView>::empty());
        r
    }

    /// Gives the peer up with all its connections. Nobody is told.
    pub fn stop(self) {
    }

    /// How many connections there are, pending ones included.
    pub fn connection_count(&self) -> (r: usize)
        ensures
            r == self@.connections.len(),
    {
        self.connections.len()
    }

    /// The place of the connection to `identity`, if there is one.
    fn find(&self, identity: PeerIdentity) -> (r: Option<usize>)
        requires
            self.wf(),
        ensures
            r.is_some() == self@.knows(identity),
            r.is_some() ==> r.unwrap() == self@.slot(identity) && r.unwrap()
                < self.connections@.len(),
    {
        let mut i: usize = 0;
        while i < self.connections.len()
            invariant
                self.wf(),
                i <= self.connections.len(),
                forall|k: int| 0 <= k < i ==> (#[trigger] self@.connections[k]).identity != identity,
            decreases self.connections.len() - i,
        {
            if self.connections[i].identity() == identity {
                proof {
                    let views = self@.connections;
                    assert(views[i as int].identity == identity);
                    let slot = self@.slot(identity);
                    assert(views[slot].identity == identity);
                    if slot != i {
                        assert(views[slot].identity != views[i as int].identity);
                    }
                }
                return Some(i);
            }
            i += 1;
        }
        None
    }

    /// Whether the connection to `identity` is complete.
    pub fn is_connected(&self, identity: PeerIdentity) -> (r: bool)
        requires
            self.wf(),
        ensures
            r == self@.connected(identity),
    {
        match self.find(identity) {
            Some(i) => match self.connections[i].state() {
                ConnectionState::Connected => true,
                _ => false,
            },
            None => false,
        }
    }

    /// Asks `remote` for a connection at `now` and returns the handshake to
    /// send there. Whether it worked shows later: as a new peer, or not at
    /// all. Where there is a connection to `remote` already, nothing happens.
    pub fn connect(&mut self, remote: PeerIdentity, now: u64) -> (r: Option<Datagram>)
        requires
            old(self).wf(),
        ensures
            final(self).wf(),
            final(self)@ == old(self)@.connecting(remote, now).0,
            datagram_view(r) == old(self)@.connecting(remote, now).1,
    {
        if self.find(remote).is_some() {
            return None;
        }
        let ghost before = self.connections@;
        let ghost views = self@.connections;
        let connection = Connection::open(remote, ConnectionState::Connecting, now, &self.config);
        self.connections.push(connection);
        proof {
            assert(connection_views(self.connections@) =~= views.push(connection@));
            lemma_push_keeps_distinct(views, connection@);
            assert forall|k: int| 0 <= k < self.connections@.len() implies (
            #[trigger] self.connections@[k]).wf() by {
                if k < before.len() {
                    assert(before[k].wf());
                }
            }
        }
        let handshake = Packet::Handshake { protocol: copy_bytes(&self.protocol) };
        Some(Datagram { address: remote, data: handshake.encode() })
    }

    /// Gets `payload` ready to go to `remote` at `now` with the guarantee
    /// asked for, and tells what to do with it. No connection is ever opened
    /// by sending.
    pub fn send(&mut self, remote: PeerIdentity, payload: Vec<u8>, tier: Reliability, now: u64) -> (r:
        Sending)
        requires
            old(self).wf(),
        ensures
            final(self).wf(),
            final(self)@ == old(self)@.sending(remote, payload@, tier, now).0,
            r@ == old(self)@.sending(remote, payload@, tier, now).1,
    {
        let i = match self.find(remote) {
            Some(i) => i,
            None => {
                return Sending::NotConnected;
            },
        };
        let ghost before = self.connections@;
        let ghost views = self@.connections;
        let connection = &mut self.connections[i];
        let r = connection.prepare(payload, tier, now);
        proof {
            let after = views[i as int].prepared(payload@, tier, now).connection;
            assert(self.connections@[i as int]@ == after);
            assert(connection_views(self.connections@) =~= views.update(i as int, after));
            lemma_update_keeps_distinct(views, i as int, after);
            assert forall|k: int| 0 <= k < self.connections@.len() implies (
            #[trigger] self.connections@[k]).wf() by {
                if k != i {
                    assert(before[k].wf());
                }
            }
        }
        r
    }

    /// Takes a datagram that arrived from `source` at `now`.
    pub fn receive(&mut self, source: PeerIdentity, data: &Vec<u8>, now: u64) -> (r: Receipt)
        requires
            old(self).wf(),
        ensures
            final(self).wf(),
            final(self)@ == old(self)@.received(source, data@, now).peer,
            event_view(r.event) == old(self)@.received(source, data@, now).event,
            datagram_view(r.reply) == old(self)@.received(source, data@, now).reply,
    {
        let packet = match Packet::decode(data) {
            Some(packet) => packet,
            None => {
                return Receipt { event: None, reply: None };
            },
        };
        let ghost before = self.connections@;
        let ghost views = self@.connections;
        match self.find(source) {
            Some(i) => {
                let connection = &mut self.connections[i];
                let handling = connection.handle(packet, &self.protocol, now);
                proof {
                    let after = views[i as int].handled(packet@, self.protocol@, now).connection;
                    assert(self.connections@[i as int]@ == after);
                    assert(connection_views(self.connections@) =~= views.update(i as int, after));
                    lemma_update_keeps_distinct(views, i as int, after);
                    assert forall|k: int| 0 <= k < self.connections@.len() implies (
                    #[trigger] self.connections@[k]).wf() by {
                        if k != i {
                            assert(before[k].wf());
                        }
                    }
                }
                let event = if handling.connected {
                    Some(Event::NewPeer { address: source })
                } else {
                    match handling.delivered {
                        Some(payload) => Some(Event::Message { source, data: payload }),
                        None => None,
                    }
                };
                let reply = match handling.reply {
                    Some(reply) => Some(Datagram { address: source, data: reply.encode() }),
                    None => None,
                };
                Receipt { event, reply }
            },
            None => {
                match packet {
                    Packet::Handshake { protocol: theirs } => {
                        if !bytes_equal(&theirs, &self.protocol) {
                            return Receipt { event: None, reply: None };
                        }
                        let connection = Connection::open(
                            source,
                            ConnectionState::Connected,
                            now,
                            &self.config,
                        );
                        self.connections.push(connection);
                        proof {
                            assert(connection_views(self.connections@) =~= views.push(
                                connection@,
                            ));
                            lemma_push_keeps_distinct(views, connection@);
                            assert forall|k: int| 0 <= k < self.connections@.len() implies (
                            #[trigger] self.connections@[k]).wf() by {
                                if k < before.len() {
                                    assert(before[k].wf());
                                }
                            }
                        }
                        let welcome = Packet::Welcome { protocol: copy_bytes(&self.protocol) };
                        Receipt {
                            event: Some(Event::NewPeer { address: source }),
                            reply: Some(Datagram { address: source, data: welcome.encode() }),
                        }
                    },
                    _ => Receipt { event: None, reply: None },
                }
            },
        }
    }

    /// Gives up every connection that has expired at `now`: each is reported
    /// once, in the order of the table, and removed. The others stay as they
    /// are.
    pub fn sweep(&mut self, now: u64) -> (events: Vec<Event>)
        requires
            old(self).wf(),
        ensures
            final(self).wf(),
            final(self)@ == (PeerView {
                connections: survivors(old(self)@.connections, now, old(self)@.config.timeout),
                ..old(self)@
            }),
            event_views(events@) == casualties(
                old(self)@.connections,
                now,
                old(self)@.config.timeout,
            ),
    {
        let ghost initial = self@.connections;
        let ghost mut seen: int = 0;
        let timeout = self.config.timeout;
        let mut events: Vec<Event> = Vec::new();
        let mut i: usize = 0;
        proof {
            assert(initial.subrange(0, 0) =~= Seq::<ConnectionView>::empty());
            assert(self@.connections.subrange(0, 0) =~= survivors(
                initial.subrange(0, 0),
                now,
                timeout,
            ));
            assert(self@.connections.subrange(0, self@.connections.len() as int)
                =~= initial.subrange(0, initial.len() as int));
            assert(event_views(events@) =~= casualties(initial.subrange(0, 0), now, timeout));
        }
        while i < self.connections.len()
            invariant
                i <= self.connections.len(),
                self.protocol == old(self).protocol,
                self.config == old(self).config,
                timeout == self.config.timeout,
                initial == old(self)@.connections,
                forall|k: int|
                    0 <= k < self.connections@.len() ==> (#[trigger] self.connections@[k]).wf(),
                0 <= seen <= initial.len(),
                self@.connections.len() - i == initial.len() - seen,
                self@.connections.subrange(0, i as int) == survivors(
                    initial.subrange(0, seen),
                    now,
                    timeout,
                ),
                self@.connections.subrange(i as int, self@.connections.len() as int)
                    == initial.subrange(seen, initial.len() as int),
                event_views(events@) == casualties(initial.subrange(0, seen), now, timeout),
            decreases self.connections.len() - i,
        {
            let ghost before = self@.connections;
            let ghost table = self.connections@;
            let ghost reported = event_views(events@);
            let ghost current = before[i as int];
            proof {
                assert(current == before.subrange(i as int, before.len() as int)[0]);
                assert(current == initial[seen]);
                assert(initial.subrange(0, seen + 1) =~= initial.subrange(0, seen).push(
                    current,
                ));
                lemma_sweep_push(initial.subrange(0, seen), current, now, timeout);
            }
            if self.connections[i].is_expired(now, timeout) {
                let address = self.connections[i].identity();
                self.connections.remove(i);
                events.push(Event::PeerTimedOut { address });
                proof {
                    seen = seen + 1;
                    assert(self.connections@ =~= table.remove(i as int));
                    assert(self@.connections =~= before.remove(i as int));
                    assert(self@.connections.subrange(0, i as int) =~= before.subrange(
                        0,
                        i as int,
                    ));
                    assert(self@.connections.subrange(i as int, self@.connections.len() as int)
                        =~= before.subrange(i as int, before.len() as int).subrange(
                        1,
                        before.len() - i,
                    ));
                    assert(initial.subrange(seen, initial.len() as int)
                        =~= initial.subrange(seen - 1, initial.len() as int).subrange(
                        1,
                        initial.len() - seen + 1,
                    ));
                    assert(event_views(events@) =~= reported.push(
                        EventView::PeerTimedOut { address },
                    ));
                    assert forall|k: int| 0 <= k < self.connections@.len() implies (
                    #[trigger] self.connections@[k]).wf() by {
                        if k < i {
                            assert(table[k].wf());
                        } else {
                            assert(table[k + 1].wf());
                        }
                    }
                }
            } else {
                i += 1;
                proof {
                    seen = seen + 1;
                    assert(self@.connections.subrange(0, i as int) =~= self@.connections.subrange(
                        0,
                        i - 1,
                    ).push(current));
                    assert(self@.connections.subrange(i as int, self@.connections.len() as int)
                        =~= before.subrange(i - 1, before.len() as int).subrange(
                        1,
                        before.len() - i + 1,
                    ));
                    assert(initial.subrange(seen, initial.len() as int)
                        =~= initial.subrange(seen - 1, initial.len() as int).subrange(
                        1,
                        initial.len() - seen + 1,
                    ));
                }
            }
        }
        proof {
            assert(self@.connections.subrange(0, i as int) =~= self@.connections);
            assert(initial.subrange(0, seen) =~= initial);
            lemma_survivors_distinct(initial, now, timeout);
        }
        events
    }

    /// Does the upkeep of every connection at `now` and returns what has to
    /// be sent: reliable messages that are due again, and handshakes where
    /// nothing else went out for a while.
    pub fn upkeep(&mut self, now: u64) -> (outgoing: Vec<Datagram>)
        requires
            old(self).wf(),
        ensures
            final(self).wf(),
            final(self)@ == (PeerView {
                connections: upkept(
                    old(self)@.connections,
                    old(self)@.protocol,
                    now,
                    old(self)@.config,
                ),
                ..old(self)@
            }),
            datagram_views(outgoing@) == upkeep_datagrams(
                old(self)@.connections,
                old(self)@.protocol,
                now,
                old(self)@.config,
            ),
    {
        let ghost initial = self@.connections;
        let ghost protocol = self@.protocol;
        let ghost config = self@.config;
        let mut outgoing: Vec<Datagram> = Vec::new();
        let mut i: usize = 0;
        proof {
            assert(initial.subrange(0, 0) =~= Seq::<ConnectionView>::empty());
            assert(datagram_views(outgoing@) =~= upkeep_datagrams(
                initial.subrange(0, 0),
                protocol,
                now,
                config,
            ));
        }
        while i < self.connections.len()
            invariant
                i <= self.connections.len(),
                self.protocol == old(self).protocol,
                self.config == old(self).config,
                protocol == self.protocol@,
                config == self.config,
                initial == old(self)@.connections,
                self.connections@.len() == initial.len(),
                forall|k: int|
                    0 <= k < self.connections@.len() ==> (#[trigger] self.connections@[k]).wf(),
                forall|k: int|
                    0 <= k < i ==> (#[trigger] self.connections@[k])@ == initial[k].maintained(
                        protocol,
                        now,
                        config,
                    ).connection,
                forall|k: int|
                    i <= k < initial.len() ==> (#[trigger] self.connections@[k])@ == initial[k],
                datagram_views(outgoing@) == upkeep_datagrams(
                    initial.subrange(0, i as int),
                    protocol,
                    now,
                    config,
                ),
            decreases self.connections.len() - i,
        {
            let ghost table = self.connections@;
            let ghost sent = datagram_views(outgoing@);
            let ghost current = initial[i as int];
            proof {
                assert(table[i as int]@ == current);
                assert(initial.subrange(0, i + 1) =~= initial.subrange(0, i as int).push(
                    current,
                ));
                lemma_upkeep_push(initial.subrange(0, i as int), current, protocol, now, config);
            }
            let address = self.connections[i].identity();
            let connection = &mut self.connections[i];
            let datagrams = connection.maintain(&self.protocol, now, &self.config);
            proof {
                assert forall|k: int| 0 <= k < self.connections@.len() implies (
                #[trigger] self.connections@[k]).wf() by {
                    if k != i {
                        assert(table[k].wf());
                    }
                }
                assert forall|k: int| 0 <= k < i implies (#[trigger] self.connections@[k])@
                    == initial[k].maintained(protocol, now, config).connection by {
                    assert(self.connections@[k] == table[k]);
                }
                assert forall|k: int| i < k < initial.len() implies (
                #[trigger] self.connections@[k])@ == initial[k] by {
                    assert(self.connections@[k] == table[k]);
                }
            }
            let ghost expected = current.maintained(protocol, now, config).datagrams;
            let mut j: usize = 0;
            assert(datagram_views(outgoing@) =~= sent + addressed(
                address,
                expected.subrange(0, 0),
            ));
            while j < datagrams.len()
                invariant
                    j <= datagrams.len(),
                    bytes_views(datagrams@) == expected,
                    datagram_views(outgoing@) == sent + addressed(
                        address,
                        expected.subrange(0, j as int),
                    ),
                decreases datagrams.len() - j,
            {
                let ghost so_far = datagram_views(outgoing@);
                assert(bytes_views(datagrams@)[j as int] == datagrams@[j as int]@);
                outgoing.push(Datagram { address, data: copy_bytes(&datagrams[j]) });
                j += 1;
                assert(datagram_views(outgoing@) =~= so_far.push(
                    DatagramView { address, data: expected[j - 1] },
                ));
                assert(addressed(address, expected.subrange(0, j as int)) =~= addressed(
                    address,
                    expected.subrange(0, j - 1),
                ).push(DatagramView { address, data: expected[j - 1] }));
            }
            proof {
                assert(bytes_views(datagrams@).len() == datagrams@.len());
                assert(expected.subrange(0, j as int) =~= expected);
            }
            i += 1;
        }
        proof {
            assert(initial.subrange(0, i as int) =~= initial);
            let after = upkept(initial, protocol, now, config);
            assert(self@.connections =~= after);
            assert forall|a: int, b: int|
                0 <= a < after.len() && 0 <= b < after.len() && a != b implies (
            #[trigger] after[a]).identity != (#[trigger] after[b]).identity by {
                assert(after[a].identity == initial[a].identity);
                assert(after[b].identity == initial[b].identity);
            }
        }
        outgoing
    }

    /// One turn of the peer at `now`: takes in the datagrams that the caller
    /// read from the socket since the last turn, gives up the connections that
    /// have expired, does the upkeep of the others, and hands back what
    /// happened and what has to be sent. It never waits; with nothing read
    /// and nothing due, both lists are empty.
    pub fn poll(&mut self, incoming: &Vec<Datagram>, now: u64) -> (r: Poll)
        requires
            old(self).wf(),
        ensures
            final(self).wf(),
            final(self)@ == old(self)@.polled(datagram_views(incoming@), now).peer,
            event_views(r.events@) == old(self)@.polled(datagram_views(incoming@), now).events,
            datagram_views(r.outgoing@) == old(self)@.polled(
                datagram_views(incoming@),
                now,
            ).outgoing,
    {
        let ghost start = self@;
        let ghost arrived = datagram_views(incoming@);
        let mut events: Vec<Event> = Vec::new();
        let mut outgoing: Vec<Datagram> = Vec::new();
        let mut i: usize = 0;
        proof {
            assert(arrived.subrange(0, 0) =~= Seq::<DatagramView>::empty());
            assert(event_views(events@) =~= Seq::<EventView>::empty());
            assert(datagram_views(outgoing@) =~= Seq::<DatagramView>::empty());
        }
        while i < incoming.len()
            invariant
                i <= incoming.len(),
                self.wf(),
                start == old(self)@,
                arrived == datagram_views(incoming@),
                self@ == start.received_all(arrived.subrange(0, i as int), now).peer,
                event_views(events@) == start.received_all(
                    arrived.subrange(0, i as int),
                    now,
                ).events,
                datagram_views(outgoing@) == start.received_all(
                    arrived.subrange(0, i as int),
                    now,
                ).outgoing,
            decreases incoming.len() - i,
        {
            let ghost happened = event_views(events@);
            let ghost sent = datagram_views(outgoing@);
            let ghost shorter = arrived.subrange(0, i as int);
            let ghost longer = arrived.subrange(0, i + 1);
            proof {
                assert(arrived[i as int] == incoming@[i as int]@);
                assert(longer.drop_last() =~= shorter);
                assert(longer.last() == arrived[i as int]);
            }
            let receipt = self.receive(incoming[i].address, &incoming[i].data, now);
            match receipt.event {
                Some(event) => {
                    events.push(event);
                    assert(event_views(events@) =~= happened + seq![event@]);
                },
                None => {
                    assert(event_views(events@) =~= happened + Seq::<EventView>::empty());
                },
            }
            match receipt.reply {
                Some(reply) => {
                    outgoing.push(reply);
                    assert(datagram_views(outgoing@) =~= sent + seq![reply@]);
                },
                None => {
                    assert(datagram_views(outgoing@) =~= sent + Seq::<DatagramView>::empty());
                },
            }
            i += 1;
        }
        proof {
            assert(arrived.subrange(0, i as int) =~= arrived);
            lemma_received_keeps_settings(start, arrived, now);
        }
        let ghost happened = event_views(events@);
        let ghost sent = datagram_views(outgoing@);
        let mut given_up = self.sweep(now);
        let ghost reports = event_views(given_up@);
        events.append(&mut given_up);
        assert(event_views(events@) =~= happened + reports);
        let mut due = self.upkeep(now);
        let ghost resent = datagram_views(due@);
        outgoing.append(&mut due);
        assert(datagram_views(outgoing@) =~= sent + resent);
        Poll { events, outgoing }
    }
}

} // verus!
