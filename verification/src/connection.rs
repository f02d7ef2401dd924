//! One remote endpoint as the local peer knows it: where it stands in its
//! lifecycle, when it was last heard from, and the bookkeeping of each
//! delivery tier.

use vstd::prelude::*;
use crate::envelope::{Packet, PacketView, Reliability, packet_bytes};
use crate::reliable::{
    PendingEntry,
    ReliableReceiver,
    ResendEntry,
    RetryBuffer,
    after_resend,
    due_entries,
    remember,
    resend_views,
    without,
};
use crate::sequence::{SequenceCounter, SequencedReceiver, successor};
use crate::wire::{bytes_equal, bytes_views, copy_bytes};

verus! {

/// A remote endpoint: its host as a 128-bit number (an IPv4 host in its
/// IPv6-mapped form) and its port. The transport does not look inside.
#[derive(Clone, Copy, Debug, PartialEq, Eq, Hash, Structural)]
pub struct PeerIdentity {
    pub host: u128,
    pub port: u16,
}

/// Where a connection stands.
#[derive(Clone, Copy, Debug, PartialEq, Eq, Structural)]
pub enum ConnectionState {
    /// We asked for it and wait for the answer.
    Connecting,
    /// The protocol identifiers matched.
    Connected,
    /// Given up; it will be reported and removed, and nothing revives it.
    TimedOut,
}

/// The settings of a peer. Times are in milliseconds.
#[derive(Clone, Copy, Debug, PartialEq, Eq, Structural)]
pub struct Config {
    /// A connection that was silent for longer than this is given up.
    pub timeout: u64,
    /// An unacknowledged reliable message goes out again after this long.
    pub resend_interval: u64,
    /// After this long without sending anything, a handshake is sent to show
    /// that we are still there.
    pub heartbeat_interval: u64,
    /// How many reliable messages may wait for their acknowledgement.
    pub retry_capacity: usize,
    /// How many delivered reliable messages the receiver remembers.
    pub remembered: usize,
}

impl Config {
    /// The number of delivered reliable messages that are remembered: at
    /// least one.
    pub open spec fn remembered_limit(self) -> nat {
        if self.remembered == 0 {
            1
        } else {
            self.remembered as nat
        }
    }
}

/// One remote endpoint as the local peer knows it.
pub struct Connection {
    identity: PeerIdentity,
    state: ConnectionState,
    last_seen: u64,
    last_sent: u64,
    sequenced_out: SequenceCounter,
    reliable_out: SequenceCounter,
    sequenced_in: SequencedReceiver,
    reliable_in: ReliableReceiver,
    retry: RetryBuffer,
}

/// What `Connection` stands for.
pub struct ConnectionView {
    pub identity: PeerIdentity,
    pub state: ConnectionState,
    /// When a packet from there was last accepted.
    pub last_seen: u64,
    /// When a datagram last went there.
    pub last_sent: u64,
    /// The number of the next sequenced message to go out.
    pub sequenced_out: u16,
    /// The number of the next reliable message to go out.
    pub reliable_out: u16,
    /// The newest sequenced message delivered.
    pub sequenced_in: Option<u16>,
    /// The reliable messages delivered most recently, oldest first.
    pub remembered: Seq<u16>,
    pub remembered_limit: nat,
    /// The reliable messages that wait for their acknowledgement.
    pub retry: Seq<PendingEntry>,
    pub retry_capacity: nat,
}

/// What became of a packet from a known endpoint.
#[derive(Clone, Debug, PartialEq, Eq)]
pub struct Handling {
    /// The packet completed the handshake: the endpoint is a new peer.
    pub connected: bool,
    /// The payload to hand to the application, if the packet carries one
    /// that is to be delivered.
    pub delivered: Option<Vec<u8>>,
    /// The packet to send back, if one is owed.
    pub reply: Option<Packet>,
}

/// What `Handling` stands for, together with the connection afterwards.
pub struct Handled {
    pub connection: ConnectionView,
    pub connected: bool,
    pub delivered: Option<Seq<u8>>,
    pub reply: Option<PacketView>,
}

impl ConnectionView {
    /// A connection that has just been opened.
    pub open spec fn fresh(
        identity: PeerIdentity,
        state: ConnectionState,
        now: u64,
        config: Config,
    ) -> ConnectionView {
        ConnectionView {
            identity,
            state,
            last_seen: now,
            last_sent: now,
            sequenced_out: 0,
            reliable_out: 0,
            sequenced_in: None,
            remembered: Seq::empty(),
            remembered_limit: config.remembered_limit(),
            retry: Seq::empty(),
            retry_capacity: config.retry_capacity as nat,
        }
    }

    /// The connection has to be given up at `now`: it was marked so, or
    /// nothing was accepted from there for longer than `timeout`.
    pub open spec fn expired(self, now: u64, timeout: u64) -> bool {
        self.state == ConnectionState::TimedOut || now - self.last_seen > timeout
    }

    /// Nothing happened: the packet is dropped without a trace.
    pub open spec fn ignored(self) -> Handled {
        Handled { connection: self, connected: false, delivered: None, reply: None }
    }

    /// The connection once the other side has shown the right protocol
    /// identifier at `now`.
    pub open spec fn greeted(self, now: u64) -> ConnectionView {
        ConnectionView { state: ConnectionState::Connected, last_seen: now, ..self }
    }

    /// What a packet from this endpoint, arriving at `now`, does.
    ///
    /// A connection that was given up takes nothing. A handshake or a welcome
    /// counts only with our own protocol identifier; it completes a pending
    /// connection, and a handshake is answered with a welcome. Everything else
    /// is dropped until the connection is complete. After that every packet
    /// counts as heard: an unreliable payload is delivered as it is, a
    /// sequenced one if it is newer than the last, a reliable one is
    /// acknowledged and delivered unless remembered, and an acknowledgement
    /// releases what waited for it.
    pub open spec fn handled(self, packet: PacketView, protocol: Seq<u8>, now: u64) -> Handled {
        if self.state == ConnectionState::TimedOut {
            self.ignored()
        } else {
            match packet {
                PacketView::Handshake { protocol: theirs } => {
                    if theirs == protocol {
                        Handled {
                            connection: ConnectionView { last_sent: now, ..self.greeted(now) },
                            connected: self.state == ConnectionState::Connecting,
                            delivered: None,
                            reply: Some(PacketView::Welcome { protocol }),
                        }
                    } else {
                        self.ignored()
                    }
                },
                PacketView::Welcome { protocol: theirs } => {
                    if theirs == protocol {
                        Handled {
                            connection: self.greeted(now),
                            connected: self.state == ConnectionState::Connecting,
                            delivered: None,
                            reply: None,
                        }
                    } else {
                        self.ignored()
                    }
                },
                _ => {
                    if self.state == ConnectionState::Connecting {
                        self.ignored()
                    } else {
                        self.handled_data(packet, now)
                    }
                },
            }
        }
    }

    /// What a data packet or an acknowledgement does to a complete connection.
    pub open spec fn handled_data(self, packet: PacketView, now: u64) -> Handled {
        let heard = ConnectionView { last_seen: now, ..self };
        match packet {
            PacketView::Unreliable { payload } => Handled {
                connection: heard,
                connected: false,
                delivered: Some(payload),
                reply: None,
            },
            PacketView::Sequenced { sequence, payload } => {
                let receiver = SequencedReceiver { latest: self.sequenced_in };
                Handled {
                    connection: ConnectionView {
                        sequenced_in: receiver.after(sequence).latest,
                        ..heard
                    },
                    connected: false,
                    delivered: if receiver.accepts(sequence) {
                        Some(payload)
                    } else {
                        None
                    },
                    reply: None,
                }
            },
            PacketView::Reliable { sequence, payload } => Handled {
                connection: ConnectionView {
                    remembered: remember(self.remembered, self.remembered_limit, sequence),
                    last_sent: now,
                    ..heard
                },
                connected: false,
                delivered: if self.remembered.contains(sequence) {
                    None
                } else {
                    Some(payload)
                },
                reply: Some(PacketView::Acknowledge { sequence }),
            },
            PacketView::Acknowledge { sequence } => Handled {
                connection: ConnectionView { retry: without(self.retry, sequence), ..heard },
                connected: false,
                delivered: None,
                reply: None,
            },
            _ => self.ignored(),
        }
    }
}

/// What became of a message that the application asked to send.
#[derive(Clone, Debug, PartialEq, Eq)]
pub enum Sending {
    /// This datagram has to go to the endpoint.
    Transmit(Vec<u8>),
    /// There is no complete connection to the endpoint: nothing is sent.
    NotConnected,
    /// Too many reliable messages wait for their acknowledgement: nothing is
    /// sent and the connection is given up.
    Overflow,
}

/// What `Sending` stands for.
pub enum SendingView {
    Transmit(Seq<u8>),
    NotConnected,
    Overflow,
}

impl View for Sending {
    type V = SendingView;

    open spec fn view(&self) -> SendingView {
        match self {
            Sending::Transmit(datagram) => SendingView::Transmit(datagram@),
            Sending::NotConnected => SendingView::NotConnected,
            Sending::Overflow => SendingView::Overflow,
        }
    }
}

/// A connection after a send, and what became of the message.
pub struct Prepared {
    pub connection: ConnectionView,
    pub sending: SendingView,
}

/// A connection after its upkeep, and the datagrams that have to go out.
pub struct Maintained {
    pub connection: ConnectionView,
    pub datagrams: Seq<Seq<u8>>,
}

/// The datagrams that carry the given reliable messages once more.
pub open spec fn resend_datagrams(due: Seq<ResendEntry>) -> Seq<Seq<u8>> {
    Seq::new(
        due.len(),
        |i: int|
            packet_bytes(PacketView::Reliable { sequence: due[i].sequence, payload: due[i].payload }),
    )
}

impl ConnectionView {
    /// What sending `payload` at `now` with the given guarantee does.
    ///
    /// Nothing, unless the connection is complete. An unreliable message just
    /// goes out. A sequenced or reliable one takes the next number of its
    /// tier. A reliable one is also kept for resending; where no room is left
    /// for it, nothing goes out and the connection is given up.
    pub open spec fn prepared(self, payload: Seq<u8>, tier: Reliability, now: u64) -> Prepared {
        if self.state != ConnectionState::Connected {
            Prepared { connection: self, sending: SendingView::NotConnected }
        } else {
            match tier {
                Reliability::Unreliable => Prepared {
                    connection: ConnectionView { last_sent: now, ..self },
                    sending: SendingView::Transmit(
                        packet_bytes(PacketView::Unreliable { payload }),
                    ),
                },
                Reliability::Sequenced => Prepared {
                    connection: ConnectionView {
                        last_sent: now,
                        sequenced_out: successor(self.sequenced_out),
                        ..self
                    },
                    sending: SendingView::Transmit(
                        packet_bytes(
                            PacketView::Sequenced { sequence: self.sequenced_out, payload },
                        ),
                    ),
                },
                Reliability::Reliable => {
                    if self.retry.len() >= self.retry_capacity {
                        Prepared {
                            connection: ConnectionView {
                                state: ConnectionState::TimedOut,
                                ..self
                            },
                            sending: SendingView::Overflow,
                        }
                    } else {
                        Prepared {
                            connection: ConnectionView {
                                last_sent: now,
                                reliable_out: successor(self.reliable_out),
                                retry: self.retry.push(
                                    PendingEntry {
                                        sequence: self.reliable_out,
                                        payload,
                                        last_sent: now,
                                    },
                                ),
                                ..self
                            },
                            sending: SendingView::Transmit(
                                packet_bytes(
                                    PacketView::Reliable { sequence: self.reliable_out, payload },
                                ),
                            ),
                        }
                    }
                },
            }
        }
    }

    /// A handshake is due as a sign of life: nothing went out for a whole
    /// heartbeat interval.
    pub open spec fn quiet(self, now: u64, config: Config) -> bool {
        self.last_sent + config.heartbeat_interval <= now
    }

    /// What the upkeep at `now` does.
    ///
    /// Every reliable message that has waited a whole resend interval goes out
    /// again. Where none does and nothing else went out for a whole heartbeat
    /// interval, a handshake goes out instead: it asks again while the
    /// connection is pending and shows that we are there once it is complete.
    /// A connection that was given up sends nothing.
    pub open spec fn maintained(self, protocol: Seq<u8>, now: u64, config: Config) -> Maintained {
        let due = due_entries(self.retry, now, config.resend_interval);
        if self.state == ConnectionState::TimedOut {
            Maintained { connection: self, datagrams: Seq::empty() }
        } else if due.len() > 0 {
            Maintained {
                connection: ConnectionView {
                    last_sent: now,
                    retry: after_resend(self.retry, now, config.resend_interval),
                    ..self
                },
                datagrams: resend_datagrams(due),
            }
        } else if self.quiet(now, config) {
            Maintained {
                connection: ConnectionView {
                    last_sent: now,
                    retry: after_resend(self.retry, now, config.resend_interval),
                    ..self
                },
                datagrams: seq![packet_bytes(PacketView::Handshake { protocol })],
            }
        } else {
            Maintained {
                connection: ConnectionView {
                    retry: after_resend(self.retry, now, config.resend_interval),
                    ..self
                },
                datagrams: Seq::empty(),
            }
        }
    }
}

/// The view of a payload that may be there.
pub open spec fn payload_view(payload: Option<Vec<u8>>) -> Option<Seq<u8>> {
    match payload {
        Some(bytes) => Some(bytes@),
        None => None,
    }
}

/// The view of a packet that may be there.
pub open spec fn packet_view(packet: Option<Packet>) -> Option<PacketView> {
    match packet {
        Some(packet) => Some(packet@),
        None => None,
    }
}

impl Connection {
    /// The connection as the contracts speak of it.
    pub closed spec fn view(&self) -> ConnectionView {
        ConnectionView {
            identity: self.identity,
            state: self.state,
            last_seen: self.last_seen,
            last_sent: self.last_sent,
            sequenced_out: self.sequenced_out.next,
            reliable_out: self.reliable_out.next,
            sequenced_in: self.sequenced_in.latest,
            remembered: self.reliable_in@,
            remembered_limit: self.reliable_in.limit(),
            retry: self.retry@,
            retry_capacity: self.retry.capacity(),
        }
    }

    /// The buffers keep within their bounds.
    pub closed spec fn wf(&self) -> bool {
        self.retry.wf() && self.reliable_in.wf()
    }

    /// A well-formed connection remembers at least one reliable message and
    /// holds no more unacknowledged ones than its capacity.
    pub proof fn lemma_bounded(&self)
        requires
            self.wf(),
        ensures
            self@.remembered_limit >= 1,
            self@.retry.len() <= self@.retry_capacity,
    {
        self.retry.lemma_bounded();
        self.reliable_in.lemma_bounded();
    }

    /// Opens a connection to `identity` at `now`: pending where we ask for
    /// it, complete where the other side has already shown the right protocol
    /// identifier.
    pub fn open(identity: PeerIdentity, state: ConnectionState, now: u64, config: &Config) -> (r:
        Connection)
        ensures
            r.wf(),
            r@ == ConnectionView::fresh(identity, state, now, *config),
    {
        Connection {
            identity,
            state,
            last_seen: now,
            last_sent: now,
            sequenced_out: SequenceCounter::new(),
            reliable_out: SequenceCounter::new(),
            sequenced_in: SequencedReceiver::new(),
            reliable_in: ReliableReceiver::new(config.remembered),
            retry: RetryBuffer::new(config.retry_capacity),
        }
    }

    /// The endpoint at the other side.
    pub fn identity(&self) -> (r: PeerIdentity)
        ensures
            r == self@.identity,
    {
        self.identity
    }

    /// Where the connection stands.
    pub fn state(&self) -> (r: ConnectionState)
        ensures
            r == self@.state,
    {
        self.state
    }

    /// When a packet from there was last accepted.
    pub fn last_seen(&self) -> (r: u64)
        ensures
            r == self@.last_seen,
    {
        self.last_seen
    }

    /// Whether the connection has to be given up at `now`.
    pub fn is_expired(&self, now: u64, timeout: u64) -> (r: bool)
        ensures
            r == self@.expired(now, timeout),
    {
        match self.state {
            ConnectionState::TimedOut => true,
            _ => now > self.last_seen && now - self.last_seen > timeout,
        }
    }

    /// Takes a packet that arrived from this endpoint at `now`.
    pub fn handle(&mut self, packet: Packet, protocol: &Vec<u8>, now: u64) -> (r: Handling)
        requires
            old(self).wf(),
        ensures
            final(self).wf(),
            final(self)@ == old(self)@.handled(packet@, protocol@, now).connection,
            r.connected == old(self)@.handled(packet@, protocol@, now).connected,
            payload_view(r.delivered) == old(self)@.handled(packet@, protocol@, now).delivered,
            packet_view(r.reply) == old(self)@.handled(packet@, protocol@, now).reply,
    {
        let nothing = Handling { connected: false, delivered: None, reply: None };
        let pending = match self.state {
            ConnectionState::TimedOut => {
                return nothing;
            },
            ConnectionState::Connecting => true,
            ConnectionState::Connected => false,
        };
        match packet {
            Packet::Handshake { protocol: theirs } => {
                if !bytes_equal(&theirs, protocol) {
                    return nothing;
                }
                self.state = ConnectionState::Connected;
                self.last_seen = now;
                self.last_sent = now;
                Handling {
                    connected: pending,
                    delivered: None,
                    reply: Some(Packet::Welcome { protocol: copy_bytes(protocol) }),
                }
            },
            Packet::Welcome { protocol: theirs } => {
                if !bytes_equal(&theirs, protocol) {
                    return nothing;
                }
                self.state = ConnectionState::Connected;
                self.last_seen = now;
                Handling { connected: pending, delivered: None, reply: None }
            },
            Packet::Unreliable { payload } => {
                if pending {
                    return nothing;
                }
                self.last_seen = now;
                Handling { connected: false, delivered: Some(payload), reply: None }
            },
            Packet::Sequenced { sequence, payload } => {
                if pending {
                    return nothing;
                }
                self.last_seen = now;
                let deliver = self.sequenced_in.accept(sequence);
                Handling {
                    connected: false,
                    delivered: if deliver {
                        Some(payload)
                    } else {
                        None
                    },
                    reply: None,
                }
            },
            Packet::Reliable { sequence, payload } => {
                if pending {
                    return nothing;
                }
                self.last_seen = now;
                self.last_sent = now;
                let deliver = self.reliable_in.accept(sequence);
                Handling {
                    connected: false,
                    delivered: if deliver {
                        Some(payload)
                    } else {
                        None
                    },
                    reply: Some(Packet::Acknowledge { sequence }),
                }
            },
            Packet::Acknowledge { sequence } => {
                if pending {
                    return nothing;
                }
                self.last_seen = now;
                self.retry.acknowledge(sequence);
                nothing
            },
        }
    }

    /// Gets a message of the application ready to go to this endpoint at
    /// `now`, with the guarantee asked for.
    pub fn prepare(&mut self, payload: Vec<u8>, tier: Reliability, now: u64) -> (r: Sending)
        requires
            old(self).wf(),
        ensures
            final(self).wf(),
            final(self)@ == old(self)@.prepared(payload@, tier, now).connection,
            r@ == old(self)@.prepared(payload@, tier, now).sending,
    {
        match self.state {
            ConnectionState::Connected => {},
            _ => {
                return Sending::NotConnected;
            },
        }
        match tier {
            Reliability::Unreliable => {
                self.last_sent = now;
                Sending::Transmit(Packet::Unreliable { payload }.encode())
            },
            Reliability::Sequenced => {
                self.last_sent = now;
                let sequence = self.sequenced_out.take();
                Sending::Transmit(Packet::Sequenced { sequence, payload }.encode())
            },
            Reliability::Reliable => {
                if self.retry.is_full() {
                    self.state = ConnectionState::TimedOut;
                    return Sending::Overflow;
                }
                let kept = copy_bytes(&payload);
                let sequence = self.reliable_out.take();
                let pushed = self.retry.push(sequence, kept, now);
                assert(pushed.is_ok());
                self.last_sent = now;
                Sending::Transmit(Packet::Reliable { sequence, payload }.encode())
            },
        }
    }

    /// Does the upkeep that is due at `now` and returns the datagrams that
    /// have to go to this endpoint, in their order.
    pub fn maintain(&mut self, protocol: &Vec<u8>, now: u64, config: &Config) -> (r: Vec<Vec<u8>>)
        requires
            old(self).wf(),
        ensures
            final(self).wf(),
            final(self)@ == old(self)@.maintained(protocol@, now, *config).connection,
            bytes_views(r@) == old(self)@.maintained(protocol@, now, *config).datagrams,
    {
        let mut out: Vec<Vec<u8>> = Vec::new();
        match self.state {
            ConnectionState::TimedOut => {
                assert(bytes_views(out@) =~= Seq::<Seq<u8>>::empty());
                return out;
            },
            _ => {},
        }
        let ghost before = self@;
        let ghost expected = due_entries(before.retry, now, config.resend_interval);
        let mut due = self.retry.resend_due(now, config.resend_interval);
        if due.len() > 0 {
            self.last_sent = now;
            let mut i: usize = 0;
            while i < due.len()
                invariant
                    i <= due.len(),
                    out@.len() == i,
                    resend_views(due@) == expected,
                    forall|k: int|
                        0 <= k < i ==> (#[trigger] out@[k])@ == resend_datagrams(expected)[k],
                decreases due.len() - i,
            {
                assert(resend_views(due@)[i as int] == due@[i as int]@);
                let payload = copy_bytes(&due[i].payload);
                let packet = Packet::Reliable { sequence: due[i].sequence, payload };
                out.push(packet.encode());
                i += 1;
            }
            assert(resend_views(due@).len() == due@.len());
            assert(bytes_views(out@) =~= resend_datagrams(expected));
        } else if self.last_sent <= now && now - self.last_sent >= config.heartbeat_interval {
            assert(resend_views(due@).len() == due@.len());
            self.last_sent = now;
            out.push(Packet::Handshake { protocol: copy_bytes(protocol) }.encode());
            assert(bytes_views(out@) =~= seq![
                packet_bytes(PacketView::Handshake { protocol: protocol@ }),
            ]);
        } else {
            assert(resend_views(due@).len() == due@.len());
            assert(bytes_views(out@) =~= Seq::<Seq<u8>>::empty());
        }
        out
    }
}

} // verus!
