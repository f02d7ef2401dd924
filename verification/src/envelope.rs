//! The envelope around everything that travels in a datagram: one byte that
//! says what the datagram is, a sequence number where its kind has one, and
//! the payload.

use vstd::prelude::*;
use crate::wire::{bytes_from, get_u16, lemma_u16_round_trip, put_bytes, put_u16, u16_at, u16_le};

verus! {

/// The delivery guarantee that a sender asks for, message by message.
#[derive(Clone, Copy, Debug, PartialEq, Eq, Structural)]
pub enum Reliability {
    /// Delivered as it arrives, if it arrives: repeats and disorder included.
    Unreliable,
    /// Delivered only if it is newer than everything delivered before it.
    Sequenced,
    /// Sent again until acknowledged, and delivered once.
    Reliable,
}

/// First byte of a handshake.
pub const KIND_HANDSHAKE: u8 = 0;

/// First byte of an unreliable message.
pub const KIND_UNRELIABLE: u8 = 1;

/// First byte of a sequenced message.
pub const KIND_SEQUENCED: u8 = 2;

/// First byte of a reliable message.
pub const KIND_RELIABLE: u8 = 3;

/// First byte of an acknowledgement.
pub const KIND_ACKNOWLEDGE: u8 = 4;

/// First byte of a welcome.
pub const KIND_WELCOME: u8 = 5;

/// One datagram, taken apart.
#[derive(Clone, Debug, PartialEq, Eq)]
pub enum Packet {
    /// The sender's protocol identifier, first thing on a new connection.
    Handshake { protocol: Vec<u8> },
    Unreliable { payload: Vec<u8> },
    Sequenced { sequence: u16, payload: Vec<u8> },
    Reliable { sequence: u16, payload: Vec<u8> },
    /// The reliable message with this number has arrived.
    Acknowledge { sequence: u16 },
    /// The answer to a handshake: the answerer's protocol identifier. It is
    /// never answered itself.
    Welcome { protocol: Vec<u8> },
}

/// What `Packet` stands for.
pub enum PacketView {
    Handshake { protocol: Seq<u8> },
    Unreliable { payload: Seq<u8> },
    Sequenced { sequence: u16, payload: Seq<u8> },
    Reliable { sequence: u16, payload: Seq<u8> },
    Acknowledge { sequence: u16 },
    Welcome { protocol: Seq<u8> },
}

impl View for Packet {
    type V = PacketView;

    open spec fn view(&self) -> PacketView {
        match self {
            Packet::Handshake { protocol } => PacketView::Handshake { protocol: protocol@ },
            Packet::Unreliable { payload } => PacketView::Unreliable { payload: payload@ },
            Packet::Sequenced { sequence, payload } => PacketView::Sequenced {
                sequence: *sequence,
                payload: payload@,
            },
            Packet::Reliable { sequence, payload } => PacketView::Reliable {
                sequence: *sequence,
                payload: payload@,
            },
            Packet::Acknowledge { sequence } => PacketView::Acknowledge { sequence: *sequence },
            Packet::Welcome { protocol } => PacketView::Welcome { protocol: protocol@ },
        }
    }
}

/// The datagram that carries a packet.
pub open spec fn packet_bytes(packet: PacketView) -> Seq<u8> {
    match packet {
        PacketView::Handshake { protocol } => seq![KIND_HANDSHAKE] + protocol,
        PacketView::Unreliable { payload } => seq![KIND_UNRELIABLE] + payload,
        PacketView::Sequenced { sequence, payload } => seq![KIND_SEQUENCED] + u16_le(sequence)
            + payload,
        PacketView::Reliable { sequence, payload } => seq![KIND_RELIABLE] + u16_le(sequence)
            + payload,
        PacketView::Acknowledge { sequence } => seq![KIND_ACKNOWLEDGE] + u16_le(sequence),
        PacketView::Welcome { protocol } => seq![KIND_WELCOME] + protocol,
    }
}

/// The packet that a datagram carries, if it carries one: an empty datagram,
/// an unknown kind, a missing sequence number or bytes after an
/// acknowledgement make it none. The payload may be anything, empty too.
pub open spec fn parse_packet(data: Seq<u8>) -> Option<PacketView> {
    if data.len() == 0 {
        None
    } else if data[0] == KIND_HANDSHAKE {
        Some(PacketView::Handshake { protocol: data.subrange(1, data.len() as int) })
    } else if data[0] == KIND_UNRELIABLE {
        Some(PacketView::Unreliable { payload: data.subrange(1, data.len() as int) })
    } else if data[0] == KIND_SEQUENCED && data.len() >= 3 {
        Some(
            PacketView::Sequenced {
                sequence: u16_at(data, 1),
                payload: data.subrange(3, data.len() as int),
            },
        )
    } else if data[0] == KIND_RELIABLE && data.len() >= 3 {
        Some(
            PacketView::Reliable {
                sequence: u16_at(data, 1),
                payload: data.subrange(3, data.len() as int),
            },
        )
    } else if data[0] == KIND_ACKNOWLEDGE && data.len() == 3 {
        Some(PacketView::Acknowledge { sequence: u16_at(data, 1) })
    } else if data[0] == KIND_WELCOME {
        Some(PacketView::Welcome { protocol: data.subrange(1, data.len() as int) })
    } else {
        None
    }
}

/// Reading the datagram of a packet gives the packet back.
pub proof fn lemma_packet_round_trip(packet: PacketView)
    ensures
        parse_packet(packet_bytes(packet)) == Some(packet),
{
    let data = packet_bytes(packet);
    match packet {
        PacketView::Handshake { protocol } => {
            assert(data.subrange(1, data.len() as int) =~= protocol);
        },
        PacketView::Unreliable { payload } => {
            assert(data.subrange(1, data.len() as int) =~= payload);
        },
        PacketView::Sequenced { sequence, payload } => {
            lemma_u16_round_trip(seq![KIND_SEQUENCED], sequence, payload);
            assert(data.subrange(3, data.len() as int) =~= payload);
        },
        PacketView::Reliable { sequence, payload } => {
            lemma_u16_round_trip(seq![KIND_RELIABLE], sequence, payload);
            assert(data.subrange(3, data.len() as int) =~= payload);
        },
        PacketView::Acknowledge { sequence } => {
            lemma_u16_round_trip(seq![KIND_ACKNOWLEDGE], sequence, Seq::<u8>::empty());
            assert(data =~= seq![KIND_ACKNOWLEDGE] + u16_le(sequence) + Seq::<u8>::empty());
        },
        PacketView::Welcome { protocol } => {
            assert(data.subrange(1, data.len() as int) =~= protocol);
        },
    }
}

impl Packet {
    /// Writes the packet as a datagram. This never fails.
    pub fn encode(&self) -> (r: Vec<u8>)
        ensures
            r@ == packet_bytes(self@),
    {
        let mut out: Vec<u8> = Vec::new();
        match self {
            Packet::Handshake { protocol } => {
                out.push(KIND_HANDSHAKE);
                put_bytes(&mut out, protocol);
            },
            Packet::Unreliable { payload } => {
                out.push(KIND_UNRELIABLE);
                put_bytes(&mut out, payload);
            },
            Packet::Sequenced { sequence, payload } => {
                out.push(KIND_SEQUENCED);
                put_u16(&mut out, *sequence);
                put_bytes(&mut out, payload);
            },
            Packet::Reliable { sequence, payload } => {
                out.push(KIND_RELIABLE);
                put_u16(&mut out, *sequence);
                put_bytes(&mut out, payload);
            },
            Packet::Acknowledge { sequence } => {
                out.push(KIND_ACKNOWLEDGE);
                put_u16(&mut out, *sequence);
            },
            Packet::Welcome { protocol } => {
                out.push(KIND_WELCOME);
                put_bytes(&mut out, protocol);
            },
        }
        assert(out@ =~= packet_bytes(self@));
        out
    }

    /// Takes a datagram apart, or tells that it carries no packet.
    pub fn decode(data: &Vec<u8>) -> (r: Option<Packet>)
        ensures
            r.is_some() == parse_packet(data@).is_some(),
            r.is_some() ==> r.unwrap()@ == parse_packet(data@).unwrap(),
    {
        if data.len() == 0 {
            return None;
        }
        let kind = data[0];
        if kind == KIND_HANDSHAKE {
            Some(Packet::Handshake { protocol: bytes_from(data, 1) })
        } else if kind == KIND_UNRELIABLE {
            Some(Packet::Unreliable { payload: bytes_from(data, 1) })
        } else if kind == KIND_SEQUENCED {
            match get_u16(data, 1) {
                Some(sequence) => Some(Packet::Sequenced { sequence, payload: bytes_from(data, 3) }),
                None => None,
            }
        } else if kind == KIND_RELIABLE {
            match get_u16(data, 1) {
                Some(sequence) => Some(Packet::Reliable { sequence, payload: bytes_from(data, 3) }),
                None => None,
            }
        } else if kind == KIND_ACKNOWLEDGE && data.len() == 3 {
            match get_u16(data, 1) {
                Some(sequence) => Some(Packet::Acknowledge { sequence }),
                None => None,
            }
        } else if kind == KIND_WELCOME {
            Some(Packet::Welcome { protocol: bytes_from(data, 1) })
        } else {
            None
        }
    }
}

} // verus!
