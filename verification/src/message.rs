//! The messages that clients and the server exchange, and their byte form.
//!
//! A message is written as the index of its variant, a little-endian `u32`,
//! followed by its fields in order. A coordinate is a single-precision float and
//! travels as the four little-endian bytes of its IEEE-754 bit pattern; this
//! module holds the bit patterns and never interprets them.

use vstd::prelude::*;
use crate::wire::{get_u32, lemma_u32_round_trip, put_u32, u32_at, u32_le};

verus! {

/// Why a payload could not be read as a message.
#[derive(Clone, Copy, Debug, PartialEq, Eq, Structural)]
pub enum DecodeError {
    /// The payload ends before the message does.
    Malformed,
    /// The payload names a variant that this protocol does not have.
    UnknownVariant,
}

/// A direction in the plane, each coordinate the bit pattern of an `f32`.
#[derive(Clone, Copy, Debug, PartialEq, Eq, Structural)]
pub struct Vector2 {
    pub x: u32,
    pub y: u32,
}

/// A place in the world, each coordinate the bit pattern of an `f32`.
#[derive(Clone, Copy, Debug, PartialEq, Eq, Structural)]
pub struct Point3 {
    pub x: u32,
    pub y: u32,
    pub z: u32,
}

/// What a player wants to do during one tick: the raw directional intent, not
/// yet normalised.
#[derive(Clone, Copy, Debug, PartialEq, Eq, Structural)]
pub struct PlayerFrame {
    pub input: Vector2,
}

/// Where the server says a player is.
#[derive(Clone, Copy, Debug, PartialEq, Eq, Structural)]
pub struct PlayerUpdate {
    pub position: Point3,
}

/// Everything a client may send to the server.
#[derive(Clone, Copy, Debug, PartialEq, Eq, Structural)]
pub enum ClientMessage {
    PlayerFrame(PlayerFrame),
}

/// Everything the server may send to a client.
#[derive(Clone, Copy, Debug, PartialEq, Eq, Structural)]
pub enum ServerMessage {
    PlayerUpdate(PlayerUpdate),
}

/// Bytes taken by a variant index.
pub const TAG_LEN: usize = 4;

/// Bytes taken by a whole `ClientMessage::PlayerFrame`.
pub const PLAYER_FRAME_LEN: usize = 12;

/// Bytes taken by a whole `ServerMessage::PlayerUpdate`.
pub const PLAYER_UPDATE_LEN: usize = 16;

impl ClientMessage {
    /// The byte form of the message.
    pub open spec fn bytes(self) -> Seq<u8> {
        match self {
            ClientMessage::PlayerFrame(frame) => u32_le(0) + u32_le(frame.input.x) + u32_le(
                frame.input.y,
            ),
        }
    }

    /// What a payload means: the message at its start, or the reason why there
    /// is none. Bytes after the message are not looked at.
    pub open spec fn parse(data: Seq<u8>) -> Result<ClientMessage, DecodeError> {
        if data.len() < TAG_LEN {
            Err(DecodeError::Malformed)
        } else if u32_at(data, 0) != 0 {
            Err(DecodeError::UnknownVariant)
        } else if data.len() < PLAYER_FRAME_LEN {
            Err(DecodeError::Malformed)
        } else {
            Ok(
                ClientMessage::PlayerFrame(
                    PlayerFrame { input: Vector2 { x: u32_at(data, 4), y: u32_at(data, 8) } },
                ),
            )
        }
    }

    /// Reads a message from a payload.
    pub fn deserialize(data: &Vec<u8>) -> (r: Result<ClientMessage, DecodeError>)
        ensures
            r == ClientMessage::parse(data@),
    {
        let tag = match get_u32(data, 0) {
            Some(tag) => tag,
            None => {
                return Err(DecodeError::Malformed);
            },
        };
        if tag != 0 {
            return Err(DecodeError::UnknownVariant);
        }
        let x = match get_u32(data, 4) {
            Some(x) => x,
            None => {
                return Err(DecodeError::Malformed);
            },
        };
        let y = match get_u32(data, 8) {
            Some(y) => y,
            None => {
                return Err(DecodeError::Malformed);
            },
        };
        Ok(ClientMessage::PlayerFrame(PlayerFrame { input: Vector2 { x, y } }))
    }

    /// Writes the message as bytes. This never fails.
    pub fn serialize(&self) -> (r: Vec<u8>)
        ensures
            r@ == self.bytes(),
    {
        let mut out: Vec<u8> = Vec::new();
        match self {
            ClientMessage::PlayerFrame(frame) => {
                put_u32(&mut out, 0);
                put_u32(&mut out, frame.input.x);
                put_u32(&mut out, frame.input.y);
            },
        }
        out
    }

    /// Reading what was written gives the message back, whatever bytes follow it.
    pub proof fn lemma_round_trip(m: ClientMessage, rest: Seq<u8>)
        ensures
            ClientMessage::parse(m.bytes() + rest) == Ok::<ClientMessage, DecodeError>(m),
            m.bytes().len() == PLAYER_FRAME_LEN,
    {
        match m {
            ClientMessage::PlayerFrame(frame) => {
                let e = Seq::<u8>::empty();
                let t = u32_le(0);
                let x = u32_le(frame.input.x);
                let y = u32_le(frame.input.y);
                let all = m.bytes() + rest;
                assert(all =~= e + t + (x + y + rest));
                assert(all =~= t + x + (y + rest));
                assert(all =~= (t + x) + y + rest);
                lemma_u32_round_trip(e, 0, x + y + rest);
                lemma_u32_round_trip(t, frame.input.x, y + rest);
                lemma_u32_round_trip(t + x, frame.input.y, rest);
            },
        }
    }
}

impl ServerMessage {
    /// The byte form of the message.
    pub open spec fn bytes(self) -> Seq<u8> {
        match self {
            ServerMessage::PlayerUpdate(update) => u32_le(0) + u32_le(update.position.x) + u32_le(
                update.position.y,
            ) + u32_le(update.position.z),
        }
    }

    /// What a payload means: the message at its start, or the reason why there
    /// is none. Bytes after the message are not looked at.
    pub open spec fn parse(data: Seq<u8>) -> Result<ServerMessage, DecodeError> {
        if data.len() < TAG_LEN {
            Err(DecodeError::Malformed)
        } else if u32_at(data, 0) != 0 {
            Err(DecodeError::UnknownVariant)
        } else if data.len() < PLAYER_UPDATE_LEN {
            Err(DecodeError::Malformed)
        } else {
            Ok(
                ServerMessage::PlayerUpdate(
                    PlayerUpdate {
                        position: Point3 {
                            x: u32_at(data, 4),
                            y: u32_at(data, 8),
                            z: u32_at(data, 12),
                        },
                    },
                ),
            )
        }
    }

    /// Reads a message from a payload.
    pub fn deserialize(data: &Vec<u8>) -> (r: Result<ServerMessage, DecodeError>)
        ensures
            r == ServerMessage::parse(data@),
    {
        let tag = match get_u32(data, 0) {
            Some(tag) => tag,
            None => {
                return Err(DecodeError::Malformed);
            },
        };
        if tag != 0 {
            return Err(DecodeError::UnknownVariant);
        }
        let x = match get_u32(data, 4) {
            Some(x) => x,
            None => {
                return Err(DecodeError::Malformed);
            },
        };
        let y = match get_u32(data, 8) {
            Some(y) => y,
            None => {
                return Err(DecodeError::Malformed);
            },
        };
        let z = match get_u32(data, 12) {
            Some(z) => z,
            None => {
                return Err(DecodeError::Malformed);
            },
        };
        Ok(ServerMessage::PlayerUpdate(PlayerUpdate { position: Point3 { x, y, z } }))
    }

    /// Writes the message as bytes. This never fails.
    pub fn serialize(&self) -> (r: Vec<u8>)
        ensures
            r@ == self.bytes(),
    {
        let mut out: Vec<u8> = Vec::new();
        match self {
            ServerMessage::PlayerUpdate(update) => {
                put_u32(&mut out, 0);
                put_u32(&mut out, update.position.x);
                put_u32(&mut out, update.position.y);
                put_u32(&mut out, update.position.z);
            },
        }
        out
    }

    /// Reading what was written gives the message back, whatever bytes follow it.
    pub proof fn lemma_round_trip(m: ServerMessage, rest: Seq<u8>)
        ensures
            ServerMessage::parse(m.bytes() + rest) == Ok::<ServerMessage, DecodeError>(m),
            m.bytes().len() == PLAYER_UPDATE_LEN,
    {
        match m {
            ServerMessage::PlayerUpdate(update) => {
                let e = Seq::<u8>::empty();
                let t = u32_le(0);
                let x = u32_le(update.position.x);
                let y = u32_le(update.position.y);
                let z = u32_le(update.position.z);
                let all = m.bytes() + rest;
                assert(all =~= e + t + (x + y + z + rest));
                assert(all =~= t + x + (y + z + rest));
                assert(all =~= (t + x) + y + (z + rest));
                assert(all =~= (t + x + y) + z + rest);
                lemma_u32_round_trip(e, 0, x + y + z + rest);
                lemma_u32_round_trip(t, update.position.x, y + z + rest);
                lemma_u32_round_trip(t + x, update.position.y, z + rest);
                lemma_u32_round_trip(t + x + y, update.position.z, rest);
            },
        }
    }
}

/// A payload without a single byte is malformed for either side.
pub proof fn lemma_empty_payload_is_malformed()
    ensures
        ClientMessage::parse(Seq::<u8>::empty()) == Err::<ClientMessage, DecodeError>(
            DecodeError::Malformed,
        ),
        ServerMessage::parse(Seq::<u8>::empty()) == Err::<ServerMessage, DecodeError>(
            DecodeError::Malformed,
        ),
{
}

} // verus!
