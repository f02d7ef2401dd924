use blockgame::message::{
    ClientMessage, DecodeError, PlayerFrame, PlayerUpdate, Point3, ServerMessage, Vector2,
};

fn codec_frame(x: f32, y: f32) -> ClientMessage {
    ClientMessage::PlayerFrame(PlayerFrame { input: Vector2 { x: x.to_bits(), y: y.to_bits() } })
}

fn codec_update(x: f32, y: f32, z: f32) -> ServerMessage {
    ServerMessage::PlayerUpdate(PlayerUpdate {
        position: Point3 { x: x.to_bits(), y: y.to_bits(), z: z.to_bits() },
    })
}

#[test]
fn client_message_round_trips() {
    for (x, y) in [(0.0f32, 0.0f32), (1.0, 0.0), (-0.5, 0.25), (f32::MAX, f32::MIN_POSITIVE)] {
        let message = codec_frame(x, y);
        assert_eq!(ClientMessage::deserialize(&message.serialize()), Ok(message));
    }
}

#[test]
fn server_message_round_trips() {
    for (x, y, z) in [(0.0f32, 40.0f32, 0.0f32), (2.0, 40.0, -3.5), (1e-20, 1e20, -0.0)] {
        let message = codec_update(x, y, z);
        assert_eq!(ServerMessage::deserialize(&message.serialize()), Ok(message));
    }
}

#[test]
fn every_bit_pattern_round_trips() {
    let message = ClientMessage::PlayerFrame(PlayerFrame {
        input: Vector2 { x: 0xffff_ffff, y: 0x7fc0_0001 },
    });
    assert_eq!(ClientMessage::deserialize(&message.serialize()), Ok(message));
    let message = ServerMessage::PlayerUpdate(PlayerUpdate {
        position: Point3 { x: 0x0102_0304, y: 0xa0b0_c0d0, z: 0x8000_0000 },
    });
    assert_eq!(ServerMessage::deserialize(&message.serialize()), Ok(message));
}

#[test]
fn player_frame_has_the_documented_bytes() {
    assert_eq!(
        codec_frame(1.0, 0.0).serialize(),
        vec![0, 0, 0, 0, 0x00, 0x00, 0x80, 0x3f, 0, 0, 0, 0]
    );
}

#[test]
fn player_update_has_the_documented_bytes() {
    assert_eq!(
        codec_update(0.0, 40.0, 2.0).serialize(),
        vec![0, 0, 0, 0, 0, 0, 0, 0, 0x00, 0x00, 0x20, 0x42, 0x00, 0x00, 0x00, 0x40]
    );
}

#[test]
fn player_frame_bytes_match_bincode() {
    let expected = bincode::serialize(&(0u32, 1.5f32, -2.25f32)).unwrap();
    assert_eq!(codec_frame(1.5, -2.25).serialize(), expected);
}

#[test]
fn player_update_bytes_match_bincode() {
    let expected = bincode::serialize(&(0u32, 0.125f32, 40.0f32, -7.0f32)).unwrap();
    assert_eq!(codec_update(0.125, 40.0, -7.0).serialize(), expected);
}

#[test]
fn bincode_bytes_decode() {
    let bytes = bincode::serialize(&(0u32, 3.0f32, 4.0f32)).unwrap();
    assert_eq!(ClientMessage::deserialize(&bytes), Ok(codec_frame(3.0, 4.0)));
    let bytes = bincode::serialize(&(0u32, 3.0f32, 4.0f32, 5.0f32)).unwrap();
    assert_eq!(ServerMessage::deserialize(&bytes), Ok(codec_update(3.0, 4.0, 5.0)));
}

#[test]
fn bincode_reads_what_was_written() {
    let bytes = codec_update(1.0, 2.0, 3.0).serialize();
    let read: (u32, f32, f32, f32) = bincode::deserialize(&bytes).unwrap();
    assert_eq!(read, (0, 1.0, 2.0, 3.0));
}

#[test]
fn empty_payload_is_malformed() {
    assert_eq!(ClientMessage::deserialize(&Vec::new()), Err(DecodeError::Malformed));
    assert_eq!(ServerMessage::deserialize(&Vec::new()), Err(DecodeError::Malformed));
}

#[test]
fn short_tag_is_malformed() {
    assert_eq!(ClientMessage::deserialize(&vec![0, 0, 0]), Err(DecodeError::Malformed));
    assert_eq!(ServerMessage::deserialize(&vec![0]), Err(DecodeError::Malformed));
}

#[test]
fn unknown_variant_is_reported() {
    let mut bytes = codec_frame(1.0, 1.0).serialize();
    bytes[0] = 1;
    assert_eq!(ClientMessage::deserialize(&bytes), Err(DecodeError::UnknownVariant));
    let mut bytes = codec_update(1.0, 1.0, 1.0).serialize();
    bytes[3] = 0x80;
    assert_eq!(ServerMessage::deserialize(&bytes), Err(DecodeError::UnknownVariant));
}

#[test]
fn unknown_variant_is_reported_before_truncation() {
    assert_eq!(ClientMessage::deserialize(&vec![7, 0, 0, 0]), Err(DecodeError::UnknownVariant));
    assert_eq!(ServerMessage::deserialize(&vec![0, 1, 0, 0, 9]), Err(DecodeError::UnknownVariant));
}

#[test]
fn truncated_fields_are_malformed() {
    let bytes = codec_frame(1.0, 1.0).serialize();
    for len in 4..bytes.len() {
        assert_eq!(
            ClientMessage::deserialize(&bytes[..len].to_vec()),
            Err(DecodeError::Malformed)
        );
    }
    let bytes = codec_update(1.0, 1.0, 1.0).serialize();
    for len in 4..bytes.len() {
        assert_eq!(
            ServerMessage::deserialize(&bytes[..len].to_vec()),
            Err(DecodeError::Malformed)
        );
    }
}

#[test]
fn trailing_bytes_are_ignored() {
    let mut bytes = codec_frame(0.5, -0.5).serialize();
    bytes.extend_from_slice(&[1, 2, 3]);
    assert_eq!(ClientMessage::deserialize(&bytes), Ok(codec_frame(0.5, -0.5)));
    let read: (u32, f32, f32) = bincode::deserialize(&bytes).unwrap();
    assert_eq!(read, (0, 0.5, -0.5));
}

#[test]
fn a_player_frame_is_too_short_for_a_player_update() {
    let bytes = codec_frame(1.0, 2.0).serialize();
    assert_eq!(ServerMessage::deserialize(&bytes), Err(DecodeError::Malformed));
}
