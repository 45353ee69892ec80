use netsync::command::{Command, CommandType, DecodeError};
use netsync::player_state::{PlayerState, Vec3Bits};

fn v3(x: f32, y: f32, z: f32) -> Vec3Bits {
    Vec3Bits { x: x.to_bits(), y: y.to_bits(), z: z.to_bits() }
}

fn sample_player(id: u128) -> PlayerState {
    PlayerState {
        player_id: id,
        position: v3(1.5, -2.25, 3.0),
        velocity: v3(0.0, 10.0, -0.5),
        pitch: 0.25f32.to_bits(),
        yaw: (-1.0f32).to_bits(),
        health: 100,
    }
}

#[test]
fn round_trip_join() {
    let c = Command { command_type: CommandType::PlayerJoin, time: 1_700_000_000_123 };
    let bytes = c.serialize();
    let back = Command::deserialize(&bytes).unwrap();
    assert_eq!(back, c);
}

#[test]
fn round_trip_leave() {
    let c = Command { command_type: CommandType::PlayerLeave, time: u128::MAX };
    let back = Command::deserialize(&c.serialize()).unwrap();
    assert_eq!(back, c);
}

#[test]
fn round_trip_move() {
    let c = Command {
        command_type: CommandType::PlayerMove {
            position: v3(1.0, 0.0, -0.0),
            velocity: v3(f32::MAX, f32::MIN_POSITIVE, -1e-9),
            pitch: 0u32,
            yaw: 3.25f32.to_bits(),
        },
        time: 0,
    };
    let back = Command::deserialize(&c.serialize()).unwrap();
    assert_eq!(back, c);
}

#[test]
fn round_trip_data_empty() {
    let c = Command { command_type: CommandType::Data(42, Vec::new()), time: 7 };
    let back = Command::deserialize(&c.serialize()).unwrap();
    assert_eq!(back, c);
}

#[test]
fn round_trip_data_players() {
    let players = vec![sample_player(1), sample_player(u128::MAX), sample_player(0)];
    let c = Command { command_type: CommandType::Data(9_000_000_000_000_000_000, players), time: 3 };
    let back = Command::deserialize(&c.serialize()).unwrap();
    assert_eq!(back, c);
}

#[test]
fn move_preserves_float_bits_exactly() {
    let odd = f32::from_bits(0x7fc0_0001);
    let c = Command {
        command_type: CommandType::PlayerMove {
            position: v3(odd, 0.0, 0.0),
            velocity: v3(0.0, 0.0, 0.0),
            pitch: 0,
            yaw: 0,
        },
        time: 0,
    };
    let back = Command::deserialize(&c.serialize()).unwrap();
    match back.command_type {
        CommandType::PlayerMove { position, .. } => assert_eq!(position.x, 0x7fc0_0001),
        _ => panic!("wrong variant"),
    }
}

#[test]
fn join_exact_bytes() {
    let c = Command { command_type: CommandType::PlayerJoin, time: 0x0102_0304 };
    let bytes = c.serialize();
    let mut expected = vec![0u8];
    expected.extend_from_slice(&0x0102_0304u128.to_le_bytes());
    assert_eq!(bytes, expected);
}

#[test]
fn data_exact_bytes() {
    let p = PlayerState {
        player_id: 5,
        position: Vec3Bits { x: 1, y: 2, z: 3 },
        velocity: Vec3Bits { x: 4, y: 5, z: 6 },
        pitch: 7,
        yaw: 8,
        health: 100,
    };
    let c = Command { command_type: CommandType::Data(9, vec![p]), time: 10 };
    let bytes = c.serialize();
    let mut expected = vec![3u8];
    expected.extend_from_slice(&10u128.to_le_bytes());
    expected.extend_from_slice(&9u128.to_le_bytes());
    expected.extend_from_slice(&1u64.to_le_bytes());
    expected.extend_from_slice(&5u128.to_le_bytes());
    for field in [1u32, 2, 3, 4, 5, 6, 7, 8] {
        expected.extend_from_slice(&field.to_le_bytes());
    }
    expected.push(100);
    assert_eq!(bytes, expected);
}

#[test]
fn serialization_is_deterministic() {
    let make = || Command {
        command_type: CommandType::Data(1, vec![sample_player(2)]),
        time: 3,
    };
    assert_eq!(make().serialize(), make().serialize());
}

#[test]
fn decode_too_short() {
    assert_eq!(Command::deserialize(&[1, 2, 3]), Err(DecodeError::TooShort));
    assert_eq!(Command::deserialize(&[]), Err(DecodeError::TooShort));
}

#[test]
fn decode_unknown_kind() {
    let mut bytes = vec![9u8];
    bytes.extend_from_slice(&0u128.to_le_bytes());
    assert_eq!(Command::deserialize(&bytes), Err(DecodeError::UnknownKind));
}

#[test]
fn decode_bad_length_trailing_byte() {
    let c = Command { command_type: CommandType::PlayerJoin, time: 11 };
    let mut bytes = c.serialize();
    bytes.push(0);
    assert_eq!(Command::deserialize(&bytes), Err(DecodeError::BadLength));
}

#[test]
fn decode_bad_length_truncated_move() {
    let c = Command {
        command_type: CommandType::PlayerMove {
            position: v3(0.0, 0.0, 0.0),
            velocity: v3(0.0, 0.0, 0.0),
            pitch: 0,
            yaw: 0,
        },
        time: 0,
    };
    let mut bytes = c.serialize();
    bytes.pop();
    assert_eq!(Command::deserialize(&bytes), Err(DecodeError::BadLength));
}

#[test]
fn decode_bad_length_wrong_player_count() {
    let c = Command { command_type: CommandType::Data(1, vec![sample_player(2)]), time: 0 };
    let mut bytes = c.serialize();
    // Claim two players while carrying one.
    bytes[33] = 2;
    assert_eq!(Command::deserialize(&bytes), Err(DecodeError::BadLength));
}
