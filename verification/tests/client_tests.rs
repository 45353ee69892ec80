use netsync::client::{join_datagram, leave_datagram, move_datagram, Network, TimedPlayerState};
use netsync::command::{Command, CommandType};
use netsync::player_state::{PlayerState, Vec3Bits};

fn v3(x: f32, y: f32, z: f32) -> Vec3Bits {
    Vec3Bits { x: x.to_bits(), y: y.to_bits(), z: z.to_bits() }
}

fn player(id: u128, px: f32) -> PlayerState {
    PlayerState {
        player_id: id,
        position: v3(px, 0.0, 0.0),
        velocity: v3(0.0, 0.0, 0.0),
        pitch: 0,
        yaw: 0,
        health: 100,
    }
}

#[test]
fn ingest_excludes_own_identity() {
    // The snapshot lists the recipient itself; the rebuilt table must not.
    let mut client = Network::new();
    let snapshot = CommandType::Data(7, vec![player(7, 1.0), player(8, 2.0)]);
    client.handle_command(&snapshot, 5);
    assert_eq!(client.player_states.len(), 1);
    assert_eq!(client.player_states[0].player_state.player_id, 8);
    assert_eq!(client.player_states[0].time, 5);
}

#[test]
fn snapshot_replaces_table_wholesale() {
    let mut client = Network::new();
    client.handle_command(&CommandType::Data(1, vec![player(2, 1.0), player(3, 1.0)]), 0);
    assert_eq!(client.player_states.len(), 2);
    client.handle_command(&CommandType::Data(1, vec![player(4, 9.0)]), 1);
    assert_eq!(client.player_states.len(), 1);
    assert_eq!(client.player_states[0].player_state.player_id, 4);
    assert_eq!(client.player_states[0].player_state.position, v3(9.0, 0.0, 0.0));
}

#[test]
fn non_snapshot_commands_leave_table_alone() {
    let mut client = Network::new();
    client.handle_command(&CommandType::Data(1, vec![player(2, 1.0)]), 0);
    client.handle_command(&CommandType::PlayerJoin, 1);
    client.handle_command(&CommandType::PlayerLeave, 2);
    client.handle_command(
        &CommandType::PlayerMove {
            position: v3(0.0, 0.0, 0.0),
            velocity: v3(0.0, 0.0, 0.0),
            pitch: 0,
            yaw: 0,
        },
        3,
    );
    assert_eq!(client.player_states.len(), 1);
    assert_eq!(client.player_states[0].time, 0);
}

#[test]
fn duplicate_identity_keeps_last_report() {
    let mut client = Network::new();
    client.handle_command(&CommandType::Data(1, vec![player(2, 1.0), player(2, 6.5)]), 0);
    assert_eq!(client.player_states.len(), 1);
    assert_eq!(client.player_states[0].player_state.position, v3(6.5, 0.0, 0.0));
}

#[test]
fn timed_player_state_stamps_receipt_time() {
    let t = TimedPlayerState::new(player(1, 0.0), 123);
    assert_eq!(t.time, 123);
    assert_eq!(t.player_state.player_id, 1);
}

#[test]
fn outgoing_datagrams_match_envelope() {
    assert_eq!(
        join_datagram(9),
        Command { command_type: CommandType::PlayerJoin, time: 9 }.serialize()
    );
    assert_eq!(
        leave_datagram(10),
        Command { command_type: CommandType::PlayerLeave, time: 10 }.serialize()
    );
    let position = v3(1.0, 2.0, 3.0);
    let velocity = v3(-1.0, 0.0, 0.5);
    assert_eq!(
        move_datagram(position, velocity, 4, 5, 11),
        Command {
            command_type: CommandType::PlayerMove { position, velocity, pitch: 4, yaw: 5 },
            time: 11
        }
        .serialize()
    );
}

#[test]
fn outgoing_datagrams_decode_to_their_command() {
    let bytes = move_datagram(v3(1.0, 0.0, 0.0), v3(0.0, 2.0, 0.0), 1, 2, 3);
    let back = Command::deserialize(&bytes).unwrap();
    assert_eq!(
        back,
        Command {
            command_type: CommandType::PlayerMove {
                position: v3(1.0, 0.0, 0.0),
                velocity: v3(0.0, 2.0, 0.0),
                pitch: 1,
                yaw: 2
            },
            time: 3
        }
    );
}
