use netsync::client::{join_datagram, leave_datagram, move_datagram, Network};
use netsync::command::{Command, CommandType};
use netsync::player_state::Vec3Bits;
use netsync::server::{NetAddr, Server};

const TICK: u64 = 100;
const TIMEOUT: u64 = 5000;
const MAX: usize = 32;

fn addr(n: u16) -> NetAddr {
    NetAddr { ip: 0xffff_0000_0000_0000_0000_0000_0000 + n as u128, port: 8000 + n }
}

fn v3(x: f32, y: f32, z: f32) -> Vec3Bits {
    Vec3Bits { x: x.to_bits(), y: y.to_bits(), z: z.to_bits() }
}

fn admitted_count(server: &Server) -> usize {
    server.connections.iter().filter(|e| e.player.is_some()).count()
}

/// Snapshot addressed to `to`, decoded into (recipient, players).
fn snapshot_for(
    out: &[(NetAddr, Vec<u8>)],
    to: NetAddr,
) -> (u128, Vec<netsync::player_state::PlayerState>) {
    let (_, bytes) = out.iter().find(|(a, _)| *a == to).expect("no snapshot for address");
    match Command::deserialize(bytes).unwrap().command_type {
        CommandType::Data(recipient, players) => (recipient, players),
        _ => panic!("snapshot was not a data command"),
    }
}

#[test]
fn join_then_snapshot_contains_only_self() {
    // A joins; one tick later the snapshot to A holds exactly A's own
    // default state, and ingesting it leaves A's table empty.
    let mut server = Server::new(TICK, TIMEOUT, MAX);
    let a = addr(1);
    assert!(server.handle_datagram(&join_datagram(5), a));
    let out = server.run_tick(TICK, 42);
    assert_eq!(out.len(), 1);
    let (recipient, players) = snapshot_for(&out, a);
    assert_eq!(players.len(), 1);
    assert_eq!(players[0].player_id, recipient);
    assert_eq!(players[0].position, v3(0.0, 0.0, 0.0));
    assert_eq!(players[0].velocity, v3(0.0, 0.0, 0.0));
    assert_eq!(players[0].pitch, 0);
    assert_eq!(players[0].yaw, 0);
    assert_eq!(players[0].health, 100);

    let mut client = Network::new();
    let decoded = Command::deserialize(&out[0].1).unwrap();
    client.handle_command(&decoded.command_type, 0);
    assert!(client.player_states.is_empty());
}

#[test]
fn moved_position_reaches_later_joiner() {
    // A moves to [1,0,0]; B joins; B's next snapshot shows A at [1,0,0].
    let mut server = Server::new(TICK, TIMEOUT, MAX);
    let a = addr(1);
    let b = addr(2);
    assert!(server.handle_datagram(&join_datagram(0), a));
    server.run_tick(TICK, 0);
    assert!(server.handle_datagram(
        &move_datagram(v3(1.0, 0.0, 0.0), v3(0.0, 0.0, 0.0), 0, 0, 1),
        a
    ));
    assert!(server.handle_datagram(&join_datagram(1), b));
    let out = server.run_tick(2 * TICK, 0);
    assert_eq!(out.len(), 2);
    let (recipient, players) = snapshot_for(&out, b);
    assert_eq!(players.len(), 2);
    let remote: Vec<_> = players.iter().filter(|p| p.player_id != recipient).collect();
    assert_eq!(remote.len(), 1);
    assert_eq!(remote[0].position, v3(1.0, 0.0, 0.0));

    let mut client = Network::new();
    let (_, bytes) = out.iter().find(|(to, _)| *to == b).unwrap();
    let decoded = Command::deserialize(bytes).unwrap();
    client.handle_command(&decoded.command_type, 7);
    assert_eq!(client.player_states.len(), 1);
    assert_eq!(client.player_states[0].player_state.position, v3(1.0, 0.0, 0.0));
    assert_eq!(client.player_states[0].time, 7);
}

#[test]
fn silent_connection_is_culled() {
    // A goes silent past the timeout; after the next tick A is gone from
    // the table and from the snapshot broadcast to B.
    let mut server = Server::new(TICK, TIMEOUT, MAX);
    let a = addr(1);
    let b = addr(2);
    assert!(server.handle_datagram(&join_datagram(0), a));
    assert!(server.handle_datagram(&join_datagram(0), b));
    server.run_tick(TICK, 0);
    assert_eq!(admitted_count(&server), 2);

    // Only B keeps talking.
    assert!(server.handle_datagram(
        &move_datagram(v3(0.0, 0.0, 0.0), v3(0.0, 0.0, 0.0), 0, 0, 2),
        b
    ));
    let out = server.run_tick(TICK + TIMEOUT + 1, 0);
    assert_eq!(admitted_count(&server), 1);
    assert_eq!(out.len(), 1);
    let (recipient, players) = snapshot_for(&out, b);
    assert_eq!(players.len(), 1);
    assert_eq!(players[0].player_id, recipient);
}

#[test]
fn corrupted_datagram_changes_nothing() {
    // A corrupted 3-byte datagram is rejected; the tick proceeds and no
    // entry is created or mutated.
    let mut server = Server::new(TICK, TIMEOUT, MAX);
    assert!(!server.handle_datagram(&[0xde, 0xad, 0xbe], addr(1)));
    assert!(server.input_commands.is_empty());
    let out = server.run_tick(TICK, 0);
    assert!(out.is_empty());
    assert!(server.connections.is_empty());
}

#[test]
fn admission_bound_holds() {
    // More joins than seats: the table never exceeds the cap, and the
    // overflow join is dropped silently.
    let mut server = Server::new(TICK, TIMEOUT, 2);
    for n in 1..=4u16 {
        assert!(server.handle_datagram(&join_datagram(n as u128), addr(n)));
    }
    server.run_tick(TICK, 0);
    assert_eq!(admitted_count(&server), 2);
    assert_eq!(server.connections.len(), 2);
}

#[test]
fn commands_apply_in_arrival_order() {
    // A joins and moves within one tick window: the post-tick table shows
    // the move applied after the join, exactly once.
    let mut server = Server::new(TICK, TIMEOUT, MAX);
    let a = addr(1);
    assert!(server.handle_datagram(&join_datagram(0), a));
    assert!(server.handle_datagram(
        &move_datagram(v3(2.0, 3.0, 4.0), v3(0.5, 0.0, 0.0), 9, 8, 1),
        a
    ));
    server.run_tick(TICK, 0);
    assert_eq!(server.connections.len(), 1);
    let player = server.connections[0].player.expect("player missing");
    assert_eq!(player.position, v3(2.0, 3.0, 4.0));
    assert_eq!(player.velocity, v3(0.5, 0.0, 0.0));
    assert_eq!(player.pitch, 9);
    assert_eq!(player.yaw, 8);
    assert_eq!(player.health, 100);
}

#[test]
fn rejoin_keeps_existing_player() {
    // A second join from the same address refreshes liveness but keeps the
    // player's state and identity.
    let mut server = Server::new(TICK, TIMEOUT, MAX);
    let a = addr(1);
    assert!(server.handle_datagram(&join_datagram(0), a));
    assert!(server.handle_datagram(
        &move_datagram(v3(1.0, 2.0, 3.0), v3(0.0, 0.0, 0.0), 0, 0, 1),
        a
    ));
    server.run_tick(TICK, 0);
    let before = server.connections[0].player.unwrap();
    assert!(server.handle_datagram(&join_datagram(2), a));
    server.run_tick(2 * TICK, 0);
    let after = server.connections[0].player.unwrap();
    assert_eq!(after, before);
    assert_eq!(admitted_count(&server), 1);
}

#[test]
fn leave_removes_entry() {
    let mut server = Server::new(TICK, TIMEOUT, MAX);
    let a = addr(1);
    assert!(server.handle_datagram(&join_datagram(0), a));
    server.run_tick(TICK, 0);
    assert_eq!(server.connections.len(), 1);
    assert!(server.handle_datagram(&leave_datagram(1), a));
    let out = server.run_tick(2 * TICK, 0);
    assert!(server.connections.is_empty());
    assert!(out.is_empty());
}

#[test]
fn move_from_unknown_address_admits_no_player() {
    // The known quirk: a move from an unregistered address creates
    // liveness bookkeeping but no player, and no snapshot goes to it.
    let mut server = Server::new(TICK, TIMEOUT, MAX);
    assert!(server.handle_datagram(
        &move_datagram(v3(1.0, 1.0, 1.0), v3(0.0, 0.0, 0.0), 0, 0, 0),
        addr(9)
    ));
    let out = server.run_tick(TICK, 0);
    assert_eq!(server.connections.len(), 1);
    assert!(server.connections[0].player.is_none());
    assert_eq!(admitted_count(&server), 0);
    assert!(out.is_empty());
}

#[test]
fn snapshot_ignored_by_server() {
    // A data command arriving at the server is accepted into the queue but
    // applies as a no-op.
    let mut server = Server::new(TICK, TIMEOUT, MAX);
    let snapshot = Command { command_type: CommandType::Data(1, Vec::new()), time: 0 };
    assert!(server.handle_datagram(&snapshot.serialize(), addr(1)));
    server.run_tick(TICK, 0);
    assert!(server.connections.is_empty());
}

#[test]
fn tick_due_follows_tick_rate() {
    let mut server = Server::new(TICK, TIMEOUT, MAX);
    assert!(server.tick_due(TICK));
    assert!(!server.tick_due(TICK - 1));
    server.run_tick(TICK, 0);
    assert!(!server.tick_due(TICK + 1));
    assert!(server.tick_due(2 * TICK));
}

#[test]
fn distinct_joiners_get_distinct_identities() {
    let mut server = Server::new(TICK, TIMEOUT, MAX);
    for n in 1..=8u16 {
        assert!(server.handle_datagram(&join_datagram(0), addr(n)));
    }
    server.run_tick(TICK, 0);
    let mut ids: Vec<u128> = server
        .connections
        .iter()
        .map(|e| e.player.unwrap().player_id)
        .collect();
    ids.sort();
    ids.dedup();
    assert_eq!(ids.len(), 8);
}
