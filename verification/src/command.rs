use vstd::prelude::*;

use vstd::bytes::*;
use vstd::slice::slice_subrange;

use crate::player_state::PlayerState;
use crate::player_state::Vec3Bits;

verus! {

// Wire layout. Every datagram starts with a one-byte tag and the sender's
// 16-byte clock; what follows depends on the tag. All integers are
// little-endian; floats travel as their IEEE-754 bit patterns.
pub const TAG_PLAYER_JOIN: u8 = 0;
pub const TAG_PLAYER_LEAVE: u8 = 1;
pub const TAG_PLAYER_MOVE: u8 = 2;
pub const TAG_DATA: u8 = 3;

/// Tag byte plus the 16-byte send time.
pub const HEADER_BYTES: usize = 17;

/// Total length of a `PlayerMove` datagram: header plus eight 32-bit fields.
pub const MOVE_BYTES: usize = 49;

/// Length of a `Data` datagram before its player list: header, 16-byte
/// recipient identity, 8-byte player count.
pub const DATA_PREFIX_BYTES: usize = 41;

/// One player state on the wire: 16-byte identity, six 32-bit kinematic
/// fields, pitch, yaw, and one health byte.
pub const PLAYER_BYTES: usize = 49;

/// What a datagram asks for or carries.
#[derive(Clone, Debug, PartialEq)]
pub enum CommandType {
    /// A client requests admission.
    PlayerJoin,
    /// A client requests graceful removal.
    PlayerLeave,
    /// A client reports its kinematic state.
    PlayerMove { position: Vec3Bits, velocity: Vec3Bits, pitch: u32, yaw: u32 },
    /// Server to client: a snapshot of every current player, addressed to the
    /// recipient whose identity is given, so it can exclude itself.
    Data(u128, Vec<PlayerState>),
}

/// The message envelope: a command plus the sender's clock in milliseconds
/// since the epoch.
#[derive(Clone, Debug, PartialEq)]
pub struct Command {
    pub command_type: CommandType,
    pub time: u128,
}

/// Mathematical model of a [`CommandType`]: the player list as a sequence.
#[verifier::ext_equal]
pub enum CommandTypeView {
    PlayerJoin,
    PlayerLeave,
    PlayerMove { position: Vec3Bits, velocity: Vec3Bits, pitch: u32, yaw: u32 },
    Data(u128, Seq<PlayerState>),
}

/// Mathematical model of a [`Command`].
#[verifier::ext_equal]
pub struct CommandView {
    pub command_type: CommandTypeView,
    pub time: u128,
}

impl View for CommandType {
    type V = CommandTypeView;

    open spec fn view(&self) -> CommandTypeView {
        match self {
            CommandType::PlayerJoin => CommandTypeView::PlayerJoin,
            CommandType::PlayerLeave => CommandTypeView::PlayerLeave,
            CommandType::PlayerMove { position, velocity, pitch, yaw } => (
                CommandTypeView::PlayerMove {
                    position: *position,
                    velocity: *velocity,
                    pitch: *pitch,
                    yaw: *yaw,
                }
            ),
            CommandType::Data(recipient, players) => (
                CommandTypeView::Data(*recipient, players@)
            ),
        }
    }
}

impl View for Command {
    type V = CommandView;

    open spec fn view(&self) -> CommandView {
        CommandView { command_type: self.command_type@, time: self.time }
    }
}

/// A command is encodable when its player count fits the 8-byte count field.
/// Every value an executable [`Command`] can hold satisfies this.
pub open spec fn wf_command(c: CommandView) -> bool {
    match c.command_type {
        CommandTypeView::Data(_, players) => players.len() <= u64::MAX,
        _ => true,
    }
}

/// The 49 bytes one player occupies on the wire.
pub open spec fn spec_serialize_player(p: PlayerState) -> Seq<u8> {
    spec_u128_to_le_bytes(p.player_id) + spec_u32_to_le_bytes(p.position.x)
        + spec_u32_to_le_bytes(p.position.y) + spec_u32_to_le_bytes(p.position.z)
        + spec_u32_to_le_bytes(p.velocity.x) + spec_u32_to_le_bytes(p.velocity.y)
        + spec_u32_to_le_bytes(p.velocity.z) + spec_u32_to_le_bytes(p.pitch)
        + spec_u32_to_le_bytes(p.yaw) + seq![p.health]
}

/// A player list on the wire: each player's 49 bytes, in order.
pub open spec fn spec_serialize_players(players: Seq<PlayerState>) -> Seq<u8>
    decreases players.len(),
{
    if players.len() == 0 {
        Seq::<u8>::empty()
    } else {
        spec_serialize_player(players[0]) + spec_serialize_players(players.drop_first())
    }
}

/// The bytes a command encodes to.
pub open spec fn spec_serialize(c: CommandView) -> Seq<u8> {
    match c.command_type {
        CommandTypeView::PlayerJoin => seq![TAG_PLAYER_JOIN] + spec_u128_to_le_bytes(c.time),
        CommandTypeView::PlayerLeave => seq![TAG_PLAYER_LEAVE] + spec_u128_to_le_bytes(c.time),
        CommandTypeView::PlayerMove { position, velocity, pitch, yaw } => (
            seq![TAG_PLAYER_MOVE] + spec_u128_to_le_bytes(c.time)
                + spec_u32_to_le_bytes(position.x) + spec_u32_to_le_bytes(position.y)
                + spec_u32_to_le_bytes(position.z) + spec_u32_to_le_bytes(velocity.x)
                + spec_u32_to_le_bytes(velocity.y) + spec_u32_to_le_bytes(velocity.z)
                + spec_u32_to_le_bytes(pitch) + spec_u32_to_le_bytes(yaw)
        ),
        CommandTypeView::Data(recipient, players) => (
            seq![TAG_DATA] + spec_u128_to_le_bytes(c.time) + spec_u128_to_le_bytes(recipient)
                + spec_u64_to_le_bytes(players.len() as u64) + spec_serialize_players(players)
        ),
    }
}

/// The player state 49 wire bytes decode to. Every 49-byte block decodes.
pub open spec fn spec_deserialize_player(b: Seq<u8>) -> PlayerState
    recommends
        b.len() == PLAYER_BYTES,
{
    PlayerState {
        player_id: spec_u128_from_le_bytes(b.subrange(0, 16)),
        position: Vec3Bits {
            x: spec_u32_from_le_bytes(b.subrange(16, 20)),
            y: spec_u32_from_le_bytes(b.subrange(20, 24)),
            z: spec_u32_from_le_bytes(b.subrange(24, 28)),
        },
        velocity: Vec3Bits {
            x: spec_u32_from_le_bytes(b.subrange(28, 32)),
            y: spec_u32_from_le_bytes(b.subrange(32, 36)),
            z: spec_u32_from_le_bytes(b.subrange(36, 40)),
        },
        pitch: spec_u32_from_le_bytes(b.subrange(40, 44)),
        yaw: spec_u32_from_le_bytes(b.subrange(44, 48)),
        health: b[48],
    }
}

/// The `n` players that `49 * n` wire bytes decode to.
pub open spec fn spec_deserialize_players(b: Seq<u8>, n: nat) -> Seq<PlayerState>
    recommends
        b.len() == PLAYER_BYTES * n,
    decreases n,
{
    if n == 0 {
        Seq::<PlayerState>::empty()
    } else {
        seq![spec_deserialize_player(b.take(PLAYER_BYTES as int))]
            + spec_deserialize_players(b.skip(PLAYER_BYTES as int), (n - 1) as nat)
    }
}

/// The command a byte string decodes to, or `None` where no command encodes
/// to it: too short for the envelope, an unknown tag, or a length that does
/// not match what the tag demands.
pub open spec fn spec_deserialize(b: Seq<u8>) -> Option<CommandView> {
    if b.len() < HEADER_BYTES {
        None
    } else {
        let tag = b[0];
        let time = spec_u128_from_le_bytes(b.subrange(1, 17));
        if tag == TAG_PLAYER_JOIN {
            if b.len() == HEADER_BYTES {
                Some(CommandView { command_type: CommandTypeView::PlayerJoin, time })
            } else {
                None
            }
        } else if tag == TAG_PLAYER_LEAVE {
            if b.len() == HEADER_BYTES {
                Some(CommandView { command_type: CommandTypeView::PlayerLeave, time })
            } else {
                None
            }
        } else if tag == TAG_PLAYER_MOVE {
            if b.len() == MOVE_BYTES {
                Some(
                    CommandView {
                        command_type: CommandTypeView::PlayerMove {
                            position: Vec3Bits {
                                x: spec_u32_from_le_bytes(b.subrange(17, 21)),
                                y: spec_u32_from_le_bytes(b.subrange(21, 25)),
                                z: spec_u32_from_le_bytes(b.subrange(25, 29)),
                            },
                            velocity: Vec3Bits {
                                x: spec_u32_from_le_bytes(b.subrange(29, 33)),
                                y: spec_u32_from_le_bytes(b.subrange(33, 37)),
                                z: spec_u32_from_le_bytes(b.subrange(37, 41)),
                            },
                            pitch: spec_u32_from_le_bytes(b.subrange(41, 45)),
                            yaw: spec_u32_from_le_bytes(b.subrange(45, 49)),
                        },
                        time,
                    },
                )
            } else {
                None
            }
        } else if tag == TAG_DATA {
            if b.len() < DATA_PREFIX_BYTES {
                None
            } else {
                let recipient = spec_u128_from_le_bytes(b.subrange(17, 33));
                let n = spec_u64_from_le_bytes(b.subrange(33, 41));
                if b.len() == DATA_PREFIX_BYTES + PLAYER_BYTES * n {
                    Some(
                        CommandView {
                            command_type: CommandTypeView::Data(
                                recipient,
                                spec_deserialize_players(
                                    b.skip(DATA_PREFIX_BYTES as int),
                                    n as nat,
                                ),
                            ),
                            time,
                        },
                    )
                } else {
                    None
                }
            }
        } else {
            None
        }
    }
}

/// Why a byte string fails to decode. Meaningful only where
/// [`spec_deserialize`] is `None`.
pub open spec fn spec_deserialize_error(b: Seq<u8>) -> DecodeError {
    if b.len() < HEADER_BYTES {
        DecodeError::TooShort
    } else if b[0] > TAG_DATA {
        DecodeError::UnknownKind
    } else {
        DecodeError::BadLength
    }
}

/// Why a datagram was rejected. Rejection is always recoverable: the caller
/// discards the datagram and carries on.
#[derive(Clone, Copy, PartialEq, Eq, Structural, Debug)]
pub enum DecodeError {
    /// Shorter than the tag-plus-time envelope every command starts with.
    TooShort,
    /// The leading tag byte names no command.
    UnknownKind,
    /// The length does not match what the tag demands.
    BadLength,
}

fn push_u32(out: &mut Vec<u8>, x: u32)
    ensures
        final(out)@ == old(out)@ + spec_u32_to_le_bytes(x),
{
    let mut bytes = u32_to_le_bytes(x);
    out.append(&mut bytes);
}

fn push_u64(out: &mut Vec<u8>, x: u64)
    ensures
        final(out)@ == old(out)@ + spec_u64_to_le_bytes(x),
{
    let mut bytes = u64_to_le_bytes(x);
    out.append(&mut bytes);
}

fn push_u128(out: &mut Vec<u8>, x: u128)
    ensures
        final(out)@ == old(out)@ + spec_u128_to_le_bytes(x),
{
    let mut bytes = u128_to_le_bytes(x);
    out.append(&mut bytes);
}

fn push_player(out: &mut Vec<u8>, p: &PlayerState)
    ensures
        final(out)@ == old(out)@ + spec_serialize_player(*p),
{
    push_u128(out, p.player_id);
    push_u32(out, p.position.x);
    push_u32(out, p.position.y);
    push_u32(out, p.position.z);
    push_u32(out, p.velocity.x);
    push_u32(out, p.velocity.y);
    push_u32(out, p.velocity.z);
    push_u32(out, p.pitch);
    push_u32(out, p.yaw);
    out.push(p.health);
    proof {
        assert(out@ =~= old(out)@ + spec_serialize_player(*p));
    }
}

proof fn lemma_serialize_players_push(players: Seq<PlayerState>, p: PlayerState)
    ensures
        spec_serialize_players(players.push(p)) == spec_serialize_players(players)
            + spec_serialize_player(p),
    decreases players.len(),
{
    if players.len() == 0 {
        reveal_with_fuel(spec_serialize_players, 2);
        assert(players.push(p).drop_first() =~= Seq::<PlayerState>::empty());
        assert(spec_serialize_players(players.push(p)) =~= spec_serialize_players(players)
            + spec_serialize_player(p));
    } else {
        assert(players.push(p).drop_first() =~= players.drop_first().push(p));
        lemma_serialize_players_push(players.drop_first(), p);
        assert(players.push(p)[0] == players[0]);
        assert(spec_serialize_players(players.push(p)) == spec_serialize_player(players[0]) + (
        spec_serialize_players(players.drop_first()) + spec_serialize_player(p)));
        assert(spec_serialize_players(players.push(p)) =~= spec_serialize_players(players)
            + spec_serialize_player(p));
    }
}

proof fn lemma_player_round_trip(p: PlayerState)
    ensures
        spec_serialize_player(p).len() == PLAYER_BYTES,
        spec_deserialize_player(spec_serialize_player(p)) == p,
{
    lemma_auto_spec_u128_to_from_le_bytes();
    lemma_auto_spec_u32_to_from_le_bytes();
    let b = spec_serialize_player(p);
    assert(b.subrange(0, 16) =~= spec_u128_to_le_bytes(p.player_id));
    assert(b.subrange(16, 20) =~= spec_u32_to_le_bytes(p.position.x));
    assert(b.subrange(20, 24) =~= spec_u32_to_le_bytes(p.position.y));
    assert(b.subrange(24, 28) =~= spec_u32_to_le_bytes(p.position.z));
    assert(b.subrange(28, 32) =~= spec_u32_to_le_bytes(p.velocity.x));
    assert(b.subrange(32, 36) =~= spec_u32_to_le_bytes(p.velocity.y));
    assert(b.subrange(36, 40) =~= spec_u32_to_le_bytes(p.velocity.z));
    assert(b.subrange(40, 44) =~= spec_u32_to_le_bytes(p.pitch));
    assert(b.subrange(44, 48) =~= spec_u32_to_le_bytes(p.yaw));
    assert(b[48] == p.health);
}

proof fn lemma_player_bytes_round_trip(b: Seq<u8>)
    requires
        b.len() == PLAYER_BYTES,
    ensures
        spec_serialize_player(spec_deserialize_player(b)) == b,
{
    lemma_auto_spec_u128_to_from_le_bytes();
    lemma_auto_spec_u32_to_from_le_bytes();
    assert(spec_serialize_player(spec_deserialize_player(b)) =~= b);
}

proof fn lemma_players_round_trip(players: Seq<PlayerState>)
    ensures
        spec_serialize_players(players).len() == PLAYER_BYTES * players.len(),
        spec_deserialize_players(spec_serialize_players(players), players.len())
            == players,
    decreases players.len(),
{
    if players.len() == 0 {
    } else {
        let head = players[0];
        let tail = players.drop_first();
        lemma_player_round_trip(head);
        lemma_players_round_trip(tail);
        let b = spec_serialize_players(players);
        assert(b.take(PLAYER_BYTES as int) =~= spec_serialize_player(head));
        assert(b.skip(PLAYER_BYTES as int) =~= spec_serialize_players(tail));
        assert(spec_deserialize_players(b, players.len()) =~= players);
    }
}

proof fn lemma_players_bytes_round_trip(b: Seq<u8>, n: nat)
    requires
        b.len() == PLAYER_BYTES * n,
    ensures
        spec_deserialize_players(b, n).len() == n,
        spec_serialize_players(spec_deserialize_players(b, n)) == b,
    decreases n,
{
    if n == 0 {
        assert(spec_serialize_players(spec_deserialize_players(b, n)) =~= b);
    } else {
        let head = b.take(PLAYER_BYTES as int);
        let rest = b.skip(PLAYER_BYTES as int);
        lemma_player_bytes_round_trip(head);
        lemma_players_bytes_round_trip(rest, (n - 1) as nat);
        let players = spec_deserialize_players(b, n);
        assert(players.drop_first() =~= spec_deserialize_players(rest, (n - 1) as nat));
        assert(spec_serialize_players(players) =~= b);
    }
}

/// Round-trip law: decoding what a command encodes to gives the command
/// back. With the contracts of [`Command::serialize`] and
/// [`Command::deserialize`], this is `deserialize(serialize(c)) == Ok(c)`
/// for every constructible command.
pub proof fn lemma_serialize_deserialize(c: CommandView)
    requires
        wf_command(c),
    ensures
        spec_deserialize(spec_serialize(c)) == Some(c),
{
    lemma_auto_spec_u128_to_from_le_bytes();
    lemma_auto_spec_u64_to_from_le_bytes();
    lemma_auto_spec_u32_to_from_le_bytes();
    let b = spec_serialize(c);
    match c.command_type {
        CommandTypeView::PlayerJoin => {
            assert(b.subrange(1, 17) =~= spec_u128_to_le_bytes(c.time));
        },
        CommandTypeView::PlayerLeave => {
            assert(b.subrange(1, 17) =~= spec_u128_to_le_bytes(c.time));
        },
        CommandTypeView::PlayerMove { position, velocity, pitch, yaw } => {
            assert(b.subrange(1, 17) =~= spec_u128_to_le_bytes(c.time));
            assert(b.subrange(17, 21) =~= spec_u32_to_le_bytes(position.x));
            assert(b.subrange(21, 25) =~= spec_u32_to_le_bytes(position.y));
            assert(b.subrange(25, 29) =~= spec_u32_to_le_bytes(position.z));
            assert(b.subrange(29, 33) =~= spec_u32_to_le_bytes(velocity.x));
            assert(b.subrange(33, 37) =~= spec_u32_to_le_bytes(velocity.y));
            assert(b.subrange(37, 41) =~= spec_u32_to_le_bytes(velocity.z));
            assert(b.subrange(41, 45) =~= spec_u32_to_le_bytes(pitch));
            assert(b.subrange(45, 49) =~= spec_u32_to_le_bytes(yaw));
        },
        CommandTypeView::Data(recipient, players) => {
            lemma_players_round_trip(players);
            assert(b.subrange(1, 17) =~= spec_u128_to_le_bytes(c.time));
            assert(b.subrange(17, 33) =~= spec_u128_to_le_bytes(recipient));
            assert(b.subrange(33, 41) =~= spec_u64_to_le_bytes(players.len() as u64));
            assert(b.skip(DATA_PREFIX_BYTES as int) =~= spec_serialize_players(players));
            let d = spec_deserialize(b).unwrap();
            assert(d.command_type =~= c.command_type);
            assert(d =~= c);
        },
    }
}

/// Canonicity: a byte string that decodes is exactly the encoding of what it
/// decodes to, so each command has one wire form and decoding loses nothing.
pub proof fn lemma_deserialize_serialize(b: Seq<u8>, c: CommandView)
    requires
        spec_deserialize(b) == Some(c),
    ensures
        spec_serialize(c) == b,
        wf_command(c),
{
    lemma_auto_spec_u128_to_from_le_bytes();
    lemma_auto_spec_u64_to_from_le_bytes();
    lemma_auto_spec_u32_to_from_le_bytes();
    let tag = b[0];
    if tag == TAG_PLAYER_JOIN || tag == TAG_PLAYER_LEAVE {
        assert(spec_serialize(c) =~= b);
    } else if tag == TAG_PLAYER_MOVE {
        assert(spec_serialize(c) =~= b);
    } else {
        let n = spec_u64_from_le_bytes(b.subrange(33, 41));
        lemma_players_bytes_round_trip(b.skip(DATA_PREFIX_BYTES as int), n as nat);
        match c.command_type {
            CommandTypeView::Data(recipient, players) => {
                assert(players.len() == n);
                assert(spec_u64_to_le_bytes(players.len() as u64) == b.subrange(33, 41));
                assert(spec_serialize_players(players) == b.skip(DATA_PREFIX_BYTES as int));
                assert(spec_serialize(c) =~= b);
            },
            _ => {
                assert(false);
            },
        }
    }
}

/// Completeness: a byte string that fails to decode is the encoding of no
/// command at all — rejection never discards a valid datagram.
pub proof fn lemma_deserialize_complete(b: Seq<u8>)
    requires
        spec_deserialize(b) is None,
    ensures
        forall|c: CommandView| wf_command(c) ==> spec_serialize(c) != b,
{
    assert forall|c: CommandView| wf_command(c) implies spec_serialize(c) != b by {
        if spec_serialize(c) == b {
            lemma_serialize_deserialize(c);
        }
    };
}

fn read_u32(data: &[u8], off: usize) -> (x: u32)
    requires
        off + 4 <= data@.len(),
    ensures
        x == spec_u32_from_le_bytes(data@.subrange(off as int, off + 4)),
{
    let total: usize = data.len();
    proof {
        assert(off + 4 <= total);
    }
    u32_from_le_bytes(slice_subrange(data, off, off + 4))
}

fn read_u64(data: &[u8], off: usize) -> (x: u64)
    requires
        off + 8 <= data@.len(),
    ensures
        x == spec_u64_from_le_bytes(data@.subrange(off as int, off + 8)),
{
    let total: usize = data.len();
    proof {
        assert(off + 8 <= total);
    }
    u64_from_le_bytes(slice_subrange(data, off, off + 8))
}

fn read_u128(data: &[u8], off: usize) -> (x: u128)
    requires
        off + 16 <= data@.len(),
    ensures
        x == spec_u128_from_le_bytes(data@.subrange(off as int, off + 16)),
{
    let total: usize = data.len();
    proof {
        assert(off + 16 <= total);
    }
    u128_from_le_bytes(slice_subrange(data, off, off + 16))
}

fn read_player(data: &[u8], off: usize) -> (p: PlayerState)
    requires
        off + PLAYER_BYTES <= data@.len(),
    ensures
        p == spec_deserialize_player(data@.subrange(off as int, off + PLAYER_BYTES)),
{
    let total: usize = data.len();
    proof {
        assert(off + PLAYER_BYTES <= total);
    }
    let ghost block = data@.subrange(off as int, off + PLAYER_BYTES);
    let p = PlayerState {
        player_id: read_u128(data, off),
        position: Vec3Bits {
            x: read_u32(data, off + 16),
            y: read_u32(data, off + 20),
            z: read_u32(data, off + 24),
        },
        velocity: Vec3Bits {
            x: read_u32(data, off + 28),
            y: read_u32(data, off + 32),
            z: read_u32(data, off + 36),
        },
        pitch: read_u32(data, off + 40),
        yaw: read_u32(data, off + 44),
        health: data[off + 48],
    };
    proof {
        assert(block.subrange(0, 16) =~= data@.subrange(off as int, off + 16));
        assert(block.subrange(16, 20) =~= data@.subrange(off + 16, off + 20));
        assert(block.subrange(20, 24) =~= data@.subrange(off + 20, off + 24));
        assert(block.subrange(24, 28) =~= data@.subrange(off + 24, off + 28));
        assert(block.subrange(28, 32) =~= data@.subrange(off + 28, off + 32));
        assert(block.subrange(32, 36) =~= data@.subrange(off + 32, off + 36));
        assert(block.subrange(36, 40) =~= data@.subrange(off + 36, off + 40));
        assert(block.subrange(40, 44) =~= data@.subrange(off + 40, off + 44));
        assert(block.subrange(44, 48) =~= data@.subrange(off + 44, off + 48));
        assert(block[48] == data@[off + 48]);
    }
    p
}

proof fn lemma_deserialize_players_snoc(b: Seq<u8>, n: nat)
    requires
        b.len() >= PLAYER_BYTES * (n + 1),
    ensures
        spec_deserialize_players(b.take(PLAYER_BYTES * (n + 1)), (n + 1) as nat)
            == spec_deserialize_players(b.take(PLAYER_BYTES * n), n).push(
            spec_deserialize_player(
                b.subrange(PLAYER_BYTES * n, PLAYER_BYTES * n + PLAYER_BYTES),
            ),
        ),
    decreases n,
{
    let size = PLAYER_BYTES as int;
    let whole = b.take(size * (n + 1));
    let front = b.take(size * n);
    let last = spec_deserialize_player(b.subrange(size * n, size * n + size));
    if n == 0 {
        reveal_with_fuel(spec_deserialize_players, 2);
        assert(whole.take(size) =~= b.subrange(0, size));
        assert(whole.skip(size) =~= Seq::<u8>::empty());
        assert(spec_deserialize_players(whole, 1) =~= spec_deserialize_players(front, 0).push(
            last,
        ));
    } else {
        let rest = b.skip(size);
        lemma_deserialize_players_snoc(rest, (n - 1) as nat);
        assert(whole.take(size) =~= b.take(size));
        assert(front.take(size) =~= b.take(size));
        assert(whole.skip(size) =~= rest.take(size * n));
        assert(front.skip(size) =~= rest.take(size * (n - 1)));
        assert(b.subrange(size * n, size * n + size) =~= rest.subrange(
            size * (n - 1),
            size * (n - 1) + size,
        ));
        assert(spec_deserialize_players(whole, (n + 1) as nat) == seq![
            spec_deserialize_player(b.take(size)),
        ] + spec_deserialize_players(rest.take(size * n), n));
        assert(spec_deserialize_players(front, n) == seq![
            spec_deserialize_player(b.take(size)),
        ] + spec_deserialize_players(rest.take(size * (n - 1)), (n - 1) as nat));
        assert(spec_deserialize_players(whole, (n + 1) as nat) =~= spec_deserialize_players(
            front,
            n,
        ).push(last));
    }
}

impl Command {
    /// Encode for the wire. Deterministic: equal commands give equal bytes.
    pub fn serialize(&self) -> (r: Vec<u8>)
        ensures
            r@ == spec_serialize(self@),
    {
        let mut out: Vec<u8> = Vec::new();
        match &self.command_type {
            CommandType::PlayerJoin => {
                out.push(TAG_PLAYER_JOIN);
                push_u128(&mut out, self.time);
                proof {
                    assert(out@ =~= spec_serialize(self@));
                }
            },
            CommandType::PlayerLeave => {
                out.push(TAG_PLAYER_LEAVE);
                push_u128(&mut out, self.time);
                proof {
                    assert(out@ =~= spec_serialize(self@));
                }
            },
            CommandType::PlayerMove { position, velocity, pitch, yaw } => {
                out.push(TAG_PLAYER_MOVE);
                push_u128(&mut out, self.time);
                push_u32(&mut out, position.x);
                push_u32(&mut out, position.y);
                push_u32(&mut out, position.z);
                push_u32(&mut out, velocity.x);
                push_u32(&mut out, velocity.y);
                push_u32(&mut out, velocity.z);
                push_u32(&mut out, *pitch);
                push_u32(&mut out, *yaw);
                proof {
                    assert(out@ =~= spec_serialize(self@));
                }
            },
            CommandType::Data(recipient, players) => {
                out.push(TAG_DATA);
                push_u128(&mut out, self.time);
                push_u128(&mut out, *recipient);
                push_u64(&mut out, players.len() as u64);
                let ghost prefix = out@;
                for i in 0..players.len()
                    invariant
                        out@ == prefix + spec_serialize_players(players@.take(i as int)),
                {
                    push_player(&mut out, &players[i]);
                    proof {
                        lemma_serialize_players_push(players@.take(i as int), players@[i as int]);
                        assert(players@.take(i + 1) =~= players@.take(i as int).push(
                            players@[i as int],
                        ));
                    }
                }
                proof {
                    assert(players@.take(players@.len() as int) =~= players@);
                    assert(out@ =~= spec_serialize(self@));
                }
            },
        }
        out
    }

    /// Decode one datagram. Succeeds exactly on the byte strings some
    /// command encodes to; anything malformed or truncated is rejected with
    /// the reason, and nothing is mutated.
    pub fn deserialize(data: &[u8]) -> (r: Result<Command, DecodeError>)
        ensures
            match r {
                Ok(c) => spec_deserialize(data@) == Some(c@),
                Err(e) => spec_deserialize(data@) is None && e == spec_deserialize_error(data@),
            },
    {
        if data.len() < HEADER_BYTES {
            return Err(DecodeError::TooShort);
        }
        let tag = data[0];
        let time = read_u128(data, 1);
        proof {
            assert(data@.subrange(1, 17) == data@.subrange(1int, 1int + 16));
        }
        if tag == TAG_PLAYER_JOIN {
            if data.len() == HEADER_BYTES {
                Ok(Command { command_type: CommandType::PlayerJoin, time })
            } else {
                Err(DecodeError::BadLength)
            }
        } else if tag == TAG_PLAYER_LEAVE {
            if data.len() == HEADER_BYTES {
                Ok(Command { command_type: CommandType::PlayerLeave, time })
            } else {
                Err(DecodeError::BadLength)
            }
        } else if tag == TAG_PLAYER_MOVE {
            if data.len() == MOVE_BYTES {
                let position = Vec3Bits {
                    x: read_u32(data, 17),
                    y: read_u32(data, 21),
                    z: read_u32(data, 25),
                };
                let velocity = Vec3Bits {
                    x: read_u32(data, 29),
                    y: read_u32(data, 33),
                    z: read_u32(data, 37),
                };
                let pitch = read_u32(data, 41);
                let yaw = read_u32(data, 45);
                Ok(
                    Command {
                        command_type: CommandType::PlayerMove { position, velocity, pitch, yaw },
                        time,
                    },
                )
            } else {
                Err(DecodeError::BadLength)
            }
        } else if tag == TAG_DATA {
            if data.len() < DATA_PREFIX_BYTES {
                return Err(DecodeError::BadLength);
            }
            let recipient = read_u128(data, 17);
            let count = read_u64(data, 33);
            if (data.len() as u128) != (DATA_PREFIX_BYTES as u128) + (PLAYER_BYTES as u128) * (
            count as u128) {
                return Err(DecodeError::BadLength);
            }
            proof {
                assert(count * PLAYER_BYTES >= count) by (nonlinear_arith)
                    requires
                        count >= 0,
                ;
            }
            let n = count as usize;
            let ghost body = data@.skip(DATA_PREFIX_BYTES as int);
            let mut players: Vec<PlayerState> = Vec::new();
            let mut off: usize = DATA_PREFIX_BYTES;
            for i in 0..n
                invariant
                    n == count,
                    off == DATA_PREFIX_BYTES + PLAYER_BYTES * i,
                    data@.len() == DATA_PREFIX_BYTES + PLAYER_BYTES * n,
                    data@.len() <= usize::MAX,
                    body == data@.skip(DATA_PREFIX_BYTES as int),
                    players@ == spec_deserialize_players(
                        body.take(PLAYER_BYTES * i),
                        i as nat,
                    ),
            {
                let p = read_player(data, off);
                players.push(p);
                proof {
                    lemma_deserialize_players_snoc(body, i as nat);
                    assert(body.subrange(
                        PLAYER_BYTES * i,
                        PLAYER_BYTES * i + PLAYER_BYTES,
                    ) =~= data@.subrange(off as int, off + PLAYER_BYTES));
                }
                off = off + PLAYER_BYTES;
            }
            proof {
                assert(body.take(PLAYER_BYTES * (n as int)) =~= body);
            }
            Ok(Command { command_type: CommandType::Data(recipient, players), time })
        } else {
            Err(DecodeError::UnknownKind)
        }
    }
}

} // verus!
