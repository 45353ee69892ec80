use vstd::prelude::*;

use crate::command::Command;
use crate::command::CommandType;
use crate::command::CommandTypeView;
use crate::command::CommandView;
use crate::command::spec_serialize;
use crate::player_state::PlayerState;
use crate::player_state::Vec3Bits;

verus! {

/// A remote player's last reported state, stamped with the local receipt
/// time in milliseconds. The renderer extrapolates a display position from
/// it — `position + velocity * (now - time)` — outside this core, since the
/// kinematic fields are carried as raw float bit patterns here.
#[derive(Clone, Copy, PartialEq, Eq, Structural, Debug)]
pub struct TimedPlayerState {
    pub player_state: PlayerState,
    pub time: u64,
}

impl TimedPlayerState {
    pub fn new(player_state: PlayerState, now: u64) -> (r: TimedPlayerState)
        ensures
            r == (TimedPlayerState { player_state, time: now }),
    {
        TimedPlayerState { player_state, time: now }
    }
}

/// No two entries share an identity: the table is a map keyed by identity.
pub open spec fn distinct_ids(states: Seq<TimedPlayerState>) -> bool {
    forall|i: int, j: int|
        0 <= i < j < states.len() ==> (#[trigger] states[i].player_state.player_id) != (
        #[trigger] states[j].player_state.player_id)
}

/// Whether some entry holds this identity.
pub open spec fn has_id(states: Seq<TimedPlayerState>, id: u128) -> bool {
    exists|i: int|
        0 <= i < states.len() && (#[trigger] states[i].player_state.player_id) == id
}

/// Index of the first entry with this identity, or `-1`.
pub open spec fn find_id(states: Seq<TimedPlayerState>, id: u128) -> int
    decreases states.len(),
{
    if states.len() == 0 {
        -1
    } else if states[0].player_state.player_id == id {
        0
    } else {
        let rest = find_id(states.drop_first(), id);
        if rest < 0 {
            -1
        } else {
            rest + 1
        }
    }
}

pub proof fn lemma_find_id(states: Seq<TimedPlayerState>, id: u128)
    ensures
        -1 <= find_id(states, id) < states.len(),
        find_id(states, id) == -1 <==> !has_id(states, id),
        find_id(states, id) >= 0 ==> states[find_id(states, id)].player_state.player_id == id
            && (forall|i: int|
            0 <= i < find_id(states, id) ==> (#[trigger] states[i].player_state.player_id) != id),
    decreases states.len(),
{
    if states.len() == 0 {
    } else {
        lemma_find_id(states.drop_first(), id);
        if states[0].player_state.player_id == id {
        } else {
            let rest = find_id(states.drop_first(), id);
            assert(forall|i: int|
                1 <= i < states.len() ==> (#[trigger] states[i].player_state.player_id)
                    == states.drop_first()[i - 1].player_state.player_id);
            if rest < 0 {
                assert(!has_id(states, id));
            } else {
                assert(has_id(states, id));
            }
        }
    }
}

/// One snapshot entry folded into the table: the recipient's own identity is
/// skipped; any other identity is inserted fresh or overwritten wholesale,
/// stamped with the receipt time.
pub open spec fn spec_ingest_one(
    table: Seq<TimedPlayerState>,
    p: PlayerState,
    recipient: u128,
    now: u64,
) -> Seq<TimedPlayerState> {
    if p.player_id == recipient {
        table
    } else {
        let i = find_id(table, p.player_id);
        let e = TimedPlayerState { player_state: p, time: now };
        if i >= 0 {
            table.update(i, e)
        } else {
            table.push(e)
        }
    }
}

/// A whole snapshot list folded into the table, in list order.
pub open spec fn spec_ingest(
    table: Seq<TimedPlayerState>,
    players: Seq<PlayerState>,
    recipient: u128,
    now: u64,
) -> Seq<TimedPlayerState>
    decreases players.len(),
{
    if players.len() == 0 {
        table
    } else {
        spec_ingest(
            spec_ingest_one(table, players[0], recipient, now),
            players.drop_first(),
            recipient,
            now,
        )
    }
}

/// What one received command does to the remote-player table: a snapshot
/// clears and rebuilds it wholesale; every other command leaves it alone.
pub open spec fn spec_handle(
    table: Seq<TimedPlayerState>,
    kind: CommandTypeView,
    now: u64,
) -> Seq<TimedPlayerState> {
    match kind {
        CommandTypeView::Data(recipient, players) => spec_ingest(
            Seq::<TimedPlayerState>::empty(),
            players,
            recipient,
            now,
        ),
        _ => table,
    }
}

pub proof fn lemma_ingest_snoc(
    table: Seq<TimedPlayerState>,
    players: Seq<PlayerState>,
    p: PlayerState,
    recipient: u128,
    now: u64,
)
    ensures
        spec_ingest(table, players.push(p), recipient, now) == spec_ingest_one(
            spec_ingest(table, players, recipient, now),
            p,
            recipient,
            now,
        ),
    decreases players.len(),
{
    if players.len() == 0 {
        reveal_with_fuel(spec_ingest, 2);
        assert(players.push(p).drop_first() =~= Seq::<PlayerState>::empty());
    } else {
        assert(players.push(p).drop_first() =~= players.drop_first().push(p));
        assert(players.push(p)[0] == players[0]);
        lemma_ingest_snoc(
            spec_ingest_one(table, players[0], recipient, now),
            players.drop_first(),
            p,
            recipient,
            now,
        );
    }
}

pub proof fn lemma_ingest_one_excludes(
    table: Seq<TimedPlayerState>,
    p: PlayerState,
    recipient: u128,
    now: u64,
)
    requires
        !has_id(table, recipient),
    ensures
        !has_id(spec_ingest_one(table, p, recipient, now), recipient),
{
    if p.player_id == recipient {
    } else {
        lemma_find_id(table, p.player_id);
        let after = spec_ingest_one(table, p, recipient, now);
        assert forall|k: int| 0 <= k < after.len() implies (
        #[trigger] after[k].player_state.player_id) != recipient by {
            if k < table.len() {
                assert(table[k].player_state.player_id != recipient);
            }
        };
    }
}

pub proof fn lemma_ingest_one_distinct(
    table: Seq<TimedPlayerState>,
    p: PlayerState,
    recipient: u128,
    now: u64,
)
    requires
        distinct_ids(table),
    ensures
        distinct_ids(spec_ingest_one(table, p, recipient, now)),
{
    if p.player_id == recipient {
    } else {
        lemma_find_id(table, p.player_id);
        let i = find_id(table, p.player_id);
        let after = spec_ingest_one(table, p, recipient, now);
        if i >= 0 {
            assert(forall|k: int|
                0 <= k < after.len() ==> (#[trigger] after[k].player_state.player_id)
                    == table[k].player_state.player_id);
        } else {
            assert(!has_id(table, p.player_id));
        }
    }
}

pub proof fn lemma_ingest_excludes(
    table: Seq<TimedPlayerState>,
    players: Seq<PlayerState>,
    recipient: u128,
    now: u64,
)
    requires
        !has_id(table, recipient),
    ensures
        !has_id(spec_ingest(table, players, recipient, now), recipient),
    decreases players.len(),
{
    if players.len() == 0 {
    } else {
        lemma_ingest_one_excludes(table, players[0], recipient, now);
        lemma_ingest_excludes(
            spec_ingest_one(table, players[0], recipient, now),
            players.drop_first(),
            recipient,
            now,
        );
    }
}

pub proof fn lemma_ingest_distinct(
    table: Seq<TimedPlayerState>,
    players: Seq<PlayerState>,
    recipient: u128,
    now: u64,
)
    requires
        distinct_ids(table),
    ensures
        distinct_ids(spec_ingest(table, players, recipient, now)),
    decreases players.len(),
{
    if players.len() == 0 {
    } else {
        lemma_ingest_one_distinct(table, players[0], recipient, now);
        lemma_ingest_distinct(
            spec_ingest_one(table, players[0], recipient, now),
            players.drop_first(),
            recipient,
            now,
        );
    }
}

/// Self-exclusion: the table rebuilt from a snapshot never holds the
/// recipient's own identity, even where the snapshot's list includes it.
pub proof fn lemma_self_exclusion(players: Seq<PlayerState>, recipient: u128, now: u64)
    ensures
        !has_id(
            spec_ingest(Seq::<TimedPlayerState>::empty(), players, recipient, now),
            recipient,
        ),
{
    lemma_ingest_excludes(Seq::<TimedPlayerState>::empty(), players, recipient, now);
}

fn find_player(states: &Vec<TimedPlayerState>, id: u128) -> (r: Option<usize>)
    ensures
        match r {
            Some(j) => find_id(states@, id) == j,
            None => find_id(states@, id) == -1,
        },
{
    let n = states.len();
    let mut k: usize = 0;
    while k < n
        invariant
            k <= n,
            n == states@.len(),
            forall|j: int| 0 <= j < k ==> (#[trigger] states@[j].player_state.player_id) != id,
        decreases n - k,
    {
        if states[k].player_state.player_id == id {
            proof {
                lemma_find_id(states@, id);
            }
            return Some(k);
        }
        k = k + 1;
    }
    proof {
        lemma_find_id(states@, id);
    }
    None
}

/// The client's sync store: the time-stamped table of remote players, fed
/// by received snapshots and read by the renderer. The socket lives with
/// the runner, which hands in each decoded command with the receipt time.
pub struct Network {
    pub player_states: Vec<TimedPlayerState>,
}

impl Network {
    /// The table invariant: one entry per identity.
    pub open spec fn wf(self) -> bool {
        distinct_ids(self.player_states@)
    }

    /// A fresh store with no remote players known.
    pub fn new() -> (n: Network)
        ensures
            n.wf(),
            n.player_states@.len() == 0,
    {
        Network { player_states: Vec::new() }
    }

    /// Ingest one received command. A snapshot clears the table and rebuilds
    /// it from the snapshot's list, skipping the recipient's own identity;
    /// any other command leaves the table alone. The rebuilt table never
    /// holds the recipient's identity.
    pub fn handle_command(&mut self, command_type: &CommandType, now: u64)
        requires
            old(self).wf(),
        ensures
            final(self).wf(),
            final(self).player_states@ == spec_handle(
                old(self).player_states@,
                command_type@,
                now,
            ),
            forall|recipient: u128, players: Seq<PlayerState>|
                command_type@ == CommandTypeView::Data(recipient, players) ==> !has_id(
                    final(self).player_states@,
                    recipient,
                ),
    {
        match command_type {
            CommandType::Data(recipient, players) => {
                self.player_states.clear();
                let rid = *recipient;
                let n = players.len();
                let mut i: usize = 0;
                while i < n
                    invariant
                        i <= n,
                        n == players@.len(),
                        distinct_ids(self.player_states@),
                        self.player_states@ == spec_ingest(
                            Seq::<TimedPlayerState>::empty(),
                            players@.take(i as int),
                            rid,
                            now,
                        ),
                    decreases n - i,
                {
                    let p = players[i];
                    let ghost pre = self.player_states@;
                    if p.player_id != rid {
                        match find_player(&self.player_states, p.player_id) {
                            Some(j) => {
                                proof {
                                    lemma_find_id(self.player_states@, p.player_id);
                                }
                                let slot = vstd::std_specs::vec::vec_index_mut(
                                    &mut self.player_states,
                                    j,
                                );
                                *slot = TimedPlayerState { player_state: p, time: now };
                            },
                            None => {
                                self.player_states.push(
                                    TimedPlayerState { player_state: p, time: now },
                                );
                            },
                        }
                    }
                    proof {
                        assert(self.player_states@ == spec_ingest_one(pre, p, rid, now));
                        lemma_ingest_snoc(
                            Seq::<TimedPlayerState>::empty(),
                            players@.take(i as int),
                            players@[i as int],
                            rid,
                            now,
                        );
                        assert(players@.take(i + 1) =~= players@.take(i as int).push(
                            players@[i as int],
                        ));
                        lemma_ingest_one_distinct(pre, p, rid, now);
                    }
                    i = i + 1;
                }
                proof {
                    assert(players@.take(n as int) =~= players@);
                    lemma_self_exclusion(players@, rid, now);
                }
            },
            _ => {},
        }
    }
}

/// The bytes of an admission request stamped with the sender's clock.
pub fn join_datagram(time: u128) -> (r: Vec<u8>)
    ensures
        r@ == spec_serialize(CommandView { command_type: CommandTypeView::PlayerJoin, time }),
{
    let command = Command { command_type: CommandType::PlayerJoin, time };
    command.serialize()
}

/// The bytes of a graceful-removal request stamped with the sender's clock.
pub fn leave_datagram(time: u128) -> (r: Vec<u8>)
    ensures
        r@ == spec_serialize(CommandView { command_type: CommandTypeView::PlayerLeave, time }),
{
    let command = Command { command_type: CommandType::PlayerLeave, time };
    command.serialize()
}

/// The bytes of a movement report stamped with the sender's clock.
pub fn move_datagram(
    position: Vec3Bits,
    velocity: Vec3Bits,
    pitch: u32,
    yaw: u32,
    time: u128,
) -> (r: Vec<u8>)
    ensures
        r@ == spec_serialize(
            CommandView {
                command_type: CommandTypeView::PlayerMove { position, velocity, pitch, yaw },
                time,
            },
        ),
{
    let command = Command {
        command_type: CommandType::PlayerMove { position, velocity, pitch, yaw },
        time,
    };
    command.serialize()
}

} // verus!
