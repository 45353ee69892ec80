use vstd::prelude::*;

use crate::command::Command;
use crate::command::CommandType;
use crate::command::CommandTypeView;
use crate::command::CommandView;
use crate::command::spec_deserialize;
use crate::command::spec_serialize;
use crate::player_state::PlayerState;
use crate::player_state::Vec3Bits;

verus! {

/// A transport address as plain values. The runner maps each socket address
/// injectively onto this form (an IPv4 address as its IPv6-mapped bits), so
/// distinct peers get distinct keys.
#[derive(Clone, Copy, PartialEq, Eq, Structural, Debug)]
pub struct NetAddr {
    pub ip: u128,
    pub port: u16,
}

/// One connection the server tracks, keyed by transport address.
///
/// `player` is `Some` for an admitted player and `None` where only liveness
/// bookkeeping exists for the address: a movement report from an unknown
/// address still (re)arms a liveness clock for it, though no player exists
/// there. That quirk is kept deliberately, pending a product decision, and
/// flagged here rather than silently patched.
#[derive(Clone, Copy, PartialEq, Eq, Debug)]
pub struct ServerConnectionEntry {
    pub addr: NetAddr,
    pub player: Option<PlayerState>,
    pub last_seen: u64,
}

/// A decoded command waiting for the tick boundary, tagged with its source.
#[derive(Clone, Debug)]
pub struct InputCommand {
    pub command: Command,
    pub src_addr: NetAddr,
}

/// Mathematical model of an [`InputCommand`].
#[verifier::ext_equal]
pub struct InputCommandView {
    pub command: CommandView,
    pub src_addr: NetAddr,
}

impl View for InputCommand {
    type V = InputCommandView;

    open spec fn view(&self) -> InputCommandView {
        InputCommandView { command: self.command@, src_addr: self.src_addr }
    }
}

/// The queue as a sequence of command models, in arrival order.
pub open spec fn spec_queue(q: Seq<InputCommand>) -> Seq<InputCommandView> {
    q.map_values(|ic: InputCommand| ic@)
}

/// No two entries share an address: the table is a map keyed by address.
pub open spec fn distinct_addrs(conns: Seq<ServerConnectionEntry>) -> bool {
    forall|i: int, j: int|
        0 <= i < j < conns.len() ==> (#[trigger] conns[i].addr) != (#[trigger] conns[j].addr)
}

/// Whether some entry holds this address.
pub open spec fn has_addr(conns: Seq<ServerConnectionEntry>, addr: NetAddr) -> bool {
    exists|i: int| 0 <= i < conns.len() && (#[trigger] conns[i].addr) == addr
}

/// Index of the first entry with this address, or `-1`.
pub open spec fn find_index(conns: Seq<ServerConnectionEntry>, addr: NetAddr) -> int
    decreases conns.len(),
{
    if conns.len() == 0 {
        -1
    } else if conns[0].addr == addr {
        0
    } else {
        let rest = find_index(conns.drop_first(), addr);
        if rest < 0 {
            -1
        } else {
            rest + 1
        }
    }
}

pub proof fn lemma_find_index(conns: Seq<ServerConnectionEntry>, addr: NetAddr)
    ensures
        -1 <= find_index(conns, addr) < conns.len(),
        find_index(conns, addr) == -1 <==> !has_addr(conns, addr),
        find_index(conns, addr) >= 0 ==> conns[find_index(conns, addr)].addr == addr
            && (forall|i: int|
            0 <= i < find_index(conns, addr) ==> (#[trigger] conns[i].addr) != addr),
    decreases conns.len(),
{
    if conns.len() == 0 {
    } else {
        lemma_find_index(conns.drop_first(), addr);
        if conns[0].addr == addr {
        } else {
            let rest = find_index(conns.drop_first(), addr);
            assert(forall|i: int|
                1 <= i < conns.len() ==> (#[trigger] conns[i].addr) == conns.drop_first()[i
                    - 1].addr);
            if rest < 0 {
                assert(!has_addr(conns, addr));
            } else {
                assert(has_addr(conns, addr));
            }
        }
    }
}

/// The admitted players, in table order, each with its address.
pub open spec fn spec_roster(conns: Seq<ServerConnectionEntry>) -> Seq<(NetAddr, PlayerState)>
    decreases conns.len(),
{
    if conns.len() == 0 {
        Seq::<(NetAddr, PlayerState)>::empty()
    } else {
        match conns[0].player {
            Some(p) => seq![(conns[0].addr, p)] + spec_roster(conns.drop_first()),
            None => spec_roster(conns.drop_first()),
        }
    }
}

/// How many entries hold an admitted player.
pub open spec fn count_players(conns: Seq<ServerConnectionEntry>) -> int {
    spec_roster(conns).len() as int
}

/// The shared snapshot body: every admitted player's state, in table order.
pub open spec fn spec_states(conns: Seq<ServerConnectionEntry>) -> Seq<PlayerState> {
    spec_roster(conns).map_values(|pr: (NetAddr, PlayerState)| pr.1)
}

/// 1 where the entry holds an admitted player.
pub open spec fn player_bit(e: ServerConnectionEntry) -> int {
    if e.player is Some {
        1
    } else {
        0
    }
}

pub proof fn lemma_roster_push(conns: Seq<ServerConnectionEntry>, e: ServerConnectionEntry)
    ensures
        spec_roster(conns.push(e)) == spec_roster(conns) + (match e.player {
            Some(p) => seq![(e.addr, p)],
            None => Seq::<(NetAddr, PlayerState)>::empty(),
        }),
    decreases conns.len(),
{
    if conns.len() == 0 {
        reveal_with_fuel(spec_roster, 2);
        assert(conns.push(e).drop_first() =~= Seq::<ServerConnectionEntry>::empty());
        assert(spec_roster(conns.push(e)) =~= spec_roster(conns) + (match e.player {
            Some(p) => seq![(e.addr, p)],
            None => Seq::<(NetAddr, PlayerState)>::empty(),
        }));
    } else {
        assert(conns.push(e).drop_first() =~= conns.drop_first().push(e));
        lemma_roster_push(conns.drop_first(), e);
        assert(conns.push(e)[0] == conns[0]);
        assert(spec_roster(conns.push(e)) =~= spec_roster(conns) + (match e.player {
            Some(p) => seq![(e.addr, p)],
            None => Seq::<(NetAddr, PlayerState)>::empty(),
        }));
    }
}

pub proof fn lemma_count_update(
    conns: Seq<ServerConnectionEntry>,
    i: int,
    e: ServerConnectionEntry,
)
    requires
        0 <= i < conns.len(),
    ensures
        count_players(conns.update(i, e)) == count_players(conns) - player_bit(conns[i])
            + player_bit(e),
    decreases conns.len(),
{
    if i == 0 {
        assert(conns.update(0, e).drop_first() =~= conns.drop_first());
    } else {
        assert(conns.update(i, e).drop_first() =~= conns.drop_first().update(i - 1, e));
        assert(conns.update(i, e)[0] == conns[0]);
        lemma_count_update(conns.drop_first(), i - 1, e);
    }
}

pub proof fn lemma_count_remove(conns: Seq<ServerConnectionEntry>, i: int)
    requires
        0 <= i < conns.len(),
    ensures
        count_players(conns.remove(i)) == count_players(conns) - player_bit(conns[i]),
    decreases conns.len(),
{
    if i == 0 {
        assert(conns.remove(0) =~= conns.drop_first());
    } else {
        assert(conns.remove(i).drop_first() =~= conns.drop_first().remove(i - 1));
        assert(conns.remove(i)[0] == conns[0]);
        lemma_count_remove(conns.drop_first(), i - 1);
    }
}

pub proof fn lemma_count_push(conns: Seq<ServerConnectionEntry>, e: ServerConnectionEntry)
    ensures
        count_players(conns.push(e)) == count_players(conns) + player_bit(e),
{
    lemma_roster_push(conns, e);
}

/// An entry after an accepted admission request: the liveness clock is
/// re-armed; a player is created only where none exists, keeping any state
/// the address already had.
pub open spec fn joined_entry(e: ServerConnectionEntry, now: u64, fresh_id: u128)
    -> ServerConnectionEntry {
    ServerConnectionEntry {
        player: match e.player {
            Some(p) => Some(p),
            None => Some(PlayerState::spec_with_identity(fresh_id)),
        },
        last_seen: now,
        ..e
    }
}

/// An entry after a movement report: the liveness clock is re-armed and the
/// kinematic fields are overwritten where a player exists.
pub open spec fn moved_entry(
    e: ServerConnectionEntry,
    position: Vec3Bits,
    velocity: Vec3Bits,
    pitch: u32,
    yaw: u32,
    now: u64,
) -> ServerConnectionEntry {
    ServerConnectionEntry {
        player: match e.player {
            Some(p) => Some(p.spec_update(position, velocity, pitch, yaw)),
            None => None,
        },
        last_seen: now,
        ..e
    }
}

/// Admission. Dropped silently at capacity — no rejection message is sent,
/// so a client cannot tell rejection from packet loss, a known gap kept
/// deliberately; otherwise the address's entry is created or refreshed.
pub open spec fn spec_join(
    conns: Seq<ServerConnectionEntry>,
    addr: NetAddr,
    now: u64,
    fresh_id: u128,
    max_players: int,
) -> Seq<ServerConnectionEntry> {
    if count_players(conns) >= max_players {
        conns
    } else {
        let i = find_index(conns, addr);
        if i >= 0 {
            conns.update(i, joined_entry(conns[i], now, fresh_id))
        } else {
            conns.push(
                ServerConnectionEntry {
                    addr,
                    player: Some(PlayerState::spec_with_identity(fresh_id)),
                    last_seen: now,
                },
            )
        }
    }
}

/// Graceful removal: the address's entry disappears entirely.
pub open spec fn spec_leave(conns: Seq<ServerConnectionEntry>, addr: NetAddr) -> Seq<
    ServerConnectionEntry,
> {
    let i = find_index(conns, addr);
    if i >= 0 {
        conns.remove(i)
    } else {
        conns
    }
}

/// A movement report. A known address gets its clock re-armed and its player
/// (if any) updated; an unknown address gets a playerless liveness entry —
/// the quirk flagged on [`ServerConnectionEntry`].
pub open spec fn spec_move(
    conns: Seq<ServerConnectionEntry>,
    addr: NetAddr,
    position: Vec3Bits,
    velocity: Vec3Bits,
    pitch: u32,
    yaw: u32,
    now: u64,
) -> Seq<ServerConnectionEntry> {
    let i = find_index(conns, addr);
    if i >= 0 {
        conns.update(i, moved_entry(conns[i], position, velocity, pitch, yaw, now))
    } else {
        conns.push(ServerConnectionEntry { addr, player: None, last_seen: now })
    }
}

/// What one command does to the table. Snapshots are never received
/// server-side and are ignored if they arrive.
pub open spec fn spec_apply(
    conns: Seq<ServerConnectionEntry>,
    kind: CommandTypeView,
    addr: NetAddr,
    now: u64,
    fresh_id: u128,
    max_players: int,
) -> Seq<ServerConnectionEntry> {
    match kind {
        CommandTypeView::PlayerJoin => spec_join(conns, addr, now, fresh_id, max_players),
        CommandTypeView::PlayerLeave => spec_leave(conns, addr),
        CommandTypeView::PlayerMove { position, velocity, pitch, yaw } => spec_move(
            conns,
            addr,
            position,
            velocity,
            pitch,
            yaw,
            now,
        ),
        CommandTypeView::Data(_, _) => conns,
    }
}

/// A whole queue applied in arrival order, each command exactly once,
/// consuming one fresh identity per command (used only by admissions).
pub open spec fn spec_apply_all(
    conns: Seq<ServerConnectionEntry>,
    queue: Seq<InputCommandView>,
    fresh_ids: Seq<u128>,
    now: u64,
    max_players: int,
) -> Seq<ServerConnectionEntry>
    recommends
        fresh_ids.len() == queue.len(),
    decreases queue.len(),
{
    if queue.len() == 0 {
        conns
    } else {
        spec_apply_all(
            spec_apply(
                conns,
                queue[0].command.command_type,
                queue[0].src_addr,
                now,
                fresh_ids[0],
                max_players,
            ),
            queue.drop_first(),
            fresh_ids.drop_first(),
            now,
            max_players,
        )
    }
}

pub proof fn lemma_apply_all_snoc(
    conns: Seq<ServerConnectionEntry>,
    queue: Seq<InputCommandView>,
    fresh_ids: Seq<u128>,
    ic: InputCommandView,
    id: u128,
    now: u64,
    max_players: int,
)
    requires
        fresh_ids.len() == queue.len(),
    ensures
        spec_apply_all(conns, queue.push(ic), fresh_ids.push(id), now, max_players)
            == spec_apply(
            spec_apply_all(conns, queue, fresh_ids, now, max_players),
            ic.command.command_type,
            ic.src_addr,
            now,
            id,
            max_players,
        ),
    decreases queue.len(),
{
    if queue.len() == 0 {
        reveal_with_fuel(spec_apply_all, 2);
        assert(queue.push(ic).drop_first() =~= Seq::<InputCommandView>::empty());
        assert(fresh_ids.push(id).drop_first() =~= Seq::<u128>::empty());
    } else {
        assert(queue.push(ic).drop_first() =~= queue.drop_first().push(ic));
        assert(fresh_ids.push(id).drop_first() =~= fresh_ids.drop_first().push(id));
        assert(queue.push(ic)[0] == queue[0]);
        assert(fresh_ids.push(id)[0] == fresh_ids[0]);
        lemma_apply_all_snoc(
            spec_apply(
                conns,
                queue[0].command.command_type,
                queue[0].src_addr,
                now,
                fresh_ids[0],
                max_players,
            ),
            queue.drop_first(),
            fresh_ids.drop_first(),
            ic,
            id,
            now,
            max_players,
        );
    }
}

pub proof fn lemma_apply_keeps_distinct(
    conns: Seq<ServerConnectionEntry>,
    kind: CommandTypeView,
    addr: NetAddr,
    now: u64,
    fresh_id: u128,
    max_players: int,
)
    requires
        distinct_addrs(conns),
    ensures
        distinct_addrs(spec_apply(conns, kind, addr, now, fresh_id, max_players)),
{
    lemma_find_index(conns, addr);
    let i = find_index(conns, addr);
    match kind {
        CommandTypeView::PlayerJoin => {
            if count_players(conns) >= max_players {
            } else if i >= 0 {
                let after = conns.update(i, joined_entry(conns[i], now, fresh_id));
                assert(forall|k: int|
                    0 <= k < after.len() ==> (#[trigger] after[k].addr) == conns[k].addr);
            } else {
                assert(!has_addr(conns, addr));
            }
        },
        CommandTypeView::PlayerLeave => {
            if i >= 0 {
                let after = conns.remove(i);
                assert(forall|k: int|
                    0 <= k < after.len() ==> (#[trigger] after[k]) == (if k < i {
                        conns[k]
                    } else {
                        conns[k + 1]
                    }));
            }
        },
        CommandTypeView::PlayerMove { position, velocity, pitch, yaw } => {
            if i >= 0 {
                let after = conns.update(
                    i,
                    moved_entry(conns[i], position, velocity, pitch, yaw, now),
                );
                assert(forall|k: int|
                    0 <= k < after.len() ==> (#[trigger] after[k].addr) == conns[k].addr);
            } else {
                assert(!has_addr(conns, addr));
            }
        },
        CommandTypeView::Data(_, _) => {},
    }
}

pub proof fn lemma_apply_keeps_bound(
    conns: Seq<ServerConnectionEntry>,
    kind: CommandTypeView,
    addr: NetAddr,
    now: u64,
    fresh_id: u128,
    max_players: int,
)
    requires
        count_players(conns) <= max_players,
    ensures
        count_players(spec_apply(conns, kind, addr, now, fresh_id, max_players)) <= max_players,
        count_players(spec_apply(conns, kind, addr, now, fresh_id, max_players)) >= 0,
{
    lemma_find_index(conns, addr);
    let i = find_index(conns, addr);
    match kind {
        CommandTypeView::PlayerJoin => {
            if count_players(conns) >= max_players {
            } else if i >= 0 {
                lemma_count_update(conns, i, joined_entry(conns[i], now, fresh_id));
            } else {
                lemma_count_push(
                    conns,
                    ServerConnectionEntry {
                        addr,
                        player: Some(PlayerState::spec_with_identity(fresh_id)),
                        last_seen: now,
                    },
                );
            }
        },
        CommandTypeView::PlayerLeave => {
            if i >= 0 {
                lemma_count_remove(conns, i);
            }
        },
        CommandTypeView::PlayerMove { position, velocity, pitch, yaw } => {
            if i >= 0 {
                lemma_count_update(conns, i, moved_entry(conns[i], position, velocity, pitch, yaw, now));
            } else {
                lemma_count_push(conns, ServerConnectionEntry { addr, player: None, last_seen: now });
            }
        },
        CommandTypeView::Data(_, _) => {},
    }
}

/// Admission bound: however many commands arrive — admissions included — a
/// table that respects the player cap still respects it after the whole
/// queue is applied.
pub proof fn lemma_admission_bound(
    conns: Seq<ServerConnectionEntry>,
    queue: Seq<InputCommandView>,
    fresh_ids: Seq<u128>,
    now: u64,
    max_players: int,
)
    requires
        fresh_ids.len() == queue.len(),
        count_players(conns) <= max_players,
    ensures
        count_players(spec_apply_all(conns, queue, fresh_ids, now, max_players)) <= max_players,
    decreases queue.len(),
{
    if queue.len() == 0 {
    } else {
        lemma_apply_keeps_bound(
            conns,
            queue[0].command.command_type,
            queue[0].src_addr,
            now,
            fresh_ids[0],
            max_players,
        );
        lemma_admission_bound(
            spec_apply(
                conns,
                queue[0].command.command_type,
                queue[0].src_addr,
                now,
                fresh_ids[0],
                max_players,
            ),
            queue.drop_first(),
            fresh_ids.drop_first(),
            now,
            max_players,
        );
    }
}

/// Whether silence since `last_seen` has outlasted the liveness timeout at
/// time `now`. A clock that has not reached `last_seen` counts as no silence.
pub open spec fn is_stale(last_seen: u64, now: u64, timeout: u64) -> bool {
    now - last_seen > timeout
}

/// The table with every stale entry removed — the sole backstop against
/// connections leaked by clients that vanished without a leave message.
pub open spec fn spec_cull(conns: Seq<ServerConnectionEntry>, now: u64, timeout: u64) -> Seq<
    ServerConnectionEntry,
>
    decreases conns.len(),
{
    if conns.len() == 0 {
        Seq::<ServerConnectionEntry>::empty()
    } else {
        let rest = spec_cull(conns.drop_first(), now, timeout);
        if is_stale(conns[0].last_seen, now, timeout) {
            rest
        } else {
            seq![conns[0]] + rest
        }
    }
}

pub proof fn lemma_cull_push(
    conns: Seq<ServerConnectionEntry>,
    e: ServerConnectionEntry,
    now: u64,
    timeout: u64,
)
    ensures
        spec_cull(conns.push(e), now, timeout) == (if is_stale(e.last_seen, now, timeout) {
            spec_cull(conns, now, timeout)
        } else {
            spec_cull(conns, now, timeout).push(e)
        }),
    decreases conns.len(),
{
    if conns.len() == 0 {
        reveal_with_fuel(spec_cull, 2);
        assert(conns.push(e).drop_first() =~= Seq::<ServerConnectionEntry>::empty());
        if !is_stale(e.last_seen, now, timeout) {
            assert(spec_cull(conns.push(e), now, timeout) =~= spec_cull(
                conns,
                now,
                timeout,
            ).push(e));
        }
    } else {
        assert(conns.push(e).drop_first() =~= conns.drop_first().push(e));
        assert(conns.push(e)[0] == conns[0]);
        lemma_cull_push(conns.drop_first(), e, now, timeout);
        if !is_stale(e.last_seen, now, timeout) {
            assert(spec_cull(conns.push(e), now, timeout) =~= spec_cull(
                conns,
                now,
                timeout,
            ).push(e));
        }
    }
}

pub proof fn lemma_cull_basic(conns: Seq<ServerConnectionEntry>, now: u64, timeout: u64)
    ensures
        spec_cull(conns, now, timeout).len() <= conns.len(),
        forall|k: int|
            0 <= k < spec_cull(conns, now, timeout).len() ==> !is_stale(
                (#[trigger] spec_cull(conns, now, timeout)[k]).last_seen,
                now,
                timeout,
            ),
        forall|k: int|
            0 <= k < spec_cull(conns, now, timeout).len() ==> conns.contains(
                #[trigger] spec_cull(conns, now, timeout)[k],
            ),
        count_players(spec_cull(conns, now, timeout)) <= count_players(conns),
    decreases conns.len(),
{
    if conns.len() == 0 {
    } else {
        let rest = conns.drop_first();
        let culled_rest = spec_cull(rest, now, timeout);
        lemma_cull_basic(rest, now, timeout);
        assert forall|k: int| 0 <= k < culled_rest.len() implies conns.contains(
            #[trigger] culled_rest[k],
        ) by {
            let j = choose|j: int| 0 <= j < rest.len() && rest[j] == culled_rest[k];
            assert(conns[j + 1] == culled_rest[k]);
        };
        if is_stale(conns[0].last_seen, now, timeout) {
        } else {
            let culled = spec_cull(conns, now, timeout);
            assert(culled[0] == conns[0]);
            assert(culled.drop_first() =~= culled_rest);
            assert(forall|k: int|
                1 <= k < culled.len() ==> (#[trigger] culled[k]) == culled_rest[k - 1]);
            assert(count_players(culled) == player_bit(conns[0]) + count_players(culled_rest));
        }
    }
}

pub proof fn lemma_cull_keeps_distinct(conns: Seq<ServerConnectionEntry>, now: u64, timeout: u64)
    requires
        distinct_addrs(conns),
    ensures
        distinct_addrs(spec_cull(conns, now, timeout)),
    decreases conns.len(),
{
    if conns.len() == 0 {
    } else {
        let rest = conns.drop_first();
        let culled_rest = spec_cull(rest, now, timeout);
        lemma_cull_keeps_distinct(rest, now, timeout);
        lemma_cull_basic(rest, now, timeout);
        if is_stale(conns[0].last_seen, now, timeout) {
        } else {
            let culled = spec_cull(conns, now, timeout);
            assert forall|i: int, j: int| 0 <= i < j < culled.len() implies (
            #[trigger] culled[i].addr) != (#[trigger] culled[j].addr) by {
                if i == 0 {
                    let x = culled[j];
                    assert(x == culled_rest[j - 1]);
                    let m = choose|m: int| 0 <= m < rest.len() && rest[m] == x;
                    assert(conns[m + 1] == x);
                    assert(conns[0].addr != conns[m + 1].addr);
                } else {
                    assert(culled[i] == culled_rest[i - 1]);
                    assert(culled[j] == culled_rest[j - 1]);
                }
            };
        }
    }
}

/// Liveness cull: an entry whose silence has outlasted the timeout is absent
/// from the table after the cull step, whatever its prior state.
pub proof fn lemma_liveness_cull(
    conns: Seq<ServerConnectionEntry>,
    now: u64,
    timeout: u64,
    i: int,
)
    requires
        0 <= i < conns.len(),
        distinct_addrs(conns),
        is_stale(conns[i].last_seen, now, timeout),
    ensures
        !has_addr(spec_cull(conns, now, timeout), conns[i].addr),
{
    let culled = spec_cull(conns, now, timeout);
    lemma_cull_basic(conns, now, timeout);
    if has_addr(culled, conns[i].addr) {
        let k = choose|k: int| 0 <= k < culled.len() && culled[k].addr == conns[i].addr;
        let j = choose|j: int| 0 <= j < conns.len() && conns[j] == culled[k];
        assert(!is_stale(conns[j].last_seen, now, timeout));
        assert(j != i);
        assert(conns[j].addr == conns[i].addr);
        assert(false);
    }
}

/// Relies on `uuid::Uuid::new_v4` for a freshly drawn 128-bit random
/// identity. Nothing is promised of the value: every caller must be correct
/// whatever comes back.
#[verifier::external_body]
fn random_identity() -> u128 {
    uuid::Uuid::new_v4().as_u128()
}

fn find_connection(conns: &Vec<ServerConnectionEntry>, addr: NetAddr) -> (r: Option<usize>)
    ensures
        match r {
            Some(j) => find_index(conns@, addr) == j,
            None => find_index(conns@, addr) == -1,
        },
{
    let n = conns.len();
    let mut k: usize = 0;
    while k < n
        invariant
            k <= n,
            n == conns@.len(),
            forall|j: int| 0 <= j < k ==> (#[trigger] conns@[j].addr) != addr,
        decreases n - k,
    {
        if conns[k].addr == addr {
            proof {
                lemma_find_index(conns@, addr);
            }
            return Some(k);
        }
        k = k + 1;
    }
    proof {
        lemma_find_index(conns@, addr);
    }
    None
}

fn count_player_entries(conns: &Vec<ServerConnectionEntry>) -> (n: usize)
    ensures
        n as int == count_players(conns@),
{
    let len = conns.len();
    let mut n: usize = 0;
    let mut k: usize = 0;
    while k < len
        invariant
            k <= len,
            n <= k,
            len == conns@.len(),
            n as int == count_players(conns@.take(k as int)),
        decreases len - k,
    {
        proof {
            lemma_roster_push(conns@.take(k as int), conns@[k as int]);
            assert(conns@.take(k + 1) =~= conns@.take(k as int).push(conns@[k as int]));
        }
        if conns[k].player.is_some() {
            n = n + 1;
        }
        k = k + 1;
    }
    proof {
        assert(conns@.take(len as int) =~= conns@);
    }
    n
}

fn join_connection(
    conns: &mut Vec<ServerConnectionEntry>,
    addr: NetAddr,
    now: u64,
    fresh_id: u128,
    max_players: usize,
)
    ensures
        final(conns)@ == spec_join(old(conns)@, addr, now, fresh_id, max_players as int),
{
    let cnt = count_player_entries(conns);
    if cnt >= max_players {
        return ;
    }
    match find_connection(conns, addr) {
        Some(j) => {
            proof {
                lemma_find_index(conns@, addr);
            }
            let current = conns[j];
            let updated = ServerConnectionEntry {
                addr: current.addr,
                player: match current.player {
                    Some(p) => Some(p),
                    None => Some(PlayerState::with_identity(fresh_id)),
                },
                last_seen: now,
            };
            let slot = vstd::std_specs::vec::vec_index_mut(conns, j);
            *slot = updated;
        },
        None => {
            conns.push(
                ServerConnectionEntry {
                    addr,
                    player: Some(PlayerState::with_identity(fresh_id)),
                    last_seen: now,
                },
            );
        },
    }
}

fn leave_connection(conns: &mut Vec<ServerConnectionEntry>, addr: NetAddr)
    ensures
        final(conns)@ == spec_leave(old(conns)@, addr),
{
    match find_connection(conns, addr) {
        Some(j) => {
            proof {
                lemma_find_index(conns@, addr);
            }
            conns.remove(j);
        },
        None => {},
    }
}

fn move_connection(
    conns: &mut Vec<ServerConnectionEntry>,
    addr: NetAddr,
    position: Vec3Bits,
    velocity: Vec3Bits,
    pitch: u32,
    yaw: u32,
    now: u64,
)
    ensures
        final(conns)@ == spec_move(old(conns)@, addr, position, velocity, pitch, yaw, now),
{
    match find_connection(conns, addr) {
        Some(j) => {
            proof {
                lemma_find_index(conns@, addr);
            }
            let current = conns[j];
            let updated = ServerConnectionEntry {
                addr: current.addr,
                player: match current.player {
                    Some(p) => {
                        let mut moved = p;
                        moved.update(position, velocity, pitch, yaw);
                        Some(moved)
                    },
                    None => None,
                },
                last_seen: now,
            };
            let slot = vstd::std_specs::vec::vec_index_mut(conns, j);
            *slot = updated;
        },
        None => {
            conns.push(ServerConnectionEntry { addr, player: None, last_seen: now });
        },
    }
}

fn clone_states(states: &Vec<PlayerState>) -> (r: Vec<PlayerState>)
    ensures
        r@ == states@,
{
    let mut r: Vec<PlayerState> = Vec::new();
    let n = states.len();
    let mut k: usize = 0;
    while k < n
        invariant
            k <= n,
            n == states@.len(),
            r@ == states@.take(k as int),
        decreases n - k,
    {
        r.push(states[k]);
        proof {
            assert(states@.take(k + 1) =~= states@.take(k as int).push(states@[k as int]));
        }
        k = k + 1;
    }
    proof {
        assert(states@.take(n as int) =~= states@);
    }
    r
}

/// The authoritative endpoint state: the connection table, the commands
/// queued for the next tick boundary, and the tick bookkeeping. The socket
/// and the clocks live with the runner, which hands in datagrams and times.
pub struct Server {
    pub connections: Vec<ServerConnectionEntry>,
    pub input_commands: Vec<InputCommand>,
    pub last_tick: u64,
    pub tick_rate: u64,
    pub liveness_timeout: u64,
    pub max_players: usize,
    pub ticks_elapsed: u64,
}

impl Server {
    /// The table invariant: one entry per address, and never more admitted
    /// players than the configured cap.
    pub open spec fn wf(self) -> bool {
        &&& distinct_addrs(self.connections@)
        &&& count_players(self.connections@) <= self.max_players as int
    }

    /// A fresh server with an empty table. The tick clock starts at zero of
    /// whatever monotonic millisecond clock the caller will keep feeding in.
    pub fn new(tick_rate_in_millis: u64, liveness_timeout_in_millis: u64, max_players: usize) -> (s:
        Server)
        ensures
            s.wf(),
            s.connections@.len() == 0,
            s.input_commands@.len() == 0,
            s.last_tick == 0,
            s.tick_rate == tick_rate_in_millis,
            s.liveness_timeout == liveness_timeout_in_millis,
            s.max_players == max_players,
            s.ticks_elapsed == 0,
    {
        Server {
            connections: Vec::new(),
            input_commands: Vec::new(),
            last_tick: 0,
            tick_rate: tick_rate_in_millis,
            liveness_timeout: liveness_timeout_in_millis,
            max_players,
            ticks_elapsed: 0,
        }
    }

    /// Whether a full tick period has elapsed since the last tick.
    pub fn tick_due(&self, now: u64) -> (due: bool)
        ensures
            due == (now - self.last_tick >= self.tick_rate),
    {
        if now >= self.last_tick {
            now - self.last_tick >= self.tick_rate
        } else {
            false
        }
    }

    /// One received datagram: decoded and queued for the tick boundary, or
    /// discarded whole — a malformed datagram changes nothing and never
    /// interrupts the loop.
    pub fn handle_datagram(&mut self, data: &[u8], src_addr: NetAddr) -> (accepted: bool)
        ensures
            final(self).connections == old(self).connections,
            final(self).last_tick == old(self).last_tick,
            final(self).tick_rate == old(self).tick_rate,
            final(self).liveness_timeout == old(self).liveness_timeout,
            final(self).max_players == old(self).max_players,
            final(self).ticks_elapsed == old(self).ticks_elapsed,
            match spec_deserialize(data@) {
                Some(c) => accepted && spec_queue(final(self).input_commands@) == spec_queue(
                    old(self).input_commands@,
                ).push(InputCommandView { command: c, src_addr }),
                None => !accepted && final(self).input_commands == old(self).input_commands,
            },
    {
        match Command::deserialize(data) {
            Ok(command) => {
                self.input_commands.push(InputCommand { command, src_addr });
                proof {
                    assert(spec_queue(self.input_commands@) =~= spec_queue(
                        old(self).input_commands@,
                    ).push(self.input_commands@.last()@));
                }
                true
            },
            Err(_) => false,
        }
    }

    /// Tick atomicity: the whole queue is applied against the table in
    /// arrival order, each command exactly once, with nothing interleaved;
    /// the queue is empty afterwards. One fresh identity is consumed per
    /// command, used only where an admission creates a player.
    pub fn process_game_tick(&mut self, now: u64, fresh_ids: &Vec<u128>)
        requires
            old(self).wf(),
            fresh_ids@.len() == old(self).input_commands@.len(),
        ensures
            final(self).wf(),
            final(self).connections@ == spec_apply_all(
                old(self).connections@,
                spec_queue(old(self).input_commands@),
                fresh_ids@,
                now,
                old(self).max_players as int,
            ),
            final(self).input_commands@.len() == 0,
            final(self).last_tick == old(self).last_tick,
            final(self).tick_rate == old(self).tick_rate,
            final(self).liveness_timeout == old(self).liveness_timeout,
            final(self).max_players == old(self).max_players,
            final(self).ticks_elapsed == old(self).ticks_elapsed,
    {
        let ghost conns0 = old(self).connections@;
        let ghost q0 = spec_queue(old(self).input_commands@);
        let n = self.input_commands.len();
        let mut idx: usize = 0;
        while idx < n
            invariant
                idx <= n,
                n == self.input_commands@.len(),
                fresh_ids@.len() == n,
                q0 == spec_queue(self.input_commands@),
                q0.len() == n,
                self.input_commands == old(self).input_commands,
                self.last_tick == old(self).last_tick,
                self.tick_rate == old(self).tick_rate,
                self.liveness_timeout == old(self).liveness_timeout,
                self.max_players == old(self).max_players,
                self.ticks_elapsed == old(self).ticks_elapsed,
                distinct_addrs(self.connections@),
                count_players(self.connections@) <= self.max_players as int,
                self.connections@ == spec_apply_all(
                    conns0,
                    q0.take(idx as int),
                    fresh_ids@.take(idx as int),
                    now,
                    self.max_players as int,
                ),
            decreases n - idx,
        {
            let src_addr = self.input_commands[idx].src_addr;
            let fresh_id = fresh_ids[idx];
            let ghost pre = self.connections@;
            let ghost kind = q0[idx as int].command.command_type;
            let max_players = self.max_players;
            match &self.input_commands[idx].command.command_type {
                CommandType::PlayerJoin => {
                    join_connection(&mut self.connections, src_addr, now, fresh_id, max_players);
                },
                CommandType::PlayerLeave => {
                    leave_connection(&mut self.connections, src_addr);
                },
                CommandType::PlayerMove { position, velocity, pitch, yaw } => {
                    move_connection(
                        &mut self.connections,
                        src_addr,
                        *position,
                        *velocity,
                        *pitch,
                        *yaw,
                        now,
                    );
                },
                CommandType::Data(_, _) => {},
            }
            proof {
                assert(q0[idx as int] == self.input_commands@[idx as int]@);
                assert(self.connections@ == spec_apply(
                    pre,
                    kind,
                    src_addr,
                    now,
                    fresh_id,
                    max_players as int,
                ));
                lemma_apply_all_snoc(
                    conns0,
                    q0.take(idx as int),
                    fresh_ids@.take(idx as int),
                    q0[idx as int],
                    fresh_id,
                    now,
                    max_players as int,
                );
                assert(q0.take(idx + 1) =~= q0.take(idx as int).push(q0[idx as int]));
                assert(fresh_ids@.take(idx + 1) =~= fresh_ids@.take(idx as int).push(
                    fresh_ids@[idx as int],
                ));
                lemma_apply_keeps_distinct(pre, kind, src_addr, now, fresh_id, max_players as int);
                lemma_apply_keeps_bound(pre, kind, src_addr, now, fresh_id, max_players as int);
            }
            idx = idx + 1;
        }
        proof {
            assert(q0.take(n as int) =~= q0);
            assert(fresh_ids@.take(n as int) =~= fresh_ids@);
        }
        self.input_commands.clear();
    }

    /// Liveness cull: afterwards the table holds exactly the entries that
    /// were not stale at `now`, in order — an entry silent for longer than
    /// the timeout is gone, whatever its prior state.
    pub fn cull_dead_connections(&mut self, now: u64)
        requires
            old(self).wf(),
        ensures
            final(self).wf(),
            final(self).connections@ == spec_cull(
                old(self).connections@,
                now,
                old(self).liveness_timeout,
            ),
            forall|k: int|
                0 <= k < final(self).connections@.len() ==> !is_stale(
                    (#[trigger] final(self).connections@[k]).last_seen,
                    now,
                    old(self).liveness_timeout,
                ),
            final(self).input_commands == old(self).input_commands,
            final(self).last_tick == old(self).last_tick,
            final(self).tick_rate == old(self).tick_rate,
            final(self).liveness_timeout == old(self).liveness_timeout,
            final(self).max_players == old(self).max_players,
            final(self).ticks_elapsed == old(self).ticks_elapsed,
    {
        let timeout = self.liveness_timeout;
        let mut kept: Vec<ServerConnectionEntry> = Vec::new();
        let n = self.connections.len();
        let mut k: usize = 0;
        while k < n
            invariant
                k <= n,
                n == self.connections@.len(),
                timeout == self.liveness_timeout,
                kept@ == spec_cull(self.connections@.take(k as int), now, timeout),
            decreases n - k,
        {
            let e = self.connections[k];
            let stale = now > e.last_seen && now - e.last_seen > timeout;
            proof {
                lemma_cull_push(
                    self.connections@.take(k as int),
                    self.connections@[k as int],
                    now,
                    timeout,
                );
                assert(self.connections@.take(k + 1) =~= self.connections@.take(k as int).push(
                    self.connections@[k as int],
                ));
            }
            if !stale {
                kept.push(e);
            }
            k = k + 1;
        }
        proof {
            assert(self.connections@.take(n as int) =~= self.connections@);
        }
        self.connections = kept;
        proof {
            lemma_cull_basic(old(self).connections@, now, timeout);
            lemma_cull_keeps_distinct(old(self).connections@, now, timeout);
        }
    }

    /// Build this tick's broadcast: one shared snapshot body — every admitted
    /// player's state, in table order — wrapped per recipient with that
    /// recipient's identity, so each client can exclude itself. The runner
    /// sends each datagram to its address; one failed send harms no other.
    pub fn emit_game_state(&self, now_epoch: u128) -> (out: Vec<(NetAddr, Vec<u8>)>)
        ensures
            out@.len() == spec_roster(self.connections@).len(),
            forall|k: int|
                0 <= k < out@.len() ==> (#[trigger] out@[k]).0 == spec_roster(
                    self.connections@,
                )[k].0 && out@[k].1@ == spec_serialize(
                    CommandView {
                        command_type: CommandTypeView::Data(
                            spec_roster(self.connections@)[k].1.player_id,
                            spec_states(self.connections@),
                        ),
                        time: now_epoch,
                    },
                ),
    {
        let ghost roster = spec_roster(self.connections@);
        let mut addrs: Vec<NetAddr> = Vec::new();
        let mut states: Vec<PlayerState> = Vec::new();
        let n = self.connections.len();
        let mut k: usize = 0;
        while k < n
            invariant
                k <= n,
                n == self.connections@.len(),
                addrs@.len() == states@.len(),
                addrs@.len() == spec_roster(self.connections@.take(k as int)).len(),
                forall|j: int|
                    0 <= j < addrs@.len() ==> (#[trigger] addrs@[j]) == spec_roster(
                        self.connections@.take(k as int),
                    )[j].0 && states@[j] == spec_roster(self.connections@.take(k as int))[j].1,
            decreases n - k,
        {
            proof {
                lemma_roster_push(self.connections@.take(k as int), self.connections@[k as int]);
                assert(self.connections@.take(k + 1) =~= self.connections@.take(k as int).push(
                    self.connections@[k as int],
                ));
            }
            let e = self.connections[k];
            if let Some(p) = e.player {
                addrs.push(e.addr);
                states.push(p);
            }
            k = k + 1;
        }
        proof {
            assert(self.connections@.take(n as int) =~= self.connections@);
            assert forall|j: int| 0 <= j < states@.len() implies states@[j] == spec_states(
                self.connections@,
            )[j] by {
                assert(addrs@[j] == spec_roster(self.connections@)[j].0);
            };
            assert(states@ =~= spec_states(self.connections@));
        }
        let m = addrs.len();
        let mut out: Vec<(NetAddr, Vec<u8>)> = Vec::new();
        let mut i: usize = 0;
        while i < m
            invariant
                i <= m,
                m == addrs@.len(),
                m == states@.len(),
                m == roster.len(),
                roster == spec_roster(self.connections@),
                forall|j: int|
                    0 <= j < m ==> (#[trigger] addrs@[j]) == roster[j].0 && states@[j]
                        == roster[j].1,
                states@ == spec_states(self.connections@),
                out@.len() == i,
                forall|j: int|
                    0 <= j < i ==> (#[trigger] out@[j]).0 == roster[j].0 && out@[j].1@
                        == spec_serialize(
                        CommandView {
                            command_type: CommandTypeView::Data(
                                roster[j].1.player_id,
                                spec_states(self.connections@),
                            ),
                            time: now_epoch,
                        },
                    ),
            decreases m - i,
        {
            let body = clone_states(&states);
            let recipient = states[i].player_id;
            let cmd = Command { command_type: CommandType::Data(recipient, body), time: now_epoch };
            let bytes = cmd.serialize();
            out.push((addrs[i], bytes));
            i = i + 1;
        }
        out
    }

    /// One whole tick boundary, in order: apply the queued commands (drawing
    /// a fresh random identity per command), reset the tick clock, cull
    /// stale connections, and build the per-recipient broadcast from the
    /// surviving table.
    pub fn run_tick(&mut self, now: u64, now_epoch: u128) -> (out: Vec<(NetAddr, Vec<u8>)>)
        requires
            old(self).wf(),
        ensures
            final(self).wf(),
            final(self).input_commands@.len() == 0,
            final(self).last_tick == now,
            final(self).tick_rate == old(self).tick_rate,
            final(self).liveness_timeout == old(self).liveness_timeout,
            final(self).max_players == old(self).max_players,
            final(self).ticks_elapsed == (if old(self).ticks_elapsed == u64::MAX {
                0u64
            } else {
                (old(self).ticks_elapsed + 1) as u64
            }),
            exists|fresh_ids: Seq<u128>|
                fresh_ids.len() == old(self).input_commands@.len() && final(self).connections@
                    == spec_cull(
                    #[trigger] spec_apply_all(
                        old(self).connections@,
                        spec_queue(old(self).input_commands@),
                        fresh_ids,
                        now,
                        old(self).max_players as int,
                    ),
                    now,
                    old(self).liveness_timeout,
                ),
            out@.len() == spec_roster(final(self).connections@).len(),
            forall|k: int|
                0 <= k < out@.len() ==> (#[trigger] out@[k]).0 == spec_roster(
                    final(self).connections@,
                )[k].0 && out@[k].1@ == spec_serialize(
                    CommandView {
                        command_type: CommandTypeView::Data(
                            spec_roster(final(self).connections@)[k].1.player_id,
                            spec_states(final(self).connections@),
                        ),
                        time: now_epoch,
                    },
                ),
    {
        let n = self.input_commands.len();
        let mut fresh_ids: Vec<u128> = Vec::new();
        let mut k: usize = 0;
        while k < n
            invariant
                k <= n,
                fresh_ids@.len() == k,
            decreases n - k,
        {
            fresh_ids.push(random_identity());
            k = k + 1;
        }
        self.process_game_tick(now, &fresh_ids);
        self.last_tick = now;
        self.ticks_elapsed = if self.ticks_elapsed == u64::MAX {
            0
        } else {
            self.ticks_elapsed + 1
        };
        self.cull_dead_connections(now);
        let out = self.emit_game_state(now_epoch);
        proof {
            let w = fresh_ids@;
            assert(w.len() == old(self).input_commands@.len());
            assert(self.connections@ == spec_cull(
                spec_apply_all(
                    old(self).connections@,
                    spec_queue(old(self).input_commands@),
                    w,
                    now,
                    old(self).max_players as int,
                ),
                now,
                old(self).liveness_timeout,
            ));
        }
        out
    }
}

} // verus!
