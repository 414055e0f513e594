//! The reconciliation engine: folds incoming server snapshot messages
//! into the dual-copy game state.
//!
//! A snapshot may arrive diff-encoded against an earlier snapshot the
//! client was asked to store; if the base is missing the message is
//! dropped, never fatal. Stale and duplicate snapshot ids are discarded:
//! the authoritative state is never rolled back past an already applied
//! id. After applying a snapshot, buffered local input is replayed over
//! the gap between the authoritative and the predicted tick, clamped to a
//! few seconds' worth of ticks to bound the cost after a stall.

use vstd::prelude::*;
use crate::codec::{copy_bytes, patch, patch_spec};
use crate::iface::TICKS_PER_SECOND;
use crate::messages::{MsgSvInputAck, MsgSvLoadVotes, ServerToClientMessage, SnapshotMsg};
use crate::state::{apply_inputs_model, parse_model, step_model, Character, GameModel, GameState};
use crate::tickmap::{
    lemma_index_is_lower_bound, lemma_lower_bound_splits, lemma_seq_get_of_index,
    lemma_seq_get_some_index,
    lemma_upper_bound_splits, lower_bound, seq_get, sorted_pairs, upper_bound, TickMap,
};
use crate::timer::{add_ping_spec, add_snap_spec, PredictionTimer};
use crate::NANOS_PER_SEC;

verus! {

/// Saturating subtraction of nanosecond durations.
pub open spec fn sat_sub(a: u64, b: u64) -> u64 {
    if a >= b {
        ((a - b) as u64)
    } else {
        0
    }
}

/// Saturating addition of ids and ticks.
pub open spec fn sat_add(a: u64, b: u64) -> u64 {
    if a + b > u64::MAX {
        u64::MAX
    } else {
        ((a + b) as u64)
    }
}

/// A snapshot stored as a base for decoding later diff-encoded ones.
#[derive(Clone, Debug)]
pub struct SnapshotStorageItem {
    /// The raw decoded snapshot bytes.
    pub snapshot: Vec<u8>,
    /// The monotonic tick the snapshot belongs to.
    pub monotonic_tick: u64,
}

/// The newest input the server confirmed for one player; the baseline
/// future outgoing inputs are diffed against.
#[derive(Clone, Copy, Debug, PartialEq, Eq, Structural)]
pub struct ServerInputForDiff {
    /// Id of the confirmed input packet.
    pub id: u64,
    /// The confirmed movement input.
    pub inp: u64,
}

/// Client-side bookkeeping for one locally controlled player.
pub struct ClientPlayer {
    /// The player's current movement input.
    pub input_dir: u64,
    /// The newest server-confirmed input baseline.
    pub server_input: Option<ServerInputForDiff>,
    /// Sent inputs the server has not acknowledged yet, by packet id.
    pub server_input_storage: TickMap<u64>,
}

impl ClientPlayer {
    pub open spec fn wf(&self) -> bool {
        self.server_input_storage.wf()
    }

    /// A fresh player with no pending inputs.
    pub fn new() -> (r: Self)
        ensures
            r.wf(),
            r.input_dir == 0,
            r.server_input.is_none(),
            r.server_input_storage@ == Seq::<(u64, u64)>::empty(),
    {
        ClientPlayer { input_dir: 0, server_input: None, server_input_storage: TickMap::new() }
    }
}

/// What acknowledging input `id` leaves of a pending-input store: every
/// entry at or below the acknowledged id is gone.
pub open spec fn ack_storage(s: Seq<(u64, u64)>, id: u64) -> Seq<(u64, u64)> {
    s.skip(upper_bound(s, id))
}

/// What acknowledging input `id` makes the server-input baseline: the
/// stored input under that id if there is one, else the previous
/// baseline.
pub open spec fn ack_server_input(
    s: Seq<(u64, u64)>,
    prev: Option<ServerInputForDiff>,
    id: u64,
) -> Option<ServerInputForDiff> {
    match seq_get(s, id) {
        Some(inp) => Some(ServerInputForDiff { id, inp }),
        None => prev,
    }
}

/// Folding a whole run of acks through one player's bookkeeping.
pub open spec fn fold_acks_player(
    s: Seq<(u64, u64)>,
    prev: Option<ServerInputForDiff>,
    acks: Seq<MsgSvInputAck>,
) -> (Seq<(u64, u64)>, Option<ServerInputForDiff>)
    decreases acks.len(),
{
    if acks.len() == 0 {
        (s, prev)
    } else {
        fold_acks_player(
            ack_storage(s, acks[0].id),
            ack_server_input(s, prev, acks[0].id),
            acks.drop_first(),
        )
    }
}

/// Removal of one key from a sorted pair sequence.
pub open spec fn remove_key(s: Seq<(u64, u64)>, k: u64) -> Seq<(u64, u64)> {
    if seq_get(s, k).is_some() {
        s.take(lower_bound(s, k)) + s.skip(lower_bound(s, k) + 1)
    } else {
        s
    }
}

/// Folding a whole run of acks through the prediction timer and the
/// sent-input record: each matched ack contributes its round trip (less
/// the server's handling overhead) as a ping sample and leaves the
/// sent-input set.
pub open spec fn fold_acks_timing(
    t: PredictionTimer,
    sent: Seq<(u64, u64)>,
    acks: Seq<MsgSvInputAck>,
    ts: u64,
) -> (PredictionTimer, Seq<(u64, u64)>)
    decreases acks.len(),
{
    if acks.len() == 0 {
        (t, sent)
    } else {
        let a = acks[0];
        let t2 = match seq_get(sent, a.id) {
            Some(sent_at) => add_ping_spec(t, sat_sub(sat_sub(ts, sent_at), a.logic_overhead_ns), ts),
            None => t,
        };
        fold_acks_timing(t2, remove_key(sent, a.id), acks.drop_first(), ts)
    }
}

/// Appending one ack to a player fold applies it last.
proof fn lemma_fold_player_snoc(
    s: Seq<(u64, u64)>,
    prev: Option<ServerInputForDiff>,
    acks: Seq<MsgSvInputAck>,
    a: MsgSvInputAck,
)
    ensures
        fold_acks_player(s, prev, acks.push(a)).0 == ack_storage(
            fold_acks_player(s, prev, acks).0,
            a.id,
        ),
        fold_acks_player(s, prev, acks.push(a)).1 == ack_server_input(
            fold_acks_player(s, prev, acks).0,
            fold_acks_player(s, prev, acks).1,
            a.id,
        ),
    decreases acks.len(),
{
    if acks.len() == 0 {
        assert(acks.push(a)[0] == a);
        assert(acks.push(a).drop_first() =~= Seq::<MsgSvInputAck>::empty());
        assert(fold_acks_player(
            ack_storage(s, a.id),
            ack_server_input(s, prev, a.id),
            Seq::<MsgSvInputAck>::empty(),
        ) == (ack_storage(s, a.id), ack_server_input(s, prev, a.id)));
    } else {
        assert(acks.push(a)[0] == acks[0]);
        assert(acks.push(a).drop_first() =~= acks.drop_first().push(a));
        lemma_fold_player_snoc(
            ack_storage(s, acks[0].id),
            ack_server_input(s, prev, acks[0].id),
            acks.drop_first(),
            a,
        );
    }
}

/// Appending one ack to a timing fold applies it last.
proof fn lemma_fold_timing_snoc(
    t: PredictionTimer,
    sent: Seq<(u64, u64)>,
    acks: Seq<MsgSvInputAck>,
    a: MsgSvInputAck,
    ts: u64,
)
    ensures
        fold_acks_timing(t, sent, acks.push(a), ts).0 == (match seq_get(
            fold_acks_timing(t, sent, acks, ts).1,
            a.id,
        ) {
            Some(sent_at) => add_ping_spec(
                fold_acks_timing(t, sent, acks, ts).0,
                sat_sub(sat_sub(ts, sent_at), a.logic_overhead_ns),
                ts,
            ),
            None => fold_acks_timing(t, sent, acks, ts).0,
        }),
        fold_acks_timing(t, sent, acks.push(a), ts).1 == remove_key(
            fold_acks_timing(t, sent, acks, ts).1,
            a.id,
        ),
    decreases acks.len(),
{
    if acks.len() == 0 {
        assert(acks.push(a)[0] == a);
        assert(acks.push(a).drop_first() =~= Seq::<MsgSvInputAck>::empty());
        let t2 = match seq_get(sent, a.id) {
            Some(sent_at) => add_ping_spec(t, sat_sub(sat_sub(ts, sent_at), a.logic_overhead_ns), ts),
            None => t,
        };
        assert(fold_acks_timing(t2, remove_key(sent, a.id), Seq::<MsgSvInputAck>::empty(), ts)
            == (t2, remove_key(sent, a.id)));
    } else {
        assert(acks.push(a)[0] == acks[0]);
        assert(acks.push(a).drop_first() =~= acks.drop_first().push(a));
        let t2 = match seq_get(sent, acks[0].id) {
            Some(sent_at) => add_ping_spec(
                t,
                sat_sub(sat_sub(ts, sent_at), acks[0].logic_overhead_ns),
                ts,
            ),
            None => t,
        };
        lemma_fold_timing_snoc(t2, remove_key(sent, acks[0].id), acks.drop_first(), a, ts);
    }
}

/// What one player's bookkeeping looks like after the run of
/// acknowledgements folded through it, pointwise over the player map.
pub open spec fn players_acked(
    before: Seq<(u64, ClientPlayer)>,
    after: Seq<(u64, ClientPlayer)>,
    acks: Seq<MsgSvInputAck>,
) -> bool {
    &&& after.len() == before.len()
    &&& forall|j: int|
        0 <= j < before.len() ==> {
            let oldp = (#[trigger] before[j]).1;
            let newp = after[j].1;
            let f = fold_acks_player(oldp.server_input_storage@, oldp.server_input, acks);
            &&& after[j].0 == before[j].0
            &&& newp.server_input_storage@ == f.0
            &&& newp.server_input == f.1
            &&& newp.input_dir == oldp.input_dir
        }
}

/// The locally controlled players after a snapshot applied: they follow
/// the snapshot's entity ids; a player already known keeps its
/// acks-folded bookkeeping, a new id starts fresh.
pub open spec fn players_after_apply(
    before: Seq<(u64, ClientPlayer)>,
    acks: Seq<MsgSvInputAck>,
    ids: Seq<u64>,
    after: Seq<(u64, ClientPlayer)>,
) -> bool {
    &&& after.len() == ids.len()
    &&& forall|j: int| 0 <= j < ids.len() ==> (#[trigger] after[j]).0 == ids[j]
    &&& forall|j: int|
        0 <= j < ids.len() ==> (match seq_get(before, #[trigger] ids[j]) {
            Some(op) => {
                let np = after[j].1;
                let f = fold_acks_player(op.server_input_storage@, op.server_input, acks);
                &&& np.server_input_storage@ == f.0
                &&& np.server_input == f.1
                &&& np.input_dir == op.input_dir
            },
            None => {
                let np = after[j].1;
                np.input_dir == 0 && np.server_input.is_none()
                    && np.server_input_storage@.len() == 0
            },
        })
}

/// Looking one player up after the ack fold: a present player carries
/// its folded bookkeeping, an absent one stays absent.
proof fn lemma_players_acked_get(
    before: Seq<(u64, ClientPlayer)>,
    after: Seq<(u64, ClientPlayer)>,
    acks: Seq<MsgSvInputAck>,
    id: u64,
)
    requires
        sorted_pairs(before),
        players_acked(before, after, acks),
    ensures
        match seq_get(before, id) {
            Some(op) => seq_get(after, id).is_some() && ({
                let np = seq_get(after, id).unwrap();
                let f = fold_acks_player(op.server_input_storage@, op.server_input, acks);
                np.server_input_storage@ == f.0 && np.server_input == f.1 && np.input_dir
                    == op.input_dir
            }),
            None => seq_get(after, id).is_none(),
        },
{
    assert(sorted_pairs(after)) by {
        assert forall|a: int, b: int| 0 <= a < b < after.len() implies #[trigger] after[a].0
            < #[trigger] after[b].0 by {
            assert(after[a].0 == before[a].0 && after[b].0 == before[b].0);
        }
    }
    if seq_get(before, id).is_some() {
        lemma_seq_get_some_index(before, id);
        let i = choose|i: int|
            0 <= i < before.len() && #[trigger] before[i] == (id, seq_get(before, id).unwrap());
        assert(after[i].0 == id);
        lemma_seq_get_of_index(after, i);
    } else {
        crate::tickmap::lemma_seq_get_none_no_index(before, id);
        assert forall|i: int| 0 <= i < after.len() implies (#[trigger] after[i]).0 != id by {
            assert(after[i].0 == before[i].0);
        }
        crate::tickmap::lemma_seq_get_none_of_all_differ(after, id);
    }
}

/// The complete effect one snapshot message has on the game state and
/// the reconciliation data, by outcome. This is the postcondition of
/// [`NetworkLogic::on_snapshot`], and [`NetworkLogic::on_msg`] restates
/// it for every snapshot message it dispatches.
pub open spec fn snapshot_outcome(
    g0: GameState,
    d0: GameData,
    msg: SnapshotMsg,
    ts: u64,
    g1: GameState,
    d1: GameData,
    r: SnapshotResult,
) -> bool {
    &&& d1.sent_input_ids@ == fold_acks_timing(
        d0.prediction_timer,
        d0.sent_input_ids@,
        msg.input_ack@,
        ts,
    ).1
    &&& d1.chat_msgs == d0.chat_msgs
    &&& d1.map_votes == d0.map_votes
    &&& d1.input_id == d0.input_id
    &&& match r {
                SnapshotResult::DroppedMissingBase => {
                    &&& players_acked(d0.local_players@, d1.local_players@, msg.input_ack@)
                    &&& msg.diff_id.is_some()
                    &&& seq_get(d0.snap_storage@, msg.diff_id.unwrap()).is_none()
                    &&& g1 == g0
                    &&& d1.snap_storage == d0.snap_storage
                    &&& d1.handled_snap_id == d0.handled_snap_id
                    &&& d1.input_per_tick == d0.input_per_tick
                    &&& d1.predicted_game_monotonic_tick == d0.predicted_game_monotonic_tick
                    &&& d1.snap_acks == d0.snap_acks
                    &&& d1.last_game_tick_ns == d0.last_game_tick_ns
                    &&& d1.prediction_timer == fold_acks_timing(
                        d0.prediction_timer,
                        d0.sent_input_ids@,
                        msg.input_ack@,
                        ts,
                    ).0
                },
                SnapshotResult::DroppedBadPatch => {
                    &&& players_acked(d0.local_players@, d1.local_players@, msg.input_ack@)
                    &&& d1.prediction_timer == fold_acks_timing(
                        d0.prediction_timer,
                        d0.sent_input_ids@,
                        msg.input_ack@,
                        ts,
                    ).0
                    &&& msg.diff_id.is_some()
                    &&& seq_get(d0.snap_storage@, msg.diff_id.unwrap()).is_some()
                    &&& patch_spec(
                        seq_get(
                            d0.snap_storage@,
                            msg.diff_id.unwrap(),
                        ).unwrap().snapshot@,
                        msg.snapshot@,
                    ).is_none()
                    &&& g1 == g0
                    &&& d1.snap_storage == d0.snap_storage
                    &&& d1.handled_snap_id == d0.handled_snap_id
                    &&& d1.input_per_tick == d0.input_per_tick
                    &&& d1.predicted_game_monotonic_tick == d0.predicted_game_monotonic_tick
                    &&& d1.snap_acks == d0.snap_acks
                    &&& d1.last_game_tick_ns == d0.last_game_tick_ns
                },
                SnapshotResult::DroppedMalformed => {
                    &&& players_acked(d0.local_players@, d1.local_players@, msg.input_ack@)
                    &&& d1.prediction_timer == fold_acks_timing(
                        d0.prediction_timer,
                        d0.sent_input_ids@,
                        msg.input_ack@,
                        ts,
                    ).0
                    &&& d1.last_game_tick_ns == d0.last_game_tick_ns
                    &&& resolved_of(msg, d0.snap_storage@).is_some()
                    &&& parse_model(resolved_of(msg, d0.snap_storage@).unwrap().0).is_none()
                    &&& !is_stale(
                        d0.handled_snap_id,
                        resolved_of(msg, d0.snap_storage@).unwrap().1,
                    )
                    &&& g1 == g0
                    &&& d1.snap_storage == d0.snap_storage
                    &&& d1.handled_snap_id == d0.handled_snap_id
                    &&& d1.input_per_tick == d0.input_per_tick
                    &&& d1.predicted_game_monotonic_tick == d0.predicted_game_monotonic_tick
                    &&& d1.snap_acks == d0.snap_acks
                },
                SnapshotResult::Stale { snap_id, monotonic_tick, snapshot } => {
                    &&& players_acked(d0.local_players@, d1.local_players@, msg.input_ack@)
                    &&& resolved_of(msg, d0.snap_storage@) == Some(
                        (snapshot@, snap_id, monotonic_tick),
                    )
                    &&& is_stale(d0.handled_snap_id, snap_id)
                    &&& g1 == g0
                    &&& d1.snap_storage == d0.snap_storage
                    &&& d1.handled_snap_id == d0.handled_snap_id
                    &&& d1.input_per_tick == d0.input_per_tick
                    &&& d1.predicted_game_monotonic_tick == d0.predicted_game_monotonic_tick
                    &&& d1.snap_acks == d0.snap_acks
                    &&& d1.last_game_tick_ns == d0.last_game_tick_ns
                    &&& d1.prediction_timer == ({
                        let ft = fold_acks_timing(
                            d0.prediction_timer,
                            d0.sent_input_ids@,
                            msg.input_ack@,
                            ts,
                        ).0;
                        add_snap_spec(
                            ft,
                            snap_time_diff_spec(
                                ft,
                                d0.last_game_tick_ns,
                                d0.predicted_game_monotonic_tick,
                                monotonic_tick,
                                ts,
                                msg.overhead_time_ns,
                            ),
                            ts,
                        )
                    })
                },
                SnapshotResult::Applied { snap_id, monotonic_tick, snapshot } => {
                    let prev = d0.predicted_game_monotonic_tick;
                    let ft = fold_acks_timing(
                        d0.prediction_timer,
                        d0.sent_input_ids@,
                        msg.input_ack@,
                        ts,
                    ).0;
                    let pruned = d0.input_per_tick@.skip(
                        lower_bound(d0.input_per_tick@, monotonic_tick),
                    );
                    let base = parse_model(snapshot@).unwrap().0;
                    &&& resolved_of(msg, d0.snap_storage@) == Some(
                        (snapshot@, snap_id, monotonic_tick),
                    )
                    &&& !is_stale(d0.handled_snap_id, snap_id)
                    &&& parse_model(snapshot@).is_some()
                    &&& d1.handled_snap_id == Some(snap_id)
                    &&& d1.snap_acks@ == d0.snap_acks@.push(snap_id)
                    &&& d1.predicted_game_monotonic_tick == (if prev >= monotonic_tick {
                        prev
                    } else {
                        monotonic_tick
                    })
                    &&& d1.input_per_tick@ == pruned
                    // the snapshot is stored as a diff base exactly when asked
                    &&& (msg.as_diff ==> {
                        let dropped = if d0.snap_storage@.len() >= 50 {
                            d0.snap_storage@.len() - 49
                        } else {
                            0
                        };
                        &&& d1.snap_storage@.len() == d0.snap_storage@.len()
                            - dropped + 1
                        &&& d1.snap_storage@.drop_last() == d0.snap_storage@.skip(
                            dropped,
                        )
                        &&& d1.snap_storage@.last().0 == snap_id
                        &&& d1.snap_storage@.last().1.snapshot@ == snapshot@
                        &&& d1.snap_storage@.last().1.monotonic_tick == monotonic_tick
                    })
                    &&& (!msg.as_diff ==> d1.snap_storage == d0.snap_storage)
                    // rebuild plus clamped replay of the buffered input
                    &&& g1.game.model() == ({
                        if prev > monotonic_tick {
                            let lo = sat_sub(prev, (3 * TICKS_PER_SECOND) as u64);
                            let start = if monotonic_tick >= lo {
                                monotonic_tick
                            } else {
                                lo
                            };
                            replay_model(base, inputs_model_seq(pruned), start, (prev - start) as nat)
                        } else {
                            base
                        }
                    })
                    &&& g1.id_generator == (if g0.id_generator >= parse_model(
                        snapshot@,
                    ).unwrap().1 {
                        g0.id_generator
                    } else {
                        parse_model(snapshot@).unwrap().1
                    })
                    &&& g1.pred_game == g0.pred_game
                    &&& g1.events == g0.events
                    &&& g1.event_id_generator == g0.event_id_generator
                    // local players follow the snapshot's entity ids;
                    // known ones keep their acks-folded bookkeeping
                    &&& players_after_apply(
                        d0.local_players@,
                        msg.input_ack@,
                        base.chars.map_values(|p: (u64, Character)| p.0),
                        d1.local_players@,
                    )
                    &&& d1.last_game_tick_ns == (if monotonic_tick > prev {
                        sat_sub(sat_sub(ts, ft.spec_pred_max()), msg.overhead_time_ns)
                    } else {
                        d0.last_game_tick_ns
                    })
                    &&& d1.prediction_timer == add_snap_spec(
                        ft,
                        snap_time_diff_spec(
                            ft,
                            d1.last_game_tick_ns,
                            d1.predicted_game_monotonic_tick,
                            monotonic_tick,
                            ts,
                            msg.overhead_time_ns,
                        ),
                        ts,
                    )
                },
            }
}

/// The client-side per-connection reconciliation data: locally
/// controlled players, pending acknowledgements, the bounded ring of
/// snapshots kept as diff bases, sent-input timing, the prediction
/// timer, and the predicted tick.
pub struct GameData {
    /// The locally controlled players by entity id.
    pub local_players: TickMap<ClientPlayer>,
    /// Snapshot ids still to be acknowledged to the server.
    pub snap_acks: Vec<u64>,
    /// Buffered local inputs by tick, per player.
    pub input_per_tick: TickMap<TickMap<u64>>,
    /// The id of the newest applied snapshot; older or equal ids are
    /// discarded.
    pub handled_snap_id: Option<u64>,
    /// Ever increasing id for outgoing input packets.
    pub input_id: u64,
    /// The last snapshots stored as diff bases, by snapshot id; bounded.
    pub snap_storage: TickMap<SnapshotStorageItem>,
    /// When each yet unacknowledged input packet was sent, nanoseconds.
    pub sent_input_ids: TickMap<u64>,
    /// The latency/jitter estimator driving the look-ahead.
    pub prediction_timer: PredictionTimer,
    /// Session time the current tick started at, nanoseconds.
    pub last_game_tick_ns: u64,
    /// The tick the prediction copy has been advanced to.
    pub predicted_game_monotonic_tick: u64,
    /// Chat lines received and not yet shown, in arrival order.
    pub chat_msgs: Vec<String>,
    /// The server's current map-vote options.
    pub map_votes: Vec<String>,
}

impl GameData {
    pub open spec fn wf(&self) -> bool {
        &&& self.local_players.wf()
        &&& forall|j: int|
            0 <= j < self.local_players@.len() ==> (#[trigger] self.local_players@[j]).1.wf()
        &&& self.input_per_tick.wf()
        &&& forall|j: int|
            0 <= j < self.input_per_tick@.len() ==> (#[trigger] self.input_per_tick@[j]).1.wf()
        &&& self.snap_storage.wf()
        &&& self.snap_storage@.len() <= 50
        &&& self.sent_input_ids.wf()
        &&& self.prediction_timer.wf()
        &&& match self.handled_snap_id {
            Some(h) => forall|j: int|
                0 <= j < self.snap_storage@.len() ==> (#[trigger] self.snap_storage@[j]).0 <= h,
            None => self.snap_storage@.len() == 0,
        }
    }

    /// Fresh reconciliation data at connection establishment.
    pub fn new(cur_time_ns: u64, prediction_timer: PredictionTimer) -> (r: Self)
        requires
            prediction_timer.wf(),
        ensures
            r.wf(),
            r.local_players@ == Seq::<(u64, ClientPlayer)>::empty(),
            r.snap_acks@ == Seq::<u64>::empty(),
            r.input_per_tick@ == Seq::<(u64, TickMap<u64>)>::empty(),
            r.handled_snap_id.is_none(),
            r.input_id == 0,
            r.snap_storage@ == Seq::<(u64, SnapshotStorageItem)>::empty(),
            r.sent_input_ids@ == Seq::<(u64, u64)>::empty(),
            r.prediction_timer == prediction_timer,
            r.last_game_tick_ns == cur_time_ns,
            r.predicted_game_monotonic_tick == 0,
            r.chat_msgs@ == Seq::<String>::empty(),
            r.map_votes@ == Seq::<String>::empty(),
    {
        GameData {
            local_players: TickMap::new(),
            snap_acks: Vec::new(),
            input_per_tick: TickMap::new(),
            handled_snap_id: None,
            input_id: 0,
            snap_storage: TickMap::new(),
            sent_input_ids: TickMap::new(),
            prediction_timer,
            last_game_tick_ns: cur_time_ns,
            predicted_game_monotonic_tick: 0,
            chat_msgs: Vec::new(),
            map_votes: Vec::new(),
        }
    }

    /// Aligns the set of locally controlled players with the entity ids
    /// a snapshot reported: players no longer present are dropped,
    /// known players keep their bookkeeping, new ids start fresh.
    pub fn handle_local_players_from_snapshot(&mut self, ids: &Vec<u64>)
        requires
            old(self).wf(),
            forall|i: int, j: int| 0 <= i < j < ids@.len() ==> ids@[i] < ids@[j],
        ensures
            final(self).wf(),
            final(self).local_players@.len() == ids@.len(),
            forall|j: int|
                0 <= j < ids@.len() ==> (#[trigger] final(self).local_players@[j]).0 == ids@[j],
            forall|j: int|
                0 <= j < ids@.len() ==> (match seq_get(old(self).local_players@, ids@[j]) {
                    Some(p) => (#[trigger] final(self).local_players@[j]).1 == p,
                    None => {
                        let np = (#[trigger] final(self).local_players@[j]).1;
                        np.input_dir == 0 && np.server_input.is_none()
                            && np.server_input_storage@.len() == 0
                    },
                }),
            final(self).snap_acks == old(self).snap_acks,
            final(self).input_per_tick == old(self).input_per_tick,
            final(self).handled_snap_id == old(self).handled_snap_id,
            final(self).input_id == old(self).input_id,
            final(self).snap_storage == old(self).snap_storage,
            final(self).sent_input_ids == old(self).sent_input_ids,
            final(self).prediction_timer == old(self).prediction_timer,
            final(self).last_game_tick_ns == old(self).last_game_tick_ns,
            final(self).predicted_game_monotonic_tick == old(
                self,
            ).predicted_game_monotonic_tick,
            final(self).chat_msgs == old(self).chat_msgs,
            final(self).map_votes == old(self).map_votes,
    {
        let n = ids.len();
        let mut newmap: TickMap<ClientPlayer> = TickMap::new();
        let mut i: usize = 0;
        while i < n
            invariant
                i <= n,
                n == ids@.len(),
                forall|a: int, b: int| 0 <= a < b < ids@.len() ==> ids@[a] < ids@[b],
                newmap.wf(),
                newmap@.len() == i,
                forall|j: int| 0 <= j < i ==> (#[trigger] newmap@[j]).0 == ids@[j],
                forall|j: int|
                    0 <= j < i ==> (match seq_get(old(self).local_players@, ids@[j]) {
                        Some(p) => (#[trigger] newmap@[j]).1 == p,
                        None => {
                            let np = (#[trigger] newmap@[j]).1;
                            np.input_dir == 0 && np.server_input.is_none()
                                && np.server_input_storage@.len() == 0
                        },
                    }),
                forall|j: int| 0 <= j < i ==> (#[trigger] newmap@[j]).1.wf(),
                self.local_players.wf(),
                forall|j: int|
                    i <= j < n ==> self.local_players.spec_get(#[trigger] ids@[j]) == seq_get(
                        old(self).local_players@,
                        ids@[j],
                    ),
                forall|j: int|
                    0 <= j < old(self).local_players@.len() ==> (#[trigger] old(
                        self,
                    ).local_players@[j]).1.wf(),
                self.snap_acks == old(self).snap_acks,
                self.input_per_tick == old(self).input_per_tick,
                self.handled_snap_id == old(self).handled_snap_id,
                self.input_id == old(self).input_id,
                self.snap_storage == old(self).snap_storage,
                self.sent_input_ids == old(self).sent_input_ids,
                self.prediction_timer == old(self).prediction_timer,
                self.last_game_tick_ns == old(self).last_game_tick_ns,
                self.predicted_game_monotonic_tick == old(self).predicted_game_monotonic_tick,
                self.chat_msgs == old(self).chat_msgs,
                self.map_votes == old(self).map_votes,
            decreases n - i,
        {
            let id = ids[i];
            let p = match self.local_players.remove(id) {
                Some(p) => {
                    proof {
                        lemma_seq_get_some_index(old(self).local_players@, id);
                    }
                    p
                },
                None => ClientPlayer::new(),
            };
            proof {
                assert forall|j: int| 0 <= j < newmap@.len() implies (#[trigger] newmap@[j]).0
                    < id by {
                    assert(newmap@[j].0 == ids@[j]);
                    assert(ids@[j] < ids@[i as int]);
                }
            }
            newmap.push_back(id, p);
            i = i + 1;
        }
        self.local_players = newmap;
    }

    /// Folds a run of input acknowledgements in: every player's pending
    /// storage drops the acknowledged inputs and promotes the newest one
    /// to its server baseline, and each matched ack's round trip feeds
    /// the prediction timer.
    pub fn process_input_acks(&mut self, acks: &Vec<MsgSvInputAck>, timestamp_ns: u64)
        requires
            old(self).wf(),
        ensures
            final(self).wf(),
            final(self).prediction_timer == fold_acks_timing(
                old(self).prediction_timer,
                old(self).sent_input_ids@,
                acks@,
                timestamp_ns,
            ).0,
            final(self).sent_input_ids@ == fold_acks_timing(
                old(self).prediction_timer,
                old(self).sent_input_ids@,
                acks@,
                timestamp_ns,
            ).1,
            players_acked(old(self).local_players@, final(self).local_players@, acks@),
            final(self).snap_acks == old(self).snap_acks,
            final(self).input_per_tick == old(self).input_per_tick,
            final(self).handled_snap_id == old(self).handled_snap_id,
            final(self).input_id == old(self).input_id,
            final(self).snap_storage == old(self).snap_storage,
            final(self).last_game_tick_ns == old(self).last_game_tick_ns,
            final(self).predicted_game_monotonic_tick == old(
                self,
            ).predicted_game_monotonic_tick,
            final(self).chat_msgs == old(self).chat_msgs,
            final(self).map_votes == old(self).map_votes,
    {
        let np = self.local_players.len();
        let na = acks.len();
        let mut pi: usize = 0;
        while pi < np
            invariant
                pi <= np,
                np == self.local_players@.len(),
                na == acks@.len(),
                self.local_players.wf(),
                self.local_players@.len() == old(self).local_players@.len(),
                forall|j: int|
                    0 <= j < self.local_players@.len() ==> (#[trigger] self.local_players@[j]).1.wf(),
                forall|j: int|
                    pi <= j < np ==> #[trigger] self.local_players@[j] == old(
                        self,
                    ).local_players@[j],
                forall|j: int|
                    0 <= j < pi ==> {
                        let oldp = (#[trigger] old(self).local_players@[j]).1;
                        let newp = self.local_players@[j].1;
                        let f = fold_acks_player(
                            oldp.server_input_storage@,
                            oldp.server_input,
                            acks@,
                        );
                        &&& self.local_players@[j].0 == old(self).local_players@[j].0
                        &&& newp.server_input_storage@ == f.0
                        &&& newp.server_input == f.1
                        &&& newp.input_dir == oldp.input_dir
                    },
                self.snap_acks == old(self).snap_acks,
                self.input_per_tick == old(self).input_per_tick,
                self.handled_snap_id == old(self).handled_snap_id,
                self.input_id == old(self).input_id,
                self.snap_storage == old(self).snap_storage,
                self.sent_input_ids == old(self).sent_input_ids,
                self.prediction_timer == old(self).prediction_timer,
                self.last_game_tick_ns == old(self).last_game_tick_ns,
                self.predicted_game_monotonic_tick == old(self).predicted_game_monotonic_tick,
                self.chat_msgs == old(self).chat_msgs,
                self.map_votes == old(self).map_votes,
            decreases np - pi,
        {
            let mut p = self.local_players.swap_val_at(pi, ClientPlayer::new());
            let ghost orig_storage = p.server_input_storage@;
            let ghost orig_si = p.server_input;
            let ghost orig_dir = p.input_dir;
            let mut ai: usize = 0;
            while ai < na
                invariant
                    ai <= na,
                    na == acks@.len(),
                    p.wf(),
                    p.server_input_storage@ == fold_acks_player(
                        orig_storage,
                        orig_si,
                        acks@.take(ai as int),
                    ).0,
                    p.server_input == fold_acks_player(
                        orig_storage,
                        orig_si,
                        acks@.take(ai as int),
                    ).1,
                    p.input_dir == orig_dir,
                decreases na - ai,
            {
                let a = acks[ai];
                NetworkLogic::ack_input(&mut p, a.id);
                proof {
                    assert(acks@.take(ai + 1) =~= acks@.take(ai as int).push(a));
                    lemma_fold_player_snoc(orig_storage, orig_si, acks@.take(ai as int), a);
                }
                ai = ai + 1;
            }
            proof {
                assert(acks@.take(na as int) =~= acks@);
            }
            let _ = self.local_players.swap_val_at(pi, p);
            pi = pi + 1;
        }
        // round-trip timing of the matched acks
        let ghost t0 = self.prediction_timer;
        let ghost sent0 = self.sent_input_ids@;
        let mut ai: usize = 0;
        while ai < na
            invariant
                ai <= na,
                na == acks@.len(),
                self.sent_input_ids.wf(),
                self.prediction_timer.wf(),
                self.prediction_timer == fold_acks_timing(t0, sent0, acks@.take(ai as int), timestamp_ns).0,
                self.sent_input_ids@ == fold_acks_timing(
                    t0,
                    sent0,
                    acks@.take(ai as int),
                    timestamp_ns,
                ).1,
                self.local_players@.len() == old(self).local_players@.len(),
                self.local_players.wf(),
                forall|j: int|
                    0 <= j < self.local_players@.len() ==> (#[trigger] self.local_players@[j]).1.wf(),
                forall|j: int|
                    0 <= j < self.local_players@.len() ==> {
                        let oldp = (#[trigger] old(self).local_players@[j]).1;
                        let newp = self.local_players@[j].1;
                        let f = fold_acks_player(
                            oldp.server_input_storage@,
                            oldp.server_input,
                            acks@,
                        );
                        &&& self.local_players@[j].0 == old(self).local_players@[j].0
                        &&& newp.server_input_storage@ == f.0
                        &&& newp.server_input == f.1
                        &&& newp.input_dir == oldp.input_dir
                    },
                self.snap_acks == old(self).snap_acks,
                self.input_per_tick == old(self).input_per_tick,
                self.handled_snap_id == old(self).handled_snap_id,
                self.input_id == old(self).input_id,
                self.snap_storage == old(self).snap_storage,
                self.last_game_tick_ns == old(self).last_game_tick_ns,
                self.predicted_game_monotonic_tick == old(self).predicted_game_monotonic_tick,
                self.chat_msgs == old(self).chat_msgs,
                self.map_votes == old(self).map_votes,
            decreases na - ai,
        {
            let a = acks[ai];
            match self.sent_input_ids.remove(a.id) {
                Some(sent_at) => {
                    let d1 = if timestamp_ns >= sent_at {
                        timestamp_ns - sent_at
                    } else {
                        0
                    };
                    let rtt = if d1 >= a.logic_overhead_ns {
                        d1 - a.logic_overhead_ns
                    } else {
                        0
                    };
                    self.prediction_timer.add_ping(rtt, timestamp_ns);
                },
                None => {},
            }
            proof {
                assert(acks@.take(ai + 1) =~= acks@.take(ai as int).push(a));
                lemma_fold_timing_snoc(t0, sent0, acks@.take(ai as int), a, timestamp_ns);
            }
            ai = ai + 1;
        }
        proof {
            assert(acks@.take(na as int) =~= acks@);
        }
    }
}

/// The buffered input that applies at tick `t`: the entry at `t`, or the
/// nearest earlier buffered one as a fallback.
pub open spec fn input_floor(inps: Seq<(u64, Seq<(u64, u64)>)>, t: u64) -> Option<
    Seq<(u64, u64)>,
>
    decreases inps.len(),
{
    if inps.len() == 0 {
        None
    } else if inps.last().0 <= t {
        Some(inps.last().1)
    } else {
        input_floor(inps.drop_last(), t)
    }
}

/// The mathematical content of a run of buffered per-tick inputs.
pub open spec fn inputs_model_seq(s: Seq<(u64, TickMap<u64>)>) -> Seq<(u64, Seq<(u64, u64)>)> {
    s.map_values(|p: (u64, TickMap<u64>)| (p.0, p.1@))
}

/// The mathematical content of the buffered per-tick inputs.
pub open spec fn inputs_model(m: TickMap<TickMap<u64>>) -> Seq<(u64, Seq<(u64, u64)>)> {
    inputs_model_seq(m@)
}

/// Replaying `count` buffered ticks over a model: the step for tick
/// `start + i` applies the buffered input for that tick (with the
/// nearest-earlier fallback) and then advances one tick.
pub open spec fn replay_model(
    m: GameModel,
    inps: Seq<(u64, Seq<(u64, u64)>)>,
    start: u64,
    count: nat,
) -> GameModel
    decreases count,
{
    if count == 0 {
        m
    } else {
        let prev = replay_model(m, inps, start, (count - 1) as nat);
        let t = sat_add(start, count as u64);
        let applied = match input_floor(inps, t) {
            Some(v) => apply_inputs_model(prev, v),
            None => prev,
        };
        step_model(applied)
    }
}

/// In a sorted input buffer, the floor entry named by its index is what
/// [`input_floor`] finds.
proof fn lemma_input_floor_some(inps: Seq<(u64, Seq<(u64, u64)>)>, t: u64, i: int)
    requires
        sorted_pairs(inps),
        0 <= i < inps.len(),
        inps[i].0 <= t,
        forall|j: int| i < j < inps.len() ==> (#[trigger] inps[j]).0 > t,
    ensures
        input_floor(inps, t) == Some(inps[i].1),
    decreases inps.len(),
{
    if i == inps.len() - 1 {
        assert(inps.last() == inps[i]);
    } else {
        assert(inps.last().0 > t);
        let d = inps.drop_last();
        assert(sorted_pairs(d)) by {
            assert(forall|a: int| 0 <= a < d.len() ==> #[trigger] d[a] == inps[a]);
        }
        assert(forall|j: int| i < j < d.len() ==> (#[trigger] d[j]).0 > t) by {
            assert(forall|a: int| 0 <= a < d.len() ==> #[trigger] d[a] == inps[a]);
        }
        assert(d[i] == inps[i]);
        lemma_input_floor_some(d, t, i);
    }
}

/// An input buffer whose keys all lie above `t` has no floor entry.
proof fn lemma_input_floor_none(inps: Seq<(u64, Seq<(u64, u64)>)>, t: u64)
    requires
        forall|j: int| 0 <= j < inps.len() ==> (#[trigger] inps[j]).0 > t,
    ensures
        input_floor(inps, t).is_none(),
    decreases inps.len(),
{
    if inps.len() > 0 {
        let d = inps.drop_last();
        assert(forall|a: int| 0 <= a < d.len() ==> #[trigger] d[a] == inps[a]);
        lemma_input_floor_none(d, t);
    }
}

/// What a snapshot message resolves to against the stored diff bases:
/// the raw snapshot bytes, the snapshot id and the monotonic tick — or
/// nothing, when the base is missing or the patch does not fit it.
pub open spec fn resolved_of(msg: SnapshotMsg, storage: Seq<(u64, SnapshotStorageItem)>) -> Option<
    (Seq<u8>, u64, u64),
> {
    match msg.diff_id {
        None => Some((msg.snapshot@, msg.snap_id_diffed, msg.game_monotonic_tick_diff)),
        Some(d) => match seq_get(storage, d) {
            None => None,
            Some(item) => match patch_spec(item.snapshot@, msg.snapshot@) {
                None => None,
                Some(bytes) => Some(
                    (
                        bytes,
                        sat_add(msg.snap_id_diffed, d),
                        sat_add(msg.game_monotonic_tick_diff, item.monotonic_tick),
                    ),
                ),
            },
        },
    }
}

/// Whether a resolved snapshot id is stale: at or below the newest
/// already applied id.
pub open spec fn is_stale(handled: Option<u64>, snap_id: u64) -> bool {
    match handled {
        Some(h) => snap_id <= h,
        None => false,
    }
}

/// Clamping an unbounded nanosecond difference into `i64`.
pub open spec fn clamp_i64(x: int) -> i64 {
    if x > i64::MAX {
        i64::MAX
    } else if x < i64::MIN {
        i64::MIN
    } else {
        (x as i64)
    }
}

/// The combined timing discrepancy folded into the prediction timer
/// after a snapshot: the tick-count difference between the predicted and
/// the server tick (less the ticks already covered by the look-ahead
/// window) plus the fractional wall-clock difference. Both components
/// are needed because tick granularity alone is too coarse.
pub open spec fn snap_time_diff_spec(
    t: PredictionTimer,
    last_game_tick_ns: u64,
    pred_tick: u64,
    monotonic_tick: u64,
    ts: u64,
    overhead_ns: u64,
) -> i64 {
    let tick_time = (NANOS_PER_SEC / TICKS_PER_SECOND) as int;
    let predict_max = t.spec_pred_max() as int;
    let ticks_in_pred = predict_max / tick_time;
    let time_in_pred = predict_max % tick_time;
    let ts2 = sat_sub(ts, overhead_ns) as int;
    let time_diff = ts2 - last_game_tick_ns;
    let tick_diff = pred_tick - monotonic_tick - ticks_in_pred;
    clamp_i64(tick_diff * tick_time + (time_diff - time_in_pred))
}

/// How the engine disposed of one snapshot message.
#[derive(Clone, Debug)]
pub enum SnapshotResult {
    /// The message was diff-encoded against a base the client no longer
    /// holds; it is dropped, recoverable on the next resolvable one.
    DroppedMissingBase,
    /// The patch did not fit the stored base; dropped likewise.
    DroppedBadPatch,
    /// The resolved bytes are not a well-formed snapshot; dropped.
    DroppedMalformed,
    /// The snapshot id was already applied or older; discarded, the
    /// authoritative state is never rolled back.
    Stale { snap_id: u64, monotonic_tick: u64, snapshot: Vec<u8> },
    /// The snapshot was applied and buffered input replayed.
    Applied { snap_id: u64, monotonic_tick: u64, snapshot: Vec<u8> },
}

/// Saturating addition, executably.
fn sat_add_exec(a: u64, b: u64) -> (r: u64)
    ensures
        r == sat_add(a, b),
{
    if a > u64::MAX - b {
        u64::MAX
    } else {
        a + b
    }
}

/// Computes the timing discrepancy a snapshot reveals; see
/// [`snap_time_diff_spec`].
fn snap_time_diff(
    t: &PredictionTimer,
    last_game_tick_ns: u64,
    pred_tick: u64,
    monotonic_tick: u64,
    ts: u64,
    overhead_ns: u64,
) -> (r: i64)
    requires
        t.wf(),
    ensures
        r == snap_time_diff_spec(*t, last_game_tick_ns, pred_tick, monotonic_tick, ts, overhead_ns),
{
    let tick_time: u64 = NANOS_PER_SEC / TICKS_PER_SECOND;
    let predict_max = t.pred_max_smooth(tick_time);
    let ticks_in_pred = predict_max / tick_time;
    let time_in_pred = predict_max % tick_time;
    let ts2 = if ts >= overhead_ns {
        ts - overhead_ns
    } else {
        0
    };
    proof {
        assert(tick_time == 20_000_000);
        assert(ticks_in_pred <= predict_max) by (nonlinear_arith)
            requires
                tick_time >= 1,
                ticks_in_pred == predict_max / tick_time,
        {}
        assert(time_in_pred < tick_time) by (nonlinear_arith)
            requires
                tick_time >= 1,
                time_in_pred == predict_max % tick_time,
        {}
    }
    let time_diff: i128 = ts2 as i128 - last_game_tick_ns as i128;
    let tick_diff: i128 = pred_tick as i128 - monotonic_tick as i128 - ticks_in_pred as i128;
    let total: i128 = tick_diff * 20_000_000 + (time_diff - time_in_pred as i128);
    if total > i64::MAX as i128 {
        i64::MAX
    } else if total < i64::MIN as i128 {
        i64::MIN
    } else {
        total as i64
    }
}

/// The component that applies incoming server messages to the local
/// state.
pub struct NetworkLogic {}

impl NetworkLogic {
    pub fn new() -> (r: Self)
        ensures
            true,
    {
        NetworkLogic {}
    }

    /// Consumes one snapshot message, in the order spec'd for the
    /// engine: fold the input acknowledgements in, resolve the (possibly
    /// diff-encoded) snapshot against the stored bases, discard stale
    /// ids, rebuild the authoritative copy, store the snapshot as a diff
    /// base if asked to, replay buffered input over the gap between the
    /// authoritative and the predicted tick (clamped to three seconds'
    /// worth), and fold the observed timing discrepancy into the
    /// prediction timer. An unresolvable or malformed snapshot is
    /// dropped and leaves the game state untouched.
    #[verifier::loop_isolation(false)]
    #[verifier::rlimit(100)]
    pub fn on_snapshot(
        &mut self,
        timestamp_ns: u64,
        msg: &SnapshotMsg,
        game: &mut GameState,
        data: &mut GameData,
    ) -> (r: SnapshotResult)
        requires
            old(game).wf(),
            old(data).wf(),
        ensures
            final(game).wf(),
            final(data).wf(),
            final(data).prediction_timer.wf(),
            snapshot_outcome(
                *old(game),
                *old(data),
                *msg,
                timestamp_ns,
                *final(game),
                *final(data),
                r,
            ),
    {
        // 1. fold the input acknowledgements in, so that no early drop
        //    can prevent that
        data.process_input_acks(&msg.input_ack, timestamp_ns);
        let ghost folded_players = data.local_players@;
        // 2. resolve the snapshot against the stored diff bases
        let resolved = match msg.diff_id {
            None => (
                copy_bytes(msg.snapshot.as_slice()),
                msg.snap_id_diffed,
                msg.game_monotonic_tick_diff,
            ),
            Some(d) => {
                match data.snap_storage.get(d) {
                    None => {
                        return SnapshotResult::DroppedMissingBase;
                    },
                    Some(item) => {
                        match patch(item.snapshot.as_slice(), msg.snapshot.as_slice()) {
                            Ok(bytes) => (
                                bytes,
                                sat_add_exec(msg.snap_id_diffed, d),
                                sat_add_exec(msg.game_monotonic_tick_diff, item.monotonic_tick),
                            ),
                            Err(_) => {
                                return SnapshotResult::DroppedBadPatch;
                            },
                        }
                    },
                }
            },
        };
        let (bytes, snap_id, monotonic_tick) = resolved;
        // 3. stale and duplicate ids are discarded; only the timing is
        //    still folded in
        let stale = match data.handled_snap_id {
            Some(h) => snap_id <= h,
            None => false,
        };
        if stale {
            let diff = snap_time_diff(
                &data.prediction_timer,
                data.last_game_tick_ns,
                data.predicted_game_monotonic_tick,
                monotonic_tick,
                timestamp_ns,
                msg.overhead_time_ns,
            );
            data.prediction_timer.add_snap(diff, timestamp_ns);
            return SnapshotResult::Stale { snap_id, monotonic_tick, snapshot: bytes };
        }
        Self::apply_resolved(
            timestamp_ns,
            msg,
            game,
            data,
            bytes,
            snap_id,
            monotonic_tick,
            Ghost(*old(game)),
            Ghost(*old(data)),
        )
    }

    /// Applies a resolved, non-stale snapshot: rebuild, player
    /// alignment, diff-base bookkeeping, input pruning, clamped replay
    /// and the timer sample. `g0`/`d0` carry the states before the
    /// message so the outcome is stated against them; the caller has
    /// already folded the acknowledgements in.
    #[verifier::loop_isolation(false)]
    #[verifier::rlimit(100)]
    fn apply_resolved(
        timestamp_ns: u64,
        msg: &SnapshotMsg,
        game: &mut GameState,
        data: &mut GameData,
        bytes: Vec<u8>,
        snap_id: u64,
        monotonic_tick: u64,
        Ghost(g0): Ghost<GameState>,
        Ghost(d0): Ghost<GameData>,
    ) -> (r: SnapshotResult)
        requires
            old(game).wf(),
            old(data).wf(),
            g0.wf(),
            d0.wf(),
            *old(game) == g0,
            old(data).prediction_timer == fold_acks_timing(
                d0.prediction_timer,
                d0.sent_input_ids@,
                msg.input_ack@,
                timestamp_ns,
            ).0,
            old(data).sent_input_ids@ == fold_acks_timing(
                d0.prediction_timer,
                d0.sent_input_ids@,
                msg.input_ack@,
                timestamp_ns,
            ).1,
            players_acked(d0.local_players@, old(data).local_players@, msg.input_ack@),
            old(data).snap_storage == d0.snap_storage,
            old(data).snap_acks == d0.snap_acks,
            old(data).handled_snap_id == d0.handled_snap_id,
            old(data).input_per_tick == d0.input_per_tick,
            old(data).input_id == d0.input_id,
            old(data).chat_msgs == d0.chat_msgs,
            old(data).map_votes == d0.map_votes,
            old(data).last_game_tick_ns == d0.last_game_tick_ns,
            old(data).predicted_game_monotonic_tick == d0.predicted_game_monotonic_tick,
            resolved_of(*msg, d0.snap_storage@) == Some((bytes@, snap_id, monotonic_tick)),
            !is_stale(d0.handled_snap_id, snap_id),
        ensures
            final(game).wf(),
            final(data).wf(),
            final(data).prediction_timer.wf(),
            snapshot_outcome(g0, d0, *msg, timestamp_ns, *final(game), *final(data), r),
    {
        let ghost folded_players = data.local_players@;
        // 4. rebuild the authoritative copy; malformed bytes drop the
        //    message without touching anything
        let ids = match game.build_from_snapshot(bytes.as_slice()) {
            Ok(ids) => ids,
            Err(_) => {
                proof {
                    assert(resolved_of(*msg, d0.snap_storage@).unwrap().0 == bytes@);
                    assert(resolved_of(*msg, d0.snap_storage@).unwrap().1 == snap_id);
                }
                return SnapshotResult::DroppedMalformed;
            },
        };
        // 5. align the locally controlled players with the snapshot
        proof {
            let base = parse_model(bytes@).unwrap().0;
            assert forall|i: int, j: int| 0 <= i < j < ids@.len() implies ids@[i] < ids@[j] by {
                assert(ids@[i] == base.chars[i].0);
                assert(ids@[j] == base.chars[j].0);
            }
        }
        data.handle_local_players_from_snapshot(&ids);
        // 6. mark the id applied and acknowledge it
        let ghost storage0 = data.snap_storage@;
        data.handled_snap_id = Some(snap_id);
        let ghost dpre = *data;
        if msg.as_diff {
            // the ring of diff bases is bounded; this should exceed the
            // number of snapshots the server keeps for diffing
            if data.snap_storage.len() >= 50 {
                let dn = data.snap_storage.len() - 49;
                let mut k: usize = 0;
                while k < dn
                    invariant
                        k <= dn,
                        data.snap_storage.wf(),
                        data.snap_storage@ =~= storage0.skip(k as int),
                        data.local_players == dpre.local_players,
                        data.snap_acks == dpre.snap_acks,
                        data.input_per_tick == dpre.input_per_tick,
                        data.handled_snap_id == dpre.handled_snap_id,
                        data.input_id == dpre.input_id,
                        data.sent_input_ids == dpre.sent_input_ids,
                        data.prediction_timer == dpre.prediction_timer,
                        data.last_game_tick_ns == dpre.last_game_tick_ns,
                        data.predicted_game_monotonic_tick == dpre.predicted_game_monotonic_tick,
                        data.chat_msgs == dpre.chat_msgs,
                        data.map_votes == dpre.map_votes,
                    decreases dn - k,
                {
                    let _ = data.snap_storage.pop_first();
                    k = k + 1;
                }
            }
            proof {
                assert forall|j: int| 0 <= j < data.snap_storage@.len() implies (
                #[trigger] data.snap_storage@[j]).0 < snap_id by {
                    assert(data.snap_storage@[j] == storage0[j + (storage0.len()
                        - data.snap_storage@.len())]);
                }
            }
            let item = SnapshotStorageItem {
                snapshot: copy_bytes(bytes.as_slice()),
                monotonic_tick,
            };
            data.snap_storage.push_back(snap_id, item);
        }
        data.snap_acks.push(snap_id);
        // 7. snap the predicted tick forward if the server is ahead,
        //    and drop buffered input the server has already covered
        let prev_tick = data.predicted_game_monotonic_tick;
        data.predicted_game_monotonic_tick = if prev_tick >= monotonic_tick {
            prev_tick
        } else {
            monotonic_tick
        };
        let kept_inputs = data.input_per_tick.split_off(monotonic_tick);
        data.input_per_tick = kept_inputs;
        proof {
            let olds = old(data).input_per_tick@;
            lemma_lower_bound_splits(olds, monotonic_tick);
            let pruned = data.input_per_tick@;
            assert forall|j: int| 0 <= j < pruned.len() implies (#[trigger] pruned[j]).1.wf() by {
                assert(pruned[j] == olds[j + lower_bound(olds, monotonic_tick)]);
            }
        }
        // 8. replay the buffered input over the gap, clamped to three
        //    seconds' worth of ticks
        if prev_tick > monotonic_tick {
            let lo = if prev_tick >= 3 * TICKS_PER_SECOND {
                prev_tick - 3 * TICKS_PER_SECOND
            } else {
                0
            };
            let start = if monotonic_tick >= lo {
                monotonic_tick
            } else {
                lo
            };
            let ghost base_m = game.game.model();
            let ghost inps = inputs_model(data.input_per_tick);
            proof {
                assert(sorted_pairs(inps)) by {
                    assert(forall|j: int|
                        0 <= j < inps.len() ==> (#[trigger] inps[j]).0
                            == data.input_per_tick@[j].0);
                }
            }
            let mut cur = start;
            while cur < prev_tick
                invariant
                    start <= cur <= prev_tick,
                    game.wf(),
                    game.game.model() == replay_model(base_m, inps, start, (cur - start) as nat),
                    game.pred_game == old(game).pred_game,
                    game.events == old(game).events,
                    game.event_id_generator == old(game).event_id_generator,
                    game.id_generator == (if old(game).id_generator >= parse_model(
                        bytes@,
                    ).unwrap().1 {
                        old(game).id_generator
                    } else {
                        parse_model(bytes@).unwrap().1
                    }),
                decreases prev_tick - cur,
            {
                let t_inp = cur + 1;
                match data.input_per_tick.floor_index(t_inp) {
                    Some(i) => {
                        proof {
                            assert(inps[i as int].0 == data.input_per_tick@[i as int].0);
                            assert forall|j: int| i < j < inps.len() implies (
                            #[trigger] inps[j]).0 > t_inp by {
                                assert(inps[j].0 == data.input_per_tick@[j].0);
                            }
                            lemma_input_floor_some(inps, t_inp, i as int);
                        }
                        let im = data.input_per_tick.val_at(i);
                        game.apply_player_inputs(im);
                    },
                    None => {
                        proof {
                            assert forall|j: int| 0 <= j < inps.len() implies (
                            #[trigger] inps[j]).0 > t_inp by {
                                assert(inps[j].0 == data.input_per_tick@[j].0);
                            }
                            lemma_input_floor_none(inps, t_inp);
                        }
                    },
                }
                game.tick();
                proof {
                    assert(sat_add(start, (cur - start + 1) as u64) == cur + 1);
                }
                cur = cur + 1;
            }
        } else if monotonic_tick > prev_tick {
            // the server ran ahead: snap the local clock forward; the
            // timer adjustment below does the rest
            let tick_time: u64 = NANOS_PER_SEC / TICKS_PER_SECOND;
            let pm = data.prediction_timer.pred_max_smooth(tick_time);
            let a = if timestamp_ns >= pm {
                timestamp_ns - pm
            } else {
                0
            };
            data.last_game_tick_ns = if a >= msg.overhead_time_ns {
                a - msg.overhead_time_ns
            } else {
                0
            };
        }
        // 9. fold the observed timing discrepancy into the timer
        let diff = snap_time_diff(
            &data.prediction_timer,
            data.last_game_tick_ns,
            data.predicted_game_monotonic_tick,
            monotonic_tick,
            timestamp_ns,
            msg.overhead_time_ns,
        );
        data.prediction_timer.add_snap(diff, timestamp_ns);
        proof {
            // known players kept their acks-folded bookkeeping through
            // the id alignment; new ids started fresh
            let base = parse_model(bytes@).unwrap().0;
            let ids_seq = base.chars.map_values(|p: (u64, Character)| p.0);
            assert(ids@ =~= ids_seq);
            assert forall|j: int| 0 <= j < ids_seq.len() implies (match seq_get(
                d0.local_players@,
                #[trigger] ids_seq[j],
            ) {
                Some(op) => {
                    let np = data.local_players@[j].1;
                    let f = fold_acks_player(
                        op.server_input_storage@,
                        op.server_input,
                        msg.input_ack@,
                    );
                    &&& np.server_input_storage@ == f.0
                    &&& np.server_input == f.1
                    &&& np.input_dir == op.input_dir
                },
                None => {
                    let np = data.local_players@[j].1;
                    np.input_dir == 0 && np.server_input.is_none()
                        && np.server_input_storage@.len() == 0
                },
            }) by {
                lemma_players_acked_get(
                    d0.local_players@,
                    folded_players,
                    msg.input_ack@,
                    ids_seq[j],
                );
            }
            assert(players_after_apply(
                d0.local_players@,
                msg.input_ack@,
                ids_seq,
                data.local_players@,
            ));
            assert(resolved_of(*msg, d0.snap_storage@).unwrap().0 == bytes@);
            // the applied outcome, conjunct by conjunct, to stage the
            // postcondition
            let prev = d0.predicted_game_monotonic_tick;
            let ft = fold_acks_timing(
                d0.prediction_timer,
                d0.sent_input_ids@,
                msg.input_ack@,
                timestamp_ns,
            ).0;
            let pruned0 = d0.input_per_tick@.skip(
                lower_bound(d0.input_per_tick@, monotonic_tick),
            );
            assert(data.sent_input_ids@ == fold_acks_timing(
                d0.prediction_timer,
                d0.sent_input_ids@,
                msg.input_ack@,
                timestamp_ns,
            ).1);
            assert(data.input_id == d0.input_id);
            assert(data.handled_snap_id == Some(snap_id));
            assert(data.snap_acks@ == d0.snap_acks@.push(snap_id));
            assert(data.predicted_game_monotonic_tick == (if prev >= monotonic_tick {
                prev
            } else {
                monotonic_tick
            }));
            assert(data.input_per_tick@ == pruned0);
            assert(msg.as_diff ==> {
                let dropped = if d0.snap_storage@.len() >= 50 {
                    d0.snap_storage@.len() - 49
                } else {
                    0
                };
                &&& data.snap_storage@.len() == d0.snap_storage@.len() - dropped + 1
                &&& data.snap_storage@.drop_last() == d0.snap_storage@.skip(dropped)
                &&& data.snap_storage@.last().0 == snap_id
                &&& data.snap_storage@.last().1.snapshot@ == bytes@
                &&& data.snap_storage@.last().1.monotonic_tick == monotonic_tick
            });
            assert(!msg.as_diff ==> data.snap_storage == d0.snap_storage);
            assert(game.game.model() == ({
                if prev > monotonic_tick {
                    let lo = sat_sub(prev, (3 * TICKS_PER_SECOND) as u64);
                    let start = if monotonic_tick >= lo {
                        monotonic_tick
                    } else {
                        lo
                    };
                    replay_model(base, inputs_model_seq(pruned0), start, (prev - start) as nat)
                } else {
                    base
                }
            }));
            assert(game.id_generator == (if g0.id_generator >= parse_model(
                bytes@,
            ).unwrap().1 {
                g0.id_generator
            } else {
                parse_model(bytes@).unwrap().1
            }));
            assert(game.pred_game == g0.pred_game);
            assert(game.events == g0.events);
            assert(game.event_id_generator == g0.event_id_generator);
            assert(data.last_game_tick_ns == (if monotonic_tick > prev {
                sat_sub(sat_sub(timestamp_ns, ft.spec_pred_max()), msg.overhead_time_ns)
            } else {
                d0.last_game_tick_ns
            }));
            assert(data.prediction_timer == add_snap_spec(
                ft,
                snap_time_diff_spec(
                    ft,
                    data.last_game_tick_ns,
                    data.predicted_game_monotonic_tick,
                    monotonic_tick,
                    timestamp_ns,
                    msg.overhead_time_ns,
                ),
                timestamp_ns,
            ));
        }
        SnapshotResult::Applied { snap_id, monotonic_tick, snapshot: bytes }
    }
    /// Acknowledges one input id for one player: the stored input under
    /// that id (if any) becomes the server baseline, and every pending
    /// input at or below the id is dropped.
    pub fn ack_input(player: &mut ClientPlayer, input_id: u64)
        requires
            old(player).wf(),
        ensures
            final(player).wf(),
            final(player).server_input_storage@ == ack_storage(
                old(player).server_input_storage@,
                input_id,
            ),
            final(player).server_input == ack_server_input(
                old(player).server_input_storage@,
                old(player).server_input,
                input_id,
            ),
            final(player).input_dir == old(player).input_dir,
    {
        let ghost olds = player.server_input_storage@;
        let removed = player.server_input_storage.remove(input_id);
        match removed {
            Some(inp) => {
                player.server_input = Some(ServerInputForDiff { id: input_id, inp });
            },
            None => {},
        }
        let high = player.server_input_storage.split_off(input_id);
        player.server_input_storage = high;
        proof {
            lemma_upper_bound_splits(olds, input_id);
            lemma_lower_bound_splits(olds, input_id);
            let ub = upper_bound(olds, input_id);
            let lb = lower_bound(olds, input_id);
            if removed.is_some() {
                lemma_seq_get_some_index(olds, input_id);
                let i0 = choose|i: int|
                    0 <= i < olds.len() && #[trigger] olds[i] == (
                    input_id,
                    seq_get(olds, input_id).unwrap(),
                    );
                lemma_index_is_lower_bound(olds, i0, input_id);
                assert(0 <= lb < olds.len() && olds[lb].0 == input_id);
                // the id itself sits at the lower bound, so exactly one
                // more entry is at or below it
                assert(lb < ub) by {
                    if ub <= lb {
                        assert(olds[lb].0 > input_id);
                    }
                }
                assert(ub <= lb + 1) by {
                    if ub > lb + 1 {
                        assert(olds[lb + 1].0 <= input_id);
                        assert(olds[lb].0 < olds[lb + 1].0);
                    }
                }
                let v1 = olds.take(lb) + olds.skip(lb + 1);
                assert(player.server_input_storage@ =~= v1.skip(lower_bound(v1, input_id)));
                lemma_lower_bound_splits(v1, input_id);
                let lb1 = lower_bound(v1, input_id);
                assert(lb1 == lb) by {
                    if lb1 < lb {
                        assert(v1[lb1].0 >= input_id);
                        assert(v1[lb1] == olds[lb1]);
                        assert(olds[lb1].0 < input_id);
                    }
                    if lb1 > lb {
                        assert(v1[lb].0 < input_id);
                        assert(v1[lb] == olds[lb + 1]);
                        assert(olds[lb + 1].0 > olds[lb].0);
                    }
                }
                assert(player.server_input_storage@ =~= olds.skip(ub));
            } else {
                assert(ub == lb) by {
                    crate::tickmap::lemma_seq_get_none_no_index(olds, input_id);
                    if ub > lb {
                        assert(olds[lb].0 >= input_id);
                        assert(olds[lb].0 <= input_id);
                        assert(olds[lb].0 == input_id);
                    }
                    if lb > ub {
                        assert(olds[ub].0 > input_id);
                        assert(olds[ub].0 < input_id);
                    }
                }
                assert(player.server_input_storage@ =~= olds.skip(ub));
            }
        }
    }

    /// Applies one server message to the local state. Snapshots go
    /// through [`NetworkLogic::on_snapshot`]; event announcements align
    /// the event-id allocator; chat lines and vote lists are recorded.
    /// Connection-level messages (queue info, server info, a map load)
    /// belong to the session state machine and are left alone here.
    pub fn on_msg(
        &mut self,
        timestamp_ns: u64,
        msg: &ServerToClientMessage,
        game: &mut GameState,
        data: &mut GameData,
    ) -> (r: OnMsgResult)
        requires
            old(game).wf(),
            old(data).wf(),
        ensures
            final(game).wf(),
            final(data).wf(),
            match msg {
                ServerToClientMessage::Snapshot(m) => r matches OnMsgResult::Snapshot(s)
                    && snapshot_outcome(
                    *old(game),
                    *old(data),
                    *m,
                    timestamp_ns,
                    *final(game),
                    *final(data),
                    s,
                ),
                ServerToClientMessage::Events { game_monotonic_tick, event_id } => {
                    &&& r matches OnMsgResult::Events {
                        game_monotonic_tick: t,
                        event_id: e,
                    } && t == game_monotonic_tick && e == event_id
                    &&& final(game).event_id_generator == (if old(game).event_id_generator
                        >= *event_id {
                        old(game).event_id_generator
                    } else {
                        *event_id
                    })
                    &&& final(game).game == old(game).game
                    &&& final(game).pred_game == old(game).pred_game
                    &&& *final(data) == *old(data)
                },
                ServerToClientMessage::Chat(line) => {
                    &&& r matches OnMsgResult::ChatRecorded
                    &&& final(data).chat_msgs@.len() == old(data).chat_msgs@.len() + 1
                    &&& final(data).chat_msgs@.last()@ == line@
                    &&& final(data).chat_msgs@.drop_last() == old(data).chat_msgs@
                    &&& *final(game) == *old(game)
                },
                ServerToClientMessage::LoadVote(votes) => {
                    &&& r matches OnMsgResult::VotesLoaded
                    &&& (match votes {
                        MsgSvLoadVotes::MapVotes { votes: v } => final(data).map_votes@ == v@,
                        MsgSvLoadVotes::Misc {} => final(data).map_votes == old(data).map_votes,
                    })
                    &&& *final(game) == *old(game)
                },
                _ => r matches OnMsgResult::Ignored && *final(game) == *old(game) && *final(data)
                    == *old(data),
            },
    {
        match msg {
            ServerToClientMessage::Snapshot(snap_msg) => {
                OnMsgResult::Snapshot(self.on_snapshot(timestamp_ns, snap_msg, game, data))
            },
            ServerToClientMessage::Events { game_monotonic_tick, event_id } => {
                game.sync_event_id(*event_id);
                OnMsgResult::Events {
                    game_monotonic_tick: *game_monotonic_tick,
                    event_id: *event_id,
                }
            },
            ServerToClientMessage::Chat(line) => {
                data.chat_msgs.push(line.clone());
                OnMsgResult::ChatRecorded
            },
            ServerToClientMessage::LoadVote(votes) => {
                match votes {
                    MsgSvLoadVotes::MapVotes { votes: v } => {
                        let n = v.len();
                        let mut copied: Vec<String> = Vec::new();
                        let mut i: usize = 0;
                        while i < n
                            invariant
                                i <= n,
                                n == v@.len(),
                                copied@.len() == i,
                                forall|j: int| 0 <= j < i ==> #[trigger] copied@[j] == v@[j],
                            decreases n - i,
                        {
                            copied.push(v[i].clone());
                            i = i + 1;
                        }
                        proof {
                            assert(copied@ =~= v@);
                        }
                        data.map_votes = copied;
                    },
                    MsgSvLoadVotes::Misc {} => {},
                }
                OnMsgResult::VotesLoaded
            },
            _ => OnMsgResult::Ignored,
        }
    }
}

/// What handling one server message amounted to; the caller feeds the
/// demo recorder and the session state machine from it.
#[derive(Clone, Debug)]
pub enum OnMsgResult {
    /// A snapshot message was consumed; see [`SnapshotResult`].
    Snapshot(SnapshotResult),
    /// An event announcement was synced; the demo layer should record
    /// the events under this tick.
    Events { game_monotonic_tick: u64, event_id: u64 },
    /// A chat line was recorded.
    ChatRecorded,
    /// The vote lists were replaced.
    VotesLoaded,
    /// A connection-level message the session layer handles.
    Ignored,
}

} // verus!
