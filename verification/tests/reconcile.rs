//! The reconciliation engine: snapshot resolution against stored diff
//! bases, the drop policy, stale-id handling, and input acknowledgement.

use client_core::codec::diff;
use client_core::iface::GameStateCreateOptions;
use client_core::messages::{MsgSvInputAck, MsgSvLoadVotes, ServerToClientMessage, SnapshotMsg};
use client_core::reconcile::{ClientPlayer, GameData, NetworkLogic, OnMsgResult, SnapshotResult};
use client_core::state::{GameState, SnapshotClientInfo};
use client_core::timer::PredictionTimer;

fn fresh() -> (GameState, GameData, NetworkLogic) {
    let (gs, _) = GameState::new(&GameStateCreateOptions { hint_max_characters: None, config: None });
    let data = GameData::new(0, PredictionTimer::new(1_000_000, 0));
    (gs, data, NetworkLogic::new())
}

fn snap_bytes(gs: &GameState) -> Vec<u8> {
    gs.snapshot_for(&SnapshotClientInfo { client_player_ids: Vec::new() })
}

fn full_msg(bytes: Vec<u8>, snap_id: u64, tick: u64, as_diff: bool) -> SnapshotMsg {
    SnapshotMsg {
        overhead_time_ns: 0,
        snapshot: bytes,
        diff_id: None,
        snap_id_diffed: snap_id,
        game_monotonic_tick_diff: tick,
        as_diff,
        input_ack: Vec::new(),
    }
}

#[test]
fn missing_diff_base_drops_without_change() {
    let (mut gs, mut data, mut logic) = fresh();
    let before = snap_bytes(&gs);
    // the client holds no snapshot under id 5
    let msg = SnapshotMsg {
        overhead_time_ns: 0,
        snapshot: vec![1, 2, 3, 4],
        diff_id: Some(5),
        snap_id_diffed: 2,
        game_monotonic_tick_diff: 1,
        as_diff: false,
        input_ack: Vec::new(),
    };
    let r = logic.on_snapshot(1_000_000, &msg, &mut gs, &mut data);
    assert!(matches!(r, SnapshotResult::DroppedMissingBase));
    assert_eq!(snap_bytes(&gs), before);
    assert_eq!(data.handled_snap_id, None);
    assert_eq!(data.snap_acks, Vec::<u64>::new());
}

#[test]
fn full_snapshot_applies_then_stale_is_discarded() {
    let (mut gs, mut data, mut logic) = fresh();
    // a server state a few ticks ahead
    let (mut server, _) = GameState::new(&GameStateCreateOptions {
        hint_max_characters: None,
        config: None,
    });
    server.player_join();
    server.tick();
    server.tick();
    let bytes = snap_bytes(&server);

    let msg = full_msg(bytes.clone(), 7, 2, false);
    let r = logic.on_snapshot(1_000_000, &msg, &mut gs, &mut data);
    match r {
        SnapshotResult::Applied { snap_id, monotonic_tick, snapshot } => {
            assert_eq!(snap_id, 7);
            assert_eq!(monotonic_tick, 2);
            assert_eq!(snapshot, bytes);
        }
        other => panic!("expected Applied, got {other:?}"),
    }
    assert_eq!(data.handled_snap_id, Some(7));
    assert_eq!(data.snap_acks, vec![7]);
    assert_eq!(data.predicted_game_monotonic_tick, 2);
    assert_eq!(snap_bytes(&gs), bytes);

    // the same id again: discarded, never rolled back
    let again = full_msg(bytes.clone(), 7, 2, false);
    let r2 = logic.on_snapshot(2_000_000, &again, &mut gs, &mut data);
    assert!(matches!(r2, SnapshotResult::Stale { snap_id: 7, .. }));
    assert_eq!(data.handled_snap_id, Some(7));
    assert_eq!(data.snap_acks, vec![7]);
}

#[test]
fn diff_encoded_snapshot_resolves_against_stored_base() {
    let (mut gs, mut data, mut logic) = fresh();
    let (mut server, _) = GameState::new(&GameStateCreateOptions {
        hint_max_characters: None,
        config: None,
    });
    let p = server.player_join();
    let base_bytes = snap_bytes(&server);

    // first snapshot arrives full and is stored as a diff base
    let r1 = logic.on_snapshot(1_000, &full_msg(base_bytes.clone(), 1, 1, true), &mut gs, &mut data);
    assert!(matches!(r1, SnapshotResult::Applied { .. }));
    assert_eq!(data.snap_storage.len(), 1);

    // the server moves on; the next snapshot is a patch against id 1
    server.set_player_input(p, client_core::state::DIR_RIGHT);
    server.tick();
    let next_bytes = snap_bytes(&server);
    let patch_bytes = diff(&base_bytes, &next_bytes);
    let msg = SnapshotMsg {
        overhead_time_ns: 0,
        snapshot: patch_bytes,
        diff_id: Some(1),
        snap_id_diffed: 1,
        game_monotonic_tick_diff: 1,
        as_diff: false,
        input_ack: Vec::new(),
    };
    let r2 = logic.on_snapshot(2_000, &msg, &mut gs, &mut data);
    match r2 {
        SnapshotResult::Applied { snap_id, monotonic_tick, snapshot } => {
            assert_eq!(snap_id, 2);
            assert_eq!(monotonic_tick, 2);
            assert_eq!(snapshot, next_bytes);
        }
        other => panic!("expected Applied, got {other:?}"),
    }
    assert_eq!(snap_bytes(&gs), next_bytes);
}

#[test]
fn corrupt_patch_drops_without_change() {
    let (mut gs, mut data, mut logic) = fresh();
    let base_bytes = snap_bytes(&gs);
    let r1 = logic.on_snapshot(1_000, &full_msg(base_bytes, 1, 1, true), &mut gs, &mut data);
    assert!(matches!(r1, SnapshotResult::Applied { .. }));
    let before = snap_bytes(&gs);
    let msg = SnapshotMsg {
        overhead_time_ns: 0,
        snapshot: vec![0; 40],
        diff_id: Some(1),
        snap_id_diffed: 1,
        game_monotonic_tick_diff: 1,
        as_diff: false,
        input_ack: Vec::new(),
    };
    let r2 = logic.on_snapshot(2_000, &msg, &mut gs, &mut data);
    assert!(matches!(r2, SnapshotResult::DroppedBadPatch));
    assert_eq!(snap_bytes(&gs), before);
    assert_eq!(data.handled_snap_id, Some(1));
}

#[test]
fn acks_promote_and_prune_pending_inputs() {
    let mut p = ClientPlayer::new();
    p.server_input_storage.insert(3, 10);
    p.server_input_storage.insert(5, 20);
    p.server_input_storage.insert(8, 30);
    NetworkLogic::ack_input(&mut p, 5);
    // id 5 became the server baseline; 3 and 5 are gone, 8 stays
    let si = p.server_input.expect("ack of a stored input promotes it");
    assert_eq!((si.id, si.inp), (5, 20));
    assert!(p.server_input_storage.get(3).is_none());
    assert!(p.server_input_storage.get(5).is_none());
    assert_eq!(p.server_input_storage.get(8), Some(&30));
    // acking an unknown id keeps the baseline but prunes older entries
    NetworkLogic::ack_input(&mut p, 6);
    let si2 = p.server_input.unwrap();
    assert_eq!(si2.id, 5);
    assert_eq!(p.server_input_storage.get(8), Some(&30));
}

#[test]
fn acked_inputs_feed_the_prediction_timer() {
    let (mut gs, mut data, mut logic) = fresh();
    data.sent_input_ids.insert(1, 100_000);
    let jitter_before = data.prediction_timer.jitter;
    let bytes = snap_bytes(&gs);
    let msg = SnapshotMsg {
        overhead_time_ns: 0,
        snapshot: bytes,
        diff_id: None,
        snap_id_diffed: 1,
        game_monotonic_tick_diff: 1,
        as_diff: false,
        input_ack: vec![MsgSvInputAck { id: 1, logic_overhead_ns: 50_000 }],
    };
    let _ = logic.on_snapshot(40_100_000, &msg, &mut gs, &mut data);
    // the sent-input record is consumed and the sample folded in
    assert_eq!(data.sent_input_ids.len(), 0);
    assert!(data.prediction_timer.jitter > jitter_before);
    assert_eq!(data.prediction_timer.last_sample_at, 40_100_000);
}

#[test]
fn replay_advances_rebuilt_state_to_predicted_tick() {
    let (mut gs, mut data, mut logic) = fresh();
    // the client already predicted up to tick 5
    data.predicted_game_monotonic_tick = 5;
    let (mut server, _) = GameState::new(&GameStateCreateOptions {
        hint_max_characters: None,
        config: None,
    });
    server.player_join();
    server.tick();
    server.tick();
    let bytes = snap_bytes(&server);
    let r = logic.on_snapshot(1_000, &full_msg(bytes, 3, 2, false), &mut gs, &mut data);
    assert!(matches!(r, SnapshotResult::Applied { .. }));
    // predicted tick stays at 5; the rebuilt copy replayed 2..5
    assert_eq!(data.predicted_game_monotonic_tick, 5);
    assert_eq!(gs.game.tick_count, 5);
}

#[test]
fn on_msg_dispatches_by_message_kind() {
    let (mut gs, mut data, mut logic) = fresh();
    let r = logic.on_msg(
        1_000,
        &ServerToClientMessage::Events { game_monotonic_tick: 4, event_id: 9 },
        &mut gs,
        &mut data,
    );
    assert!(matches!(r, OnMsgResult::Events { game_monotonic_tick: 4, event_id: 9 }));
    assert_eq!(gs.event_id_generator, 9);

    let r = logic.on_msg(
        2_000,
        &ServerToClientMessage::Chat("gg".to_string()),
        &mut gs,
        &mut data,
    );
    assert!(matches!(r, OnMsgResult::ChatRecorded));
    assert_eq!(data.chat_msgs, vec!["gg".to_string()]);

    let r = logic.on_msg(
        3_000,
        &ServerToClientMessage::LoadVote(MsgSvLoadVotes::MapVotes {
            votes: vec!["ctf5".to_string()],
        }),
        &mut gs,
        &mut data,
    );
    assert!(matches!(r, OnMsgResult::VotesLoaded));
    assert_eq!(data.map_votes, vec!["ctf5".to_string()]);

    let bytes = snap_bytes(&gs);
    let r = logic.on_msg(
        4_000,
        &ServerToClientMessage::Snapshot(full_msg(bytes, 1, 1, false)),
        &mut gs,
        &mut data,
    );
    assert!(matches!(r, OnMsgResult::Snapshot(SnapshotResult::Applied { .. })));

    let r = logic.on_msg(
        5_000,
        &ServerToClientMessage::QueueInfo("position 3".to_string()),
        &mut gs,
        &mut data,
    );
    assert!(matches!(r, OnMsgResult::Ignored));
}
