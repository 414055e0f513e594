//! The dual-copy game state: tick monotonicity, snapshot idempotence,
//! and the prediction re-sync ordering.

use client_core::iface::GameStateCreateOptions;
use client_core::state::{
    ClientCommand, ClientCommandResult, EventClientInfo, GameEvent, GameState, SnapshotClientInfo,
    SnapshotError, DIR_RIGHT,
};
use client_core::tickmap::TickMap;

fn opts() -> GameStateCreateOptions {
    GameStateCreateOptions { hint_max_characters: None, config: None }
}

fn client() -> SnapshotClientInfo {
    SnapshotClientInfo { client_player_ids: Vec::new() }
}

#[test]
fn tick_counts_exactly() {
    let (mut gs, info) = GameState::new(&opts());
    assert_eq!(info.ticks_in_a_second, 50);
    assert_eq!(gs.game.tick_count, 0);
    for _ in 0..7 {
        gs.tick();
    }
    assert_eq!(gs.game.tick_count, 7);
}

#[test]
fn pred_tick_never_touches_authoritative_tick() {
    let (mut gs, _) = GameState::new(&opts());
    gs.player_join();
    gs.tick();
    gs.tick();
    let auth_before = gs.snapshot_for(&client());
    let inputs: TickMap<u64> = TickMap::new();
    gs.pred_tick(&inputs);
    gs.pred_tick(&inputs);
    assert_eq!(gs.game.tick_count, 2);
    assert_eq!(gs.snapshot_for(&client()), auth_before);
    // the prediction copy ran one tick ahead
    assert_eq!(gs.pred_game.tick_count, 3);
}

#[test]
fn snapshot_rebuild_reproduces_state() {
    let (mut gs, _) = GameState::new(&opts());
    let a = gs.player_join();
    let b = gs.player_join();
    gs.set_player_input(a, DIR_RIGHT);
    for _ in 0..5 {
        gs.tick();
    }
    let snap = gs.snapshot_for(&client());

    let (mut fresh, _) = GameState::new(&opts());
    let ids = fresh.build_from_snapshot(&snap).expect("a fresh snapshot must rebuild");
    assert_eq!(ids, vec![a, b]);
    // observably equal: the rebuilt state serializes to the same bytes
    assert_eq!(fresh.snapshot_for(&client()), snap);
    assert_eq!(fresh.game.tick_count, 5);
    let info = fresh.collect_character_local_render_info(a);
    assert_eq!(info, gs.collect_character_local_render_info(a));
}

#[test]
fn malformed_snapshot_is_rejected_without_change() {
    let (mut gs, _) = GameState::new(&opts());
    gs.player_join();
    gs.tick();
    let before = gs.snapshot_for(&client());
    let r = gs.build_from_snapshot(b"definitely not a snapshot");
    assert_eq!(r, Err(SnapshotError::Malformed));
    assert_eq!(gs.snapshot_for(&client()), before);
}

#[test]
fn pred_resync_applies_input_after_sync() {
    let (mut gs, _) = GameState::new(&opts());
    let a = gs.player_join();
    // the authoritative character stands still
    let x0 = {
        let snap = gs.snapshot_for(&client());
        let (mut probe, _) = GameState::new(&opts());
        probe.build_from_snapshot(&snap).unwrap();
        probe.game.chars.get(a).unwrap().pos_x
    };
    // prediction with a move-right input: the input must survive the
    // re-sync from the authoritative copy and move the character
    let mut inputs: TickMap<u64> = TickMap::new();
    inputs.insert(a, DIR_RIGHT);
    gs.pred_tick(&inputs);
    let pred_char = *gs.pred_game.chars.get(a).unwrap();
    assert_eq!(pred_char.input_dir, DIR_RIGHT);
    assert_eq!(pred_char.pos_x, x0 + 1);
    // the authoritative copy still holds the old input and position
    let auth_char = *gs.game.chars.get(a).unwrap();
    assert_eq!(auth_char.pos_x, x0);
    assert_ne!(auth_char.input_dir, DIR_RIGHT);
}

#[test]
fn pred_snapshot_never_advances_id_generator() {
    let (mut gs, _) = GameState::new(&opts());
    gs.player_join();
    let snap = gs.snapshot_for(&client());
    let (mut other, _) = GameState::new(&opts());
    let idg_before = other.id_generator;
    other.build_from_snapshot_for_pred(&snap).unwrap();
    assert_eq!(other.id_generator, idg_before);
    // the authoritative rebuild does move it forward
    other.build_from_snapshot(&snap).unwrap();
    assert!(other.id_generator >= gs.id_generator);
}

#[test]
fn events_are_ordered_and_cleared_once() {
    let (mut gs, _) = GameState::new(&opts());
    let a = gs.player_join();
    let b = gs.player_join();
    gs.player_drop(a);
    let evs = gs.events_for(&EventClientInfo { client_player_id: b });
    assert_eq!(
        evs,
        vec![
            (0, GameEvent::PlayerJoined { id: a }),
            (1, GameEvent::PlayerJoined { id: b }),
            (2, GameEvent::PlayerLeft { id: a }),
        ]
    );
    gs.clear_events();
    assert!(gs.events_for(&EventClientInfo { client_player_id: b }).is_empty());
    // clearing again is a no-op
    gs.clear_events();
    assert!(gs.events_for(&EventClientInfo { client_player_id: b }).is_empty());
}

#[test]
fn dropping_unknown_player_is_safe() {
    let (mut gs, _) = GameState::new(&opts());
    gs.player_drop(424242);
    assert!(gs.events_for(&EventClientInfo { client_player_id: 0 }).is_empty());
    gs.set_player_input(424242, DIR_RIGHT);
    let info = gs.collect_character_local_render_info(424242);
    assert_eq!(info.health, 0);
}

#[test]
fn sync_event_id_only_moves_forward() {
    let (mut gs, _) = GameState::new(&opts());
    gs.sync_event_id(10);
    assert_eq!(gs.event_id_generator, 10);
    gs.sync_event_id(3);
    assert_eq!(gs.event_id_generator, 10);
}

#[test]
fn character_infos_cover_every_character() {
    let (mut gs, _) = GameState::new(&opts());
    let a = gs.player_join();
    let b = gs.player_join();
    let infos = gs.collect_characters_info();
    assert_eq!(infos.len(), 2);
    assert_eq!(infos[0].0, a);
    assert_eq!(infos[1].0, b);
    assert_eq!(infos[0].1.stage_id, gs.stage_0_id);
    assert_eq!(infos[0].1.health, 10);
    assert_eq!(infos[0].1.score, 0);
}

#[test]
fn client_commands_decide_and_mutate() {
    let (mut gs, _) = GameState::new(&opts());
    let a = gs.player_join();
    gs.set_player_input(a, DIR_RIGHT);
    gs.tick();
    assert_eq!(gs.game.chars.get(a).unwrap().pos_x, 1);

    // a kill respawns the character at the spawn point
    let r = gs.client_command(a, &ClientCommand::Kill);
    assert_eq!(r, ClientCommandResult::Killed);
    let c = gs.game.chars.get(a).unwrap();
    assert_eq!((c.pos_x, c.health, c.ammo), (0, 10, 10));

    // known chat and rcon commands return their decision
    let r = gs.client_command(a, &ClientCommand::Chat("account_info".to_string()));
    assert_eq!(r, ClientCommandResult::AccountInfoRequested { player_id: a });
    let r = gs.client_command(a, &ClientCommand::Chat("acount_inof".to_string()));
    assert_eq!(r, ClientCommandResult::Ignored);
    let r = gs.client_command(a, &ClientCommand::Rcon("info".to_string()));
    assert_eq!(r, ClientCommandResult::InfoRequested { player_id: a });
    let r = gs.client_command(a, &ClientCommand::Rcon("cheat.all_weapons".to_string()));
    assert_eq!(r, ClientCommandResult::AllWeapons);
    // malformed input and unknown players are ignored, never a panic
    let r = gs.client_command(99, &ClientCommand::Kill);
    assert_eq!(r, ClientCommandResult::Ignored);
    let r = gs.client_command(a, &ClientCommand::Rcon("rm -rf".to_string()));
    assert_eq!(r, ClientCommandResult::Ignored);
}
