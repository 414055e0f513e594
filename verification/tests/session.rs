//! The connection state machine: one full walk and the no-op cases.

use client_core::iface::GameStateCreateOptions;
use client_core::session::{DisconnectAutoCleanup, Game, ServerCertMode};

#[test]
fn connection_walks_its_states() {
    let g = Game::new("198.51.100.7:8303".to_string(), ServerCertMode::Hash(42));
    assert!(!g.remote_console_open());
    let g = g.on_credentials_ready(1_000);
    let g = match g {
        Game::Connecting(ref c) => {
            assert_eq!(c.server_connect_time_ns, 1_000);
            g
        }
        _ => panic!("expected the handshake to start"),
    };
    // the server answered 40 ms later with 5 ms of handling overhead
    let g = g.on_server_info(40_001_000, 5_000_000);
    let g = match g {
        Game::Loading(ref l) => {
            assert_eq!(l.ping_ns, 35_000_000);
            g
        }
        _ => panic!("expected the map load to start"),
    };
    let opts = GameStateCreateOptions { hint_max_characters: None, config: None };
    let g = g.on_map_loaded(41_000_000, &opts);
    assert!(matches!(g, Game::WaitingForFirstSnapshot(_)));
    assert!(!g.remote_console_open());
    let g = g.on_first_snapshot();
    assert!(matches!(g, Game::Active(_)));
    assert!(g.remote_console_open());
}

#[test]
fn transitions_outside_their_state_are_no_ops() {
    let g = Game::new("198.51.100.7:8303".to_string(), ServerCertMode::Cert(vec![1, 2]));
    let g = g.on_first_snapshot();
    assert!(matches!(g, Game::PrepareConnect(_)));
    let g = g.on_server_info(10, 0);
    assert!(matches!(g, Game::PrepareConnect(_)));
}

#[test]
fn disconnect_cleanup_resets_session_state() {
    let mut c = DisconnectAutoCleanup {
        spatial_chat_supported: true,
        local_player_count: 2,
        account_info_filled: true,
        votes_filled: true,
    };
    c.cleanup();
    assert!(!c.spatial_chat_supported && c.local_player_count == 0);
    c.cleanup();
    assert!(!c.account_info_filled && !c.votes_filled);
}
