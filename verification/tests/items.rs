//! Interface types at the core's boundary: options, render flags,
//! menu props, and the account helpers.

use client_core::accounts::{accountless_validy_range, ProfileData};
use client_core::iface::{GameOptions, GameType, MatchSide, WeaponType};
use client_core::messages::{ClientToServerPlayerMessage, MsgSvInputAck, MsgSvLoadVotes};
use client_core::ui::{
    HudUi, LayerRenderFlag, MenuTopButtonProps, RenderOptions, ScoreboardUi, TileRenderFlag,
};

#[test]
fn game_options_bundle_their_fields() {
    let o = GameOptions::new(GameType::Team, 400, true);
    let inner = o.get();
    assert_eq!(inner.ty, GameType::Team);
    assert_eq!(inner.score_limit, 400);
    assert!(inner.enabled_flags);
}

#[test]
fn weapon_indices_are_stable() {
    assert_eq!(WeaponType::Hammer.index(), 0);
    assert_eq!(WeaponType::Gun.index(), 1);
    assert_eq!(WeaponType::Shotgun.index(), 2);
    assert_eq!(WeaponType::Grenade.index(), 3);
    assert_eq!(WeaponType::Laser.index(), 4);
}

#[test]
fn render_flags_occupy_distinct_bits() {
    assert_eq!(LayerRenderFlag::Opaque.bit(), 1);
    assert_eq!(LayerRenderFlag::Transparent.bit(), 2);
    assert_eq!(TileRenderFlag::Extend.bit(), 4);
}

#[test]
fn ui_pages_report_their_blur() {
    assert!(!HudUi::new().has_blur());
    assert!(ScoreboardUi::new().has_blur());
    let _ = RenderOptions { hide_buttons_icons: false };
}

#[test]
fn menu_top_button_marks_the_active_tab() {
    let active = Some("internet".to_string());
    let a = MenuTopButtonProps::new("internet".to_string(), &active);
    assert!(a.active);
    let b = MenuTopButtonProps::new("lan".to_string(), &active);
    assert!(!b.active);
    let c = MenuTopButtonProps::new("lan".to_string(), &None);
    assert!(!c.active);
}

#[test]
fn accountless_keys_are_valid_for_ninety_days() {
    assert_eq!(accountless_validy_range(), 60 * 60 * 24 * 30 * 3);
    let p = ProfileData { name: "main".to_string() };
    assert_eq!(p.name, "main");
}

#[test]
fn message_values_carry_their_payloads() {
    let ack = MsgSvInputAck { id: 9, logic_overhead_ns: 100 };
    assert_eq!(ack.id, 9);
    let votes = MsgSvLoadVotes::MapVotes { votes: vec!["ctf5".to_string()] };
    match votes {
        MsgSvLoadVotes::MapVotes { votes } => assert_eq!(votes.len(), 1),
        MsgSvLoadVotes::Misc {} => panic!("expected map votes"),
    }
    let _side = MatchSide::Red;
    let m = ClientToServerPlayerMessage::ChangeEyes { eye: 2, duration_ns: 1_000 };
    match m {
        ClientToServerPlayerMessage::ChangeEyes { eye, .. } => assert_eq!(eye, 2),
        _ => panic!("expected the eye change"),
    }
}
