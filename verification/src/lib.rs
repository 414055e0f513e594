//! Client-side prediction and snapshot-reconciliation core of a tick-based
//! multiplayer simulation.
//!
//! The crate provides the snapshot codec (binary diff/patch plus a zstd
//! compression layer), the prediction timer that decides how far ahead of the
//! last confirmed server tick the client simulates, the dual-copy game state
//! (authoritative and prediction), the reconciliation engine that folds server
//! snapshots into local state, and the demo recorder/player that persists
//! chunked, diff-compressed snapshot streams.

pub mod accounts;
pub mod codec;
pub mod db;
pub mod demo;
pub mod iface;
pub mod messages;
pub mod reconcile;
pub mod reusable;
pub mod session;
pub mod sound;
pub mod state;
pub mod tickmap;
pub mod timer;
pub mod ui;

use vstd::prelude::*;

verus! {

/// Nanoseconds in one second, the base of all duration arithmetic here.
pub const NANOS_PER_SEC: u64 = 1_000_000_000;

} // verus!
