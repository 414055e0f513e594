//! The client's connection state machine: preparing credentials,
//! connecting, loading the map, waiting for the first snapshot, active
//! play. The outside work of each phase (credential loading, the network
//! handshake, the map load) happens elsewhere; its outcomes are handed to
//! the transition functions here as plain values.

use vstd::prelude::*;
use crate::iface::GameStateCreateOptions;
use crate::reconcile::{sat_sub, GameData, NetworkLogic};
use crate::state::GameState;
use crate::timer::PredictionTimer;

verus! {

/// How the client checks the server's certificate.
#[derive(Clone, Debug)]
pub enum ServerCertMode {
    /// The full certificate is pinned.
    Cert(Vec<u8>),
    /// Only the public key's hash is pinned.
    Hash(u64),
}

/// Waiting for credentials before connecting.
pub struct PrepareConnectGame {
    /// The server address to connect to.
    pub addr: String,
    /// How the server's certificate will be checked.
    pub cert: ServerCertMode,
}

/// The network handshake is under way.
pub struct ConnectingGame {
    pub addr: String,
    /// Session time the connect started, nanoseconds.
    pub server_connect_time_ns: u64,
}

/// The map is loading; the first ping estimate is already known.
pub struct LoadingGame {
    pub addr: String,
    /// Round trip observed during the handshake, nanoseconds.
    pub ping_ns: u64,
    /// The timer seeded from that first ping.
    pub prediction_timer: PredictionTimer,
}

/// A connected session: the simulation, the reconciliation data and the
/// message logic.
pub struct ActiveGame {
    pub state: GameState,
    pub game_data: GameData,
    pub network_logic: NetworkLogic,
}

impl ActiveGame {
    pub open spec fn wf(&self) -> bool {
        self.state.wf() && self.game_data.wf()
    }
}

/// UI-side state that must be reset when the client disconnects, so that
/// no stale session data survives into the menus. The surrounding page
/// calls [`DisconnectAutoCleanup::cleanup`] when it drops the session.
#[derive(Clone, Copy, Debug, PartialEq, Eq, Structural)]
pub struct DisconnectAutoCleanup {
    /// Positional voice chat is offered for this session.
    pub spatial_chat_supported: bool,
    /// How many players this client controls locally.
    pub local_player_count: u64,
    /// Account details for the session are filled in.
    pub account_info_filled: bool,
    /// The map-vote list is loaded.
    pub votes_filled: bool,
}

impl DisconnectAutoCleanup {
    /// Resets everything session-bound; idempotent.
    pub fn cleanup(&mut self)
        ensures
            final(self).spatial_chat_supported == false,
            final(self).local_player_count == 0,
            final(self).account_info_filled == false,
            final(self).votes_filled == false,
    {
        self.spatial_chat_supported = false;
        self.local_player_count = 0;
        self.account_info_filled = false;
        self.votes_filled = false;
    }
}

/// The connection lifecycle. There is no terminal state while connected;
/// a lost connection drops the whole value.
pub enum Game {
    /// No session; the client sits in its menu.
    Inactive,
    /// Loading credentials before the handshake.
    PrepareConnect(PrepareConnectGame),
    /// The handshake is under way.
    Connecting(ConnectingGame),
    /// The map is loading.
    Loading(LoadingGame),
    /// Connected, but no snapshot has arrived yet.
    WaitingForFirstSnapshot(Box<ActiveGame>),
    /// Connected and reconciling snapshots.
    Active(Box<ActiveGame>),
}

impl Game {
    pub open spec fn wf(&self) -> bool {
        match self {
            Game::Loading(l) => l.prediction_timer.wf(),
            Game::WaitingForFirstSnapshot(g) => g.wf(),
            Game::Active(g) => g.wf(),
            _ => true,
        }
    }

    /// Starts a session towards a server.
    pub fn new(addr: String, cert: ServerCertMode) -> (r: Self)
        ensures
            r.wf(),
            r matches Game::PrepareConnect(p) && p.addr == addr,
    {
        Game::PrepareConnect(PrepareConnectGame { addr, cert })
    }

    /// Credentials are ready: the handshake starts.
    pub fn on_credentials_ready(self, now_ns: u64) -> (r: Self)
        requires
            self.wf(),
        ensures
            r.wf(),
            match self {
                Game::PrepareConnect(p) => r matches Game::Connecting(c) && c.addr == p.addr
                    && c.server_connect_time_ns == now_ns,
                _ => r == self,
            },
    {
        match self {
            Game::PrepareConnect(p) => Game::Connecting(
                ConnectingGame { addr: p.addr, server_connect_time_ns: now_ns },
            ),
            other => other,
        }
    }

    /// The server answered the handshake: the first ping estimate is the
    /// elapsed handshake time, and the map starts loading.
    pub fn on_server_info(self, now_ns: u64, overhead_ns: u64) -> (r: Self)
        requires
            self.wf(),
        ensures
            r.wf(),
            match self {
                Game::Connecting(c) => {
                    let ping = sat_sub(
                        sat_sub(now_ns, overhead_ns),
                        c.server_connect_time_ns,
                    );
                    r matches Game::Loading(l) && l.addr == c.addr && l.ping_ns == ping
                        && l.prediction_timer.smooth_ping == crate::timer::clamp_sample(ping)
                },
                _ => r == self,
            },
    {
        match self {
            Game::Connecting(c) => {
                let t1 = if now_ns >= overhead_ns {
                    now_ns - overhead_ns
                } else {
                    0
                };
                let ping = if t1 >= c.server_connect_time_ns {
                    t1 - c.server_connect_time_ns
                } else {
                    0
                };
                let timer = PredictionTimer::new(ping, now_ns);
                Game::Loading(LoadingGame { addr: c.addr, ping_ns: ping, prediction_timer: timer })
            },
            other => other,
        }
    }

    /// The map finished loading: the simulation starts, waiting for the
    /// first snapshot.
    pub fn on_map_loaded(self, now_ns: u64, options: &GameStateCreateOptions) -> (r: Self)
        requires
            self.wf(),
        ensures
            r.wf(),
            match self {
                Game::Loading(l) => r matches Game::WaitingForFirstSnapshot(g) && g.wf()
                    && g.game_data.prediction_timer == l.prediction_timer
                    && g.game_data.handled_snap_id.is_none() && g.state.game.model().tick == 0,
                _ => r == self,
            },
    {
        match self {
            Game::Loading(l) => {
                let (state, _info) = GameState::new(options);
                let game_data = GameData::new(now_ns, l.prediction_timer);
                Game::WaitingForFirstSnapshot(
                    Box::new(ActiveGame { state, game_data, network_logic: NetworkLogic::new() }),
                )
            },
            other => other,
        }
    }

    /// The first snapshot arrived: the session is fully active.
    pub fn on_first_snapshot(self) -> (r: Self)
        requires
            self.wf(),
        ensures
            r.wf(),
            match self {
                Game::WaitingForFirstSnapshot(g) => r matches Game::Active(g2) && g2 == g,
                _ => r == self,
            },
    {
        match self {
            Game::WaitingForFirstSnapshot(g) => Game::Active(g),
            other => other,
        }
    }

    /// Whether a remote console can be offered: only in active play.
    pub fn remote_console_open(&self) -> (r: bool)
        ensures
            r == (self matches Game::Active(_)),
    {
        match self {
            Game::Active(_) => true,
            _ => false,
        }
    }
}

} // verus!
