//! Interface types of the game state: creation options, static session
//! information, match metadata, and the weapon and game-kind enumerations
//! that snapshots and render info refer to.

use vstd::prelude::*;

verus! {

/// Simulation steps per second of a session; fixed after session start.
pub const TICKS_PER_SECOND: u64 = 50;

/// Options for creating a game state.
#[derive(Clone, Debug)]
pub struct GameStateCreateOptions {
    /// Hint for sizing internal storage; also used for the number of
    /// characters and stages.
    pub hint_max_characters: Option<usize>,
    /// A serialized mod-specific config, if one was found.
    pub config: Option<Vec<u8>>,
}

/// Server-decided options a client adjusts its UI to.
#[derive(Clone, Debug)]
pub struct GameStateServerOptions {
    /// Name of the physics group, e.g. `vanilla`.
    pub physics_group_name: String,
    /// Whether stages (sub-arenas) may be created on this server.
    pub allow_stages: bool,
    /// Whether the client should offer picking a side.
    pub use_vanilla_sides: bool,
    /// Whether account names are split from ingame names.
    pub use_account_name: bool,
}

/// Static information a freshly created game state reports.
#[derive(Clone, Debug)]
pub struct GameStateStaticInfo {
    /// Simulation steps per second.
    pub ticks_in_a_second: u64,
    /// Name of the mod, shown in the server browser.
    pub mod_name: String,
    /// Version string of the mod.
    pub version: String,
    /// Options for the client.
    pub options: GameStateServerOptions,
}

/// Current results of a match.
#[derive(Clone, Copy, Debug)]
pub enum MatchStandings {
    Solo {
        /// The two leading entity ids, if known.
        leading_players: (Option<u64>, Option<u64>),
    },
    Sided {
        /// Score of the red side.
        score_red: i64,
        /// Score of the blue side.
        score_blue: i64,
    },
}

/// The side a character plays on in a sided match.
#[derive(Clone, Copy, Debug, PartialEq, Eq, Structural)]
pub enum MatchSide {
    Red,
    Blue,
}

/// The weapons a character can hold.
#[derive(Clone, Copy, Debug, PartialEq, Eq, Structural)]
pub enum WeaponType {
    Hammer,
    Gun,
    Shotgun,
    Grenade,
    Laser,
}

impl WeaponType {
    /// The index under which this weapon is stored in a snapshot.
    pub fn index(&self) -> (r: u64)
        ensures
            r <= 4,
            r == self.spec_index(),
    {
        match self {
            WeaponType::Hammer => 0,
            WeaponType::Gun => 1,
            WeaponType::Shotgun => 2,
            WeaponType::Grenade => 3,
            WeaponType::Laser => 4,
        }
    }

    /// Spec of [`WeaponType::index`].
    pub open spec fn spec_index(&self) -> u64 {
        match self {
            WeaponType::Hammer => 0,
            WeaponType::Gun => 1,
            WeaponType::Shotgun => 2,
            WeaponType::Grenade => 3,
            WeaponType::Laser => 4,
        }
    }
}

/// Errors of game-state operations that name a missing element.
#[derive(Clone, Copy, Debug, PartialEq, Eq, Structural)]
pub enum GameError {
    /// The stage id was not found.
    InvalidStage,
}

/// Results of database queries the game folds in when they finish.
#[derive(Clone, Debug)]
pub enum GameDbQueries {
    AccountInfo {
        /// The player the query was made for.
        player_id: u64,
        /// The account name the database returned.
        name: String,
    },
}

/// Whether matches are played solo or in teams.
#[derive(Clone, Copy, Debug, PartialEq, Eq, Structural)]
pub enum GameType {
    Solo,
    Team,
}

/// The options a game runs under.
#[derive(Clone, Copy, Debug, PartialEq, Eq, Structural)]
pub struct GameOptionsInner {
    pub ty: GameType,
    pub score_limit: u64,
    pub enabled_flags: bool,
}

/// Shared game options handed to every stage.
#[derive(Clone, Copy, Debug, PartialEq, Eq, Structural)]
pub struct GameOptions {
    inner: GameOptionsInner,
}

impl GameOptions {
    /// Bundles the options of a session.
    pub fn new(ty: GameType, score_limit: u64, enabled_flags: bool) -> (r: Self)
        ensures
            r.inner() == (GameOptionsInner { ty, score_limit, enabled_flags }),
    {
        GameOptions { inner: GameOptionsInner { ty, score_limit, enabled_flags } }
    }

    /// The bundled options.
    pub fn get(&self) -> (r: GameOptionsInner)
        ensures
            r == self.inner(),
    {
        self.inner
    }

    /// Spec view of the bundled options.
    pub closed spec fn inner(&self) -> GameOptionsInner {
        self.inner
    }
}

} // verus!
