//! The network message surface between server and client, as plain
//! values. The transport and its serialization are outside this core;
//! the reconciliation engine consumes these messages as data.

use vstd::prelude::*;

verus! {

/// The server acknowledged one input packet.
#[derive(Clone, Copy, Debug, PartialEq, Eq, Structural)]
pub struct MsgSvInputAck {
    /// Id of the acknowledged input packet.
    pub id: u64,
    /// How long the server held the packet before acknowledging it;
    /// subtracted from the observed round trip, nanoseconds.
    pub logic_overhead_ns: u64,
}

/// Vote lists the server pushes to the client.
#[derive(Clone, Debug)]
pub enum MsgSvLoadVotes {
    MapVotes { votes: Vec<String> },
    Misc {},
}

/// Positional voice chat data of one entity.
#[derive(Clone, Debug)]
pub struct MsgSvSpatialChatOfEntitity {
    /// Opus frames by a monotonic id.
    pub latest_opus_frames: Vec<(u64, Vec<Vec<u8>>)>,
    /// Stable id of the speaking player.
    pub player_unique_id: u64,
}

/// The payload of a snapshot message: a full snapshot or a diff against
/// an earlier one the client was asked to store.
#[derive(Clone, Debug)]
pub struct SnapshotMsg {
    /// Server-side overhead between tick computation and send,
    /// nanoseconds.
    pub overhead_time_ns: u64,
    /// Snapshot bytes, or patch bytes if `diff_id` is set.
    pub snapshot: Vec<u8>,
    /// Id of the stored snapshot the patch was computed against.
    pub diff_id: Option<u64>,
    /// Id of this snapshot; when `diff_id` is set, `diff_id` must be
    /// added to obtain the real id.
    pub snap_id_diffed: u64,
    /// Monotonic tick of this snapshot; when `diff_id` is set, the
    /// stored snapshot's tick must be added to obtain the real tick.
    pub game_monotonic_tick_diff: u64,
    /// The client should store this snapshot as a future diff base.
    pub as_diff: bool,
    /// Inputs the server acknowledges with this snapshot.
    pub input_ack: Vec<MsgSvInputAck>,
}

/// Messages the server sends to a client.
#[derive(Clone, Debug)]
pub enum ServerToClientMessage {
    QueueInfo(String),
    ServerInfo { map: String, overhead_ns: u64 },
    Snapshot(SnapshotMsg),
    Events { game_monotonic_tick: u64, event_id: u64 },
    Load { map: String },
    Chat(String),
    Vote(Option<String>),
    LoadVote(MsgSvLoadVotes),
    RconCommands(Vec<String>),
}

/// Messages one player of a client sends to the server.
#[derive(Clone, Debug)]
pub enum ClientToServerPlayerMessage {
    RemLocalPlayer,
    Chat(String),
    Kill,
    JoinSpectator,
    Emoticon(u64),
    ChangeEyes { eye: u64, duration_ns: u64 },
    UpdateCharacterInfo { version: u64, name: String },
}

/// Messages a client sends to the server.
#[derive(Clone, Debug)]
pub enum ClientToServerMessage {
    Ready,
    PlayerMsg(u64, ClientToServerPlayerMessage),
    Inputs { id: u64, snap_ack: Vec<u64> },
}

/// Either direction of the game protocol.
#[derive(Clone, Debug)]
pub enum GameMessage {
    ServerToClient(ServerToClientMessage),
    ClientToServer(ClientToServerMessage),
}

} // verus!
