//! The dual-copy, tick-based deterministic game state.
//!
//! One authoritative copy is rebuilt from server snapshots, one prediction
//! copy is derived from it for look-ahead simulation. The two copies share
//! a monotonic entity-id allocator that only the authoritative copy may
//! advance. A snapshot is a complete serialized world state at one tick;
//! rebuilding from it overwrites the receiving copy regardless of its
//! prior history.
//!
//! The snapshot wire format is fixed-width little-endian records: a header
//! (tick, id-allocator state, stage count, character count), then one
//! 16-byte record per stage and one 80-byte record per character, each run
//! sorted by strictly increasing id. [`parse_model`] is the format's
//! specification; [`lemma_parse_of_encode`] is the encode/decode
//! round-trip law.

use vstd::prelude::*;
use vstd::bytes::{
    lemma_auto_spec_u64_to_from_le_bytes, spec_u64_from_le_bytes, spec_u64_to_le_bytes,
};
use crate::codec::{push_u64, read_u64};
use crate::iface::{GameStateCreateOptions, GameStateServerOptions, GameStateStaticInfo};
use crate::iface::TICKS_PER_SECOND;
use crate::tickmap::{seq_get, sorted_pairs, TickMap};

verus! {

/// Direction part of a character's input: no movement.
pub const DIR_NONE: u64 = 0;

/// Direction part of a character's input: one field left per tick.
pub const DIR_LEFT: u64 = 1;

/// Direction part of a character's input: one field right per tick.
pub const DIR_RIGHT: u64 = 2;

/// A character's state inside one stage, all plain values.
#[derive(Clone, Copy, Debug, PartialEq, Eq, Structural)]
pub struct Character {
    /// The stage this character lives in.
    pub stage_id: u64,
    pub pos_x: u64,
    pub pos_y: u64,
    pub score: u64,
    pub health: u64,
    pub armor: u64,
    /// Index of the active weapon.
    pub weapon: u64,
    /// Ammunition of the active weapon.
    pub ammo: u64,
    /// Movement input currently applied, one of the `DIR_` values.
    pub input_dir: u64,
}

/// Per-stage data besides the characters that live in it.
#[derive(Clone, Copy, Debug, PartialEq, Eq, Structural)]
pub struct StageMeta {
    /// Packed display color of the stage.
    pub color: u64,
}

/// One copy of the world: stage registry, characters, tick counter.
pub struct Game {
    /// Count of simulation steps this copy has performed.
    pub tick_count: u64,
    /// Registry of stages by id.
    pub stages: TickMap<StageMeta>,
    /// All characters by entity id; each names its stage.
    pub chars: TickMap<Character>,
}

/// The mathematical content of one world copy.
#[verifier::ext_equal]
pub struct GameModel {
    pub tick: u64,
    pub stages: Seq<(u64, StageMeta)>,
    pub chars: Seq<(u64, Character)>,
}

impl Game {
    /// The model of this copy.
    pub open spec fn model(&self) -> GameModel {
        GameModel { tick: self.tick_count, stages: self.stages@, chars: self.chars@ }
    }

    /// Sorted registries.
    pub open spec fn wf(&self) -> bool {
        self.stages.wf() && self.chars.wf()
    }
}

/// A model is well formed in itself: ids strictly increase and every
/// character's stage exists.
pub open spec fn wf_model_basic(m: GameModel) -> bool {
    &&& sorted_pairs(m.stages)
    &&& sorted_pairs(m.chars)
    &&& forall|i: int|
        0 <= i < m.chars.len() ==> seq_get(m.stages, (#[trigger] m.chars[i]).1.stage_id).is_some()
}

/// A model is well formed relative to the id allocator `idg`: well formed
/// in itself, with every id below the allocator.
pub open spec fn wf_model(m: GameModel, idg: u64) -> bool {
    &&& wf_model_basic(m)
    &&& forall|i: int| 0 <= i < m.stages.len() ==> (#[trigger] m.stages[i]).0 < idg
    &&& forall|i: int| 0 <= i < m.chars.len() ==> (#[trigger] m.chars[i]).0 < idg
}

/// One deterministic simulation step of a single character: apply its
/// movement input, saturating at the coordinate bounds.
pub open spec fn step_character(c: Character) -> Character {
    Character {
        pos_x: if c.input_dir == DIR_LEFT {
            if c.pos_x > 0 {
                ((c.pos_x - 1) as u64)
            } else {
                0
            }
        } else if c.input_dir == DIR_RIGHT {
            if c.pos_x < u64::MAX {
                ((c.pos_x + 1) as u64)
            } else {
                u64::MAX
            }
        } else {
            c.pos_x
        },
        ..c
    }
}

/// One deterministic simulation step of a whole copy: every character
/// steps, the stage registry is untouched, the tick counter grows by one
/// (saturating at the counter's width, which a session never reaches).
pub open spec fn step_model(m: GameModel) -> GameModel {
    GameModel {
        tick: if m.tick == u64::MAX {
            u64::MAX
        } else {
            ((m.tick + 1) as u64)
        },
        stages: m.stages,
        chars: m.chars.map_values(|p: (u64, Character)| (p.0, step_character(p.1))),
    }
}

/// `n` simulation steps.
pub open spec fn iter_step(m: GameModel, n: nat) -> GameModel
    decreases n,
{
    if n == 0 {
        m
    } else {
        step_model(iter_step(m, (n - 1) as nat))
    }
}

/// Tick monotonicity: `n` simulation steps leave the tick counter at
/// exactly its initial value plus `n`, and never touch the stage
/// registry.
pub proof fn lemma_tick_monotonic(m: GameModel, n: nat)
    requires
        m.tick + n <= u64::MAX,
    ensures
        iter_step(m, n).tick == m.tick + n,
        iter_step(m, n).stages == m.stages,
    decreases n,
{
    if n > 0 {
        lemma_tick_monotonic(m, (n - 1) as nat);
    }
}

/// The inputs of one prediction tick, applied to the characters they
/// address; characters without an input keep their previous one.
pub open spec fn apply_inputs_model(m: GameModel, inps: Seq<(u64, u64)>) -> GameModel {
    GameModel {
        tick: m.tick,
        stages: m.stages,
        chars: m.chars.map_values(
            |p: (u64, Character)|
                (
                    p.0,
                    match seq_get(inps, p.0) {
                        Some(d) => Character { input_dir: d, ..p.1 },
                        None => p.1,
                    },
                ),
        ),
    }
}

// ----------------------------------------------------------------------
// snapshot wire format
// ----------------------------------------------------------------------
/// Bytes of the snapshot header: tick, id allocator, stage count,
/// character count.
pub const SNAP_HEADER_BYTES: usize = 32;

/// Bytes of one stage record: id, color.
pub const STAGE_RECORD_BYTES: usize = 16;

/// Bytes of one character record: id plus nine fields.
pub const CHAR_RECORD_BYTES: usize = 80;

/// Encoding of one stage record.
pub open spec fn enc_stage_rec(p: (u64, StageMeta)) -> Seq<u8> {
    spec_u64_to_le_bytes(p.0) + spec_u64_to_le_bytes(p.1.color)
}

/// Encoding of a run of stage records.
pub open spec fn enc_stages(s: Seq<(u64, StageMeta)>) -> Seq<u8>
    decreases s.len(),
{
    if s.len() == 0 {
        Seq::empty()
    } else {
        enc_stage_rec(s[0]) + enc_stages(s.drop_first())
    }
}

/// Encoding of one character record.
pub open spec fn enc_char_rec(p: (u64, Character)) -> Seq<u8> {
    spec_u64_to_le_bytes(p.0) + spec_u64_to_le_bytes(p.1.stage_id) + spec_u64_to_le_bytes(
        p.1.pos_x,
    ) + spec_u64_to_le_bytes(p.1.pos_y) + spec_u64_to_le_bytes(p.1.score) + spec_u64_to_le_bytes(
        p.1.health,
    ) + spec_u64_to_le_bytes(p.1.armor) + spec_u64_to_le_bytes(p.1.weapon) + spec_u64_to_le_bytes(
        p.1.ammo,
    ) + spec_u64_to_le_bytes(p.1.input_dir)
}

/// Encoding of a run of character records.
pub open spec fn enc_chars(s: Seq<(u64, Character)>) -> Seq<u8>
    decreases s.len(),
{
    if s.len() == 0 {
        Seq::empty()
    } else {
        enc_char_rec(s[0]) + enc_chars(s.drop_first())
    }
}

/// The complete snapshot encoding of a model and the id allocator.
pub open spec fn encode_model(m: GameModel, idg: u64) -> Seq<u8> {
    spec_u64_to_le_bytes(m.tick) + spec_u64_to_le_bytes(idg) + spec_u64_to_le_bytes(
        m.stages.len() as u64,
    ) + spec_u64_to_le_bytes(m.chars.len() as u64) + enc_stages(m.stages) + enc_chars(m.chars)
}

/// Appending runs of stage records concatenates their encodings.
pub proof fn lemma_enc_stages_append(s1: Seq<(u64, StageMeta)>, s2: Seq<(u64, StageMeta)>)
    ensures
        enc_stages(s1 + s2) == enc_stages(s1) + enc_stages(s2),
    decreases s1.len(),
{
    if s1.len() == 0 {
        assert(s1 + s2 =~= s2);
        assert(enc_stages(s1) + enc_stages(s2) =~= enc_stages(s2));
    } else {
        assert((s1 + s2).drop_first() =~= s1.drop_first() + s2);
        assert((s1 + s2)[0] == s1[0]);
        lemma_enc_stages_append(s1.drop_first(), s2);
        assert(enc_stages(s1 + s2) =~= enc_stages(s1) + enc_stages(s2));
    }
}

/// Appending runs of character records concatenates their encodings.
pub proof fn lemma_enc_chars_append(s1: Seq<(u64, Character)>, s2: Seq<(u64, Character)>)
    ensures
        enc_chars(s1 + s2) == enc_chars(s1) + enc_chars(s2),
    decreases s1.len(),
{
    if s1.len() == 0 {
        assert(s1 + s2 =~= s2);
        assert(enc_chars(s1) + enc_chars(s2) =~= enc_chars(s2));
    } else {
        assert((s1 + s2).drop_first() =~= s1.drop_first() + s2);
        assert((s1 + s2)[0] == s1[0]);
        lemma_enc_chars_append(s1.drop_first(), s2);
        assert(enc_chars(s1 + s2) =~= enc_chars(s1) + enc_chars(s2));
    }
}

/// Reads the `u64` at offset `off` of `b`.
pub open spec fn word_at(b: Seq<u8>, off: int) -> u64 {
    spec_u64_from_le_bytes(b.subrange(off, off + 8))
}

/// Parses one stage record off the front of `b`.
pub open spec fn parse_stage_rec(b: Seq<u8>) -> Option<((u64, StageMeta), Seq<u8>)> {
    if b.len() < STAGE_RECORD_BYTES {
        None
    } else {
        Some(
            (
                (word_at(b, 0), StageMeta { color: word_at(b, 8) }),
                b.skip(STAGE_RECORD_BYTES as int),
            ),
        )
    }
}

/// Parses `cnt` stage records with ids strictly increasing from `lo` and
/// below `hi`.
pub open spec fn parse_stages(b: Seq<u8>, cnt: nat, lo: int, hi: u64) -> Option<
    (Seq<(u64, StageMeta)>, Seq<u8>),
>
    decreases cnt,
{
    if cnt == 0 {
        Some((Seq::empty(), b))
    } else {
        match parse_stage_rec(b) {
            None => None,
            Some((p, rest)) => {
                if p.0 < lo || p.0 >= hi {
                    None
                } else {
                    match parse_stages(rest, (cnt - 1) as nat, p.0 + 1, hi) {
                        None => None,
                        Some((s, rest2)) => Some((seq![p] + s, rest2)),
                    }
                }
            },
        }
    }
}

/// Parses one character record off the front of `b`.
pub open spec fn parse_char_rec(b: Seq<u8>) -> Option<((u64, Character), Seq<u8>)> {
    if b.len() < CHAR_RECORD_BYTES {
        None
    } else {
        Some(
            (
                (
                    word_at(b, 0),
                    Character {
                        stage_id: word_at(b, 8),
                        pos_x: word_at(b, 16),
                        pos_y: word_at(b, 24),
                        score: word_at(b, 32),
                        health: word_at(b, 40),
                        armor: word_at(b, 48),
                        weapon: word_at(b, 56),
                        ammo: word_at(b, 64),
                        input_dir: word_at(b, 72),
                    },
                ),
                b.skip(CHAR_RECORD_BYTES as int),
            ),
        )
    }
}

/// Parses `cnt` character records with ids strictly increasing from `lo`
/// and below `hi`, each naming a stage of `stages`.
pub open spec fn parse_chars(
    b: Seq<u8>,
    cnt: nat,
    lo: int,
    hi: u64,
    stages: Seq<(u64, StageMeta)>,
) -> Option<(Seq<(u64, Character)>, Seq<u8>)>
    decreases cnt,
{
    if cnt == 0 {
        Some((Seq::empty(), b))
    } else {
        match parse_char_rec(b) {
            None => None,
            Some((p, rest)) => {
                if p.0 < lo || p.0 >= hi || seq_get(stages, p.1.stage_id).is_none() {
                    None
                } else {
                    match parse_chars(rest, (cnt - 1) as nat, p.0 + 1, hi, stages) {
                        None => None,
                        Some((s, rest2)) => Some((seq![p] + s, rest2)),
                    }
                }
            },
        }
    }
}

/// The snapshot format: what a byte sequence decodes to, if anything.
/// Exactly the well-formed encodings parse.
pub open spec fn parse_model(b: Seq<u8>) -> Option<(GameModel, u64)> {
    if b.len() < SNAP_HEADER_BYTES {
        None
    } else {
        let tick = word_at(b, 0);
        let idg = word_at(b, 8);
        let stage_cnt = word_at(b, 16);
        let char_cnt = word_at(b, 24);
        match parse_stages(b.skip(SNAP_HEADER_BYTES as int), stage_cnt as nat, 0, idg) {
            None => None,
            Some((stages, rest)) => {
                match parse_chars(rest, char_cnt as nat, 0, idg, stages) {
                    None => None,
                    Some((chars, rest2)) => {
                        if rest2.len() == 0 {
                            Some((GameModel { tick, stages, chars }, idg))
                        } else {
                            None
                        }
                    },
                }
            },
        }
    }
}

/// Parsing a run of encoded stage records yields them back, leaving the
/// tail untouched.
proof fn lemma_parse_stages_of_enc(s: Seq<(u64, StageMeta)>, tail: Seq<u8>, lo: int, hi: u64)
    requires
        sorted_pairs(s),
        forall|i: int| 0 <= i < s.len() ==> lo <= (#[trigger] s[i]).0 < hi,
    ensures
        parse_stages(enc_stages(s) + tail, s.len(), lo, hi) == Some((s, tail)),
    decreases s.len(),
{
    lemma_auto_spec_u64_to_from_le_bytes();
    if s.len() == 0 {
        assert(enc_stages(s) + tail =~= tail);
        assert(parse_stages(tail, 0, lo, hi) == Some((Seq::<(u64, StageMeta)>::empty(), tail)));
        assert(s =~= Seq::<(u64, StageMeta)>::empty());
    } else {
        let b = enc_stages(s) + tail;
        let p = s[0];
        assert(enc_stages(s) == enc_stage_rec(p) + enc_stages(s.drop_first()));
        let rec = enc_stage_rec(p);
        assert(rec.len() == 16);
        assert(b.len() >= 16);
        assert(b.subrange(0, 8) =~= spec_u64_to_le_bytes(p.0));
        assert(b.subrange(8, 16) =~= spec_u64_to_le_bytes(p.1.color));
        assert(word_at(b, 0) == p.0);
        assert(word_at(b, 8) == p.1.color);
        let rest = b.skip(16);
        assert(rest =~= enc_stages(s.drop_first()) + tail);
        assert(parse_stage_rec(b) == Some((p, rest)));
        assert(forall|i: int|
            0 <= i < s.drop_first().len() ==> p.0 + 1 <= (#[trigger] s.drop_first()[i]).0
                < hi) by {
            assert(forall|i: int|
                0 <= i < s.drop_first().len() ==> s.drop_first()[i] == s[i + 1]);
        }
        assert(sorted_pairs(s.drop_first())) by {
            assert(forall|i: int|
                0 <= i < s.drop_first().len() ==> s.drop_first()[i] == s[i + 1]);
        }
        lemma_parse_stages_of_enc(s.drop_first(), tail, p.0 + 1, hi);
        assert(seq![p] + s.drop_first() =~= s);
    }
}

/// Parsing a run of encoded character records yields them back, leaving
/// the tail untouched.
proof fn lemma_parse_chars_of_enc(
    s: Seq<(u64, Character)>,
    tail: Seq<u8>,
    lo: int,
    hi: u64,
    stages: Seq<(u64, StageMeta)>,
)
    requires
        sorted_pairs(s),
        forall|i: int| 0 <= i < s.len() ==> lo <= (#[trigger] s[i]).0 < hi,
        forall|i: int|
            0 <= i < s.len() ==> seq_get(stages, (#[trigger] s[i]).1.stage_id).is_some(),
    ensures
        parse_chars(enc_chars(s) + tail, s.len(), lo, hi, stages) == Some((s, tail)),
    decreases s.len(),
{
    lemma_auto_spec_u64_to_from_le_bytes();
    if s.len() == 0 {
        assert(enc_chars(s) + tail =~= tail);
        assert(s =~= Seq::<(u64, Character)>::empty());
    } else {
        let b = enc_chars(s) + tail;
        let p = s[0];
        assert(enc_chars(s) == enc_char_rec(p) + enc_chars(s.drop_first()));
        let rec = enc_char_rec(p);
        assert(rec.len() == 80);
        assert(b.len() >= 80);
        assert(b.subrange(0, 8) =~= spec_u64_to_le_bytes(p.0));
        assert(b.subrange(8, 16) =~= spec_u64_to_le_bytes(p.1.stage_id));
        assert(b.subrange(16, 24) =~= spec_u64_to_le_bytes(p.1.pos_x));
        assert(b.subrange(24, 32) =~= spec_u64_to_le_bytes(p.1.pos_y));
        assert(b.subrange(32, 40) =~= spec_u64_to_le_bytes(p.1.score));
        assert(b.subrange(40, 48) =~= spec_u64_to_le_bytes(p.1.health));
        assert(b.subrange(48, 56) =~= spec_u64_to_le_bytes(p.1.armor));
        assert(b.subrange(56, 64) =~= spec_u64_to_le_bytes(p.1.weapon));
        assert(b.subrange(64, 72) =~= spec_u64_to_le_bytes(p.1.ammo));
        assert(b.subrange(72, 80) =~= spec_u64_to_le_bytes(p.1.input_dir));
        let rest = b.skip(80);
        assert(rest =~= enc_chars(s.drop_first()) + tail);
        assert(parse_char_rec(b) == Some((p, rest)));
        assert(forall|i: int|
            0 <= i < s.drop_first().len() ==> p.0 + 1 <= (#[trigger] s.drop_first()[i]).0
                < hi) by {
            assert(forall|i: int|
                0 <= i < s.drop_first().len() ==> s.drop_first()[i] == s[i + 1]);
        }
        assert(sorted_pairs(s.drop_first())) by {
            assert(forall|i: int|
                0 <= i < s.drop_first().len() ==> s.drop_first()[i] == s[i + 1]);
        }
        assert(forall|i: int|
            0 <= i < s.drop_first().len() ==> seq_get(
                stages,
                (#[trigger] s.drop_first()[i]).1.stage_id,
            ).is_some()) by {
            assert(forall|i: int|
                0 <= i < s.drop_first().len() ==> s.drop_first()[i] == s[i + 1]);
        }
        lemma_parse_chars_of_enc(s.drop_first(), tail, p.0 + 1, hi, stages);
        assert(seq![p] + s.drop_first() =~= s);
    }
}

/// Snapshot round trip at the format level: a well-formed model encodes
/// to bytes that parse back to exactly that model and allocator state.
pub proof fn lemma_parse_of_encode(m: GameModel, idg: u64)
    requires
        wf_model(m, idg),
        m.stages.len() <= u64::MAX,
        m.chars.len() <= u64::MAX,
    ensures
        parse_model(encode_model(m, idg)) == Some((m, idg)),
{
    lemma_auto_spec_u64_to_from_le_bytes();
    let b = encode_model(m, idg);
    let h0 = spec_u64_to_le_bytes(m.tick);
    let h1 = spec_u64_to_le_bytes(idg);
    let h2 = spec_u64_to_le_bytes(m.stages.len() as u64);
    let h3 = spec_u64_to_le_bytes(m.chars.len() as u64);
    assert(b =~= h0 + h1 + h2 + h3 + enc_stages(m.stages) + enc_chars(m.chars));
    assert(b.len() >= 32);
    assert(b.subrange(0, 8) =~= h0);
    assert(b.subrange(8, 16) =~= h1);
    assert(b.subrange(16, 24) =~= h2);
    assert(b.subrange(24, 32) =~= h3);
    assert(word_at(b, 0) == m.tick);
    assert(word_at(b, 8) == idg);
    assert(word_at(b, 16) == m.stages.len() as u64);
    assert(word_at(b, 24) == m.chars.len() as u64);
    let body = b.skip(32);
    assert(body =~= enc_stages(m.stages) + (enc_chars(m.chars) + Seq::<u8>::empty()));
    assert(enc_chars(m.chars) + Seq::<u8>::empty() =~= enc_chars(m.chars));
    assert(body =~= enc_stages(m.stages) + enc_chars(m.chars));
    lemma_parse_stages_of_enc(m.stages, enc_chars(m.chars), 0, idg);
    assert(parse_stages(body, m.stages.len(), 0, idg) == Some(
        (m.stages, enc_chars(m.chars)),
    ));
    lemma_parse_chars_of_enc(m.chars, Seq::<u8>::empty(), 0, idg, m.stages);
    assert(enc_chars(m.chars) + Seq::<u8>::empty() =~= enc_chars(m.chars));
    assert(parse_chars(enc_chars(m.chars), m.chars.len(), 0, idg, m.stages) == Some(
        (m.chars, Seq::<u8>::empty()),
    ));
}

// ----------------------------------------------------------------------
// the dual-copy game state
// ----------------------------------------------------------------------
/// Which client a snapshot is produced for. The filtering policy itself
/// is external and pluggable; the core encodes the full world.
#[derive(Clone, Debug)]
pub struct SnapshotClientInfo {
    /// The entity ids the receiving client controls.
    pub client_player_ids: Vec<u64>,
}

/// Which client events are collected for.
#[derive(Clone, Copy, Debug, PartialEq, Eq, Structural)]
pub struct EventClientInfo {
    /// The entity id of the receiving client's player.
    pub client_player_id: u64,
}

/// An event the simulation emitted, dedupable and orderable by its id.
#[derive(Clone, Copy, Debug, PartialEq, Eq, Structural)]
pub enum GameEvent {
    PlayerJoined { id: u64 },
    PlayerLeft { id: u64 },
}

/// What the HUD renders for the local character.
#[derive(Clone, Copy, Debug, PartialEq, Eq, Structural)]
pub struct LocalCharacterRenderInfo {
    pub health: u64,
    pub armor: u64,
    pub ammo_of_weapon: u64,
}

/// What the scoreboard and browser show of one character.
#[derive(Clone, Copy, Debug, PartialEq, Eq, Structural)]
pub struct CharacterInfo {
    /// The stage the character lives in.
    pub stage_id: u64,
    pub score: u64,
    pub health: u64,
}

/// A command a client issues for one of its players.
#[derive(Clone, Debug)]
pub enum ClientCommand {
    /// Kill the character; it respawns in its stage.
    Kill,
    /// A chat line that starts with the command prefix, given without
    /// the prefix.
    Chat(String),
    /// A remote-console command, already authorized.
    Rcon(String),
}

/// What a client command decided. Work the simulation cannot do itself
/// (a database query, a reply to the user) is returned as a decision for
/// the caller to run; malformed commands are ignored.
#[derive(Clone, Copy, Debug, PartialEq, Eq, Structural)]
pub enum ClientCommandResult {
    /// The character died and respawned.
    Killed,
    /// The caller should fetch account information for this player.
    AccountInfoRequested { player_id: u64 },
    /// The caller should send server information to this player.
    InfoRequested { player_id: u64 },
    /// The character was granted full ammunition.
    AllWeapons,
    /// Unknown command or unknown player; ignored.
    Ignored,
}

/// Decoding a snapshot failed; the bytes are not a well-formed snapshot
/// encoding. Snapshots come from the network, so this is reported, never
/// a panic.
#[derive(Clone, Copy, Debug, PartialEq, Eq, Structural)]
pub enum SnapshotError {
    Malformed,
}

/// The character a freshly joined player starts with.
pub open spec fn spawn_character(stage_id: u64) -> Character {
    Character {
        stage_id,
        pos_x: 0,
        pos_y: 0,
        score: 0,
        health: 10,
        armor: 0,
        weapon: 1,
        ammo: 10,
        input_dir: DIR_NONE,
    }
}

/// One character of a prediction rebuild: the buffered input (if any) is
/// applied, then the character steps once.
pub open spec fn pred_char(p: (u64, Character), inps: Seq<(u64, u64)>) -> (u64, Character) {
    (
        p.0,
        step_character(
            match seq_get(inps, p.0) {
                Some(d) => Character { input_dir: d, ..p.1 },
                None => p.1,
            },
        ),
    )
}

/// The dual-copy game state: an authoritative copy rebuilt from server
/// snapshots, a prediction copy for look-ahead, and the shared monotonic
/// id allocator that only the authoritative side may advance.
pub struct GameState {
    /// The authoritative copy.
    pub game: Game,
    /// The prediction copy.
    pub pred_game: Game,
    /// Monotonic unique entity-id allocator; never advanced from
    /// prediction-only snapshots.
    pub id_generator: u64,
    /// Monotonic event-id allocator.
    pub event_id_generator: u64,
    /// Events emitted and not yet cleared, in emission order.
    pub events: Vec<(u64, GameEvent)>,
    /// The stage players join first.
    pub stage_0_id: u64,
}

impl GameState {
    /// Both copies are well formed; the authoritative ids stay below the
    /// shared allocator.
    pub open spec fn wf(&self) -> bool {
        &&& self.game.wf()
        &&& self.pred_game.wf()
        &&& wf_model(self.game.model(), self.id_generator)
        &&& wf_model_basic(self.pred_game.model())
    }

    /// Creates a fresh state with one empty default stage.
    pub fn new(_options: &GameStateCreateOptions) -> (r: (GameState, GameStateStaticInfo))
        ensures
            r.0.wf(),
            r.0.game.model().tick == 0,
            r.0.game.model().chars == Seq::<(u64, Character)>::empty(),
            r.0.game.model().stages == seq![(0u64, StageMeta { color: 0 })],
            r.0.id_generator == 1,
            r.0.stage_0_id == 0,
            r.0.event_id_generator == 0,
            r.0.events@ == Seq::<(u64, GameEvent)>::empty(),
            seq_get(r.0.game.model().stages, r.0.stage_0_id).is_some(),
            // the prediction copy starts empty; it is rebuilt from the
            // authoritative copy before any read
            r.0.pred_game.model().tick == 0,
            r.0.pred_game.model().stages == Seq::<(u64, StageMeta)>::empty(),
            r.0.pred_game.model().chars == Seq::<(u64, Character)>::empty(),
            r.1.ticks_in_a_second == TICKS_PER_SECOND,
    {
        let mut stages: TickMap<StageMeta> = TickMap::new();
        stages.push_back(0, StageMeta { color: 0 });
        let state = GameState {
            game: Game { tick_count: 0, stages, chars: TickMap::new() },
            pred_game: Game { tick_count: 0, stages: TickMap::new(), chars: TickMap::new() },
            id_generator: 1,
            event_id_generator: 0,
            events: Vec::new(),
            stage_0_id: 0,
        };
        proof {
            assert(state.game.model().stages =~= seq![(0u64, StageMeta { color: 0 })]);
            assert(seq_get(state.game.model().stages, 0) == Some(StageMeta { color: 0 }));
        }
        let info = GameStateStaticInfo {
            ticks_in_a_second: TICKS_PER_SECOND,
            mod_name: String::new(),
            version: String::new(),
            options: GameStateServerOptions {
                physics_group_name: String::new(),
                allow_stages: false,
                use_vanilla_sides: false,
                use_account_name: false,
            },
        };
        (state, info)
    }

    /// Ticks per second of this session.
    pub fn game_tick_speed(&self) -> (r: u64)
        ensures
            r == TICKS_PER_SECOND,
    {
        TICKS_PER_SECOND
    }

    /// One character step, executably.
    fn step_char_exec(c: Character) -> (r: Character)
        ensures
            r == step_character(c),
    {
        let new_x = if c.input_dir == DIR_LEFT {
            if c.pos_x > 0 {
                c.pos_x - 1
            } else {
                0
            }
        } else if c.input_dir == DIR_RIGHT {
            if c.pos_x < u64::MAX {
                c.pos_x + 1
            } else {
                u64::MAX
            }
        } else {
            c.pos_x
        };
        Character { pos_x: new_x, ..c }
    }

    /// Advances the authoritative copy by exactly one tick: every
    /// character performs its deterministic step and the tick counter
    /// grows by one. The prediction copy, the id allocator and the event
    /// queue are untouched.
    pub fn tick(&mut self)
        requires
            old(self).wf(),
        ensures
            final(self).wf(),
            final(self).game.model() == step_model(old(self).game.model()),
            final(self).pred_game == old(self).pred_game,
            final(self).id_generator == old(self).id_generator,
            final(self).event_id_generator == old(self).event_id_generator,
            final(self).events == old(self).events,
            final(self).stage_0_id == old(self).stage_0_id,
    {
        let n = self.game.chars.len();
        let mut i: usize = 0;
        while i < n
            invariant
                i <= n,
                n == self.game.chars@.len(),
                self.game.chars.wf(),
                self.game.chars@.len() == old(self).game.chars@.len(),
                forall|j: int|
                    0 <= j < i ==> #[trigger] self.game.chars@[j] == (
                    old(self).game.chars@[j].0,
                    step_character(old(self).game.chars@[j].1),
                ),
                forall|j: int|
                    i <= j < n ==> #[trigger] self.game.chars@[j] == old(self).game.chars@[j],
                self.game.stages == old(self).game.stages,
                self.game.tick_count == old(self).game.tick_count,
                self.pred_game == old(self).pred_game,
                self.id_generator == old(self).id_generator,
                self.event_id_generator == old(self).event_id_generator,
                self.events == old(self).events,
                self.stage_0_id == old(self).stage_0_id,
            decreases n - i,
        {
            let c = *self.game.chars.val_at(i);
            let stepped = Self::step_char_exec(c);
            self.game.chars.set_val_at(i, stepped);
            i = i + 1;
        }
        if self.game.tick_count < u64::MAX {
            self.game.tick_count = self.game.tick_count + 1;
        }
        proof {
            assert(self.game.chars@ =~= old(self).game.chars@.map_values(
                |p: (u64, Character)| (p.0, step_character(p.1)),
            ));
            assert(self.game.model() =~= step_model(old(self).game.model()));
            let m = self.game.model();
            let om = old(self).game.model();
            assert forall|j: int| 0 <= j < m.chars.len() implies seq_get(
                m.stages,
                (#[trigger] m.chars[j]).1.stage_id,
            ).is_some() by {
                assert(m.chars[j].1.stage_id == om.chars[j].1.stage_id);
            }
        }
    }

    /// One prediction tick. The prediction copy is rebuilt from the
    /// authoritative copy, the given per-player inputs are applied to it,
    /// and it advances one tick — in that order, so the inputs are never
    /// overwritten by the re-sync.
    ///
    /// The prediction re-sync ordering law is the second postcondition:
    /// the resulting prediction state equals the authoritative state with
    /// the inputs applied and then stepped once. The authoritative copy
    /// and the shared id allocator are untouched.
    pub fn pred_tick(&mut self, inputs: &TickMap<u64>)
        requires
            old(self).wf(),
            inputs.wf(),
        ensures
            final(self).wf(),
            final(self).pred_game.model() == step_model(
                apply_inputs_model(old(self).game.model(), inputs@),
            ),
            final(self).game == old(self).game,
            final(self).id_generator == old(self).id_generator,
            final(self).event_id_generator == old(self).event_id_generator,
            final(self).events == old(self).events,
            final(self).stage_0_id == old(self).stage_0_id,
    {
        let n = self.game.chars.len();
        let mut newchars: TickMap<Character> = TickMap::new();
        let mut i: usize = 0;
        while i < n
            invariant
                i <= n,
                n == self.game.chars@.len(),
                *self == *old(self),
                old(self).wf(),
                inputs.wf(),
                newchars.wf(),
                newchars@ =~= old(self).game.chars@.take(i as int).map_values(
                    |p: (u64, Character)| pred_char(p, inputs@),
                ),
            decreases n - i,
        {
            let key = self.game.chars.key_at(i);
            let c = *self.game.chars.val_at(i);
            let c2 = match inputs.get(key) {
                Some(d) => Character { input_dir: *d, ..c },
                None => c,
            };
            let stepped = Self::step_char_exec(c2);
            proof {
                assert forall|j: int| 0 <= j < newchars@.len() implies (#[trigger] newchars@[j]).0
                    < key by {
                    assert(newchars@[j].0 == old(self).game.chars@[j].0);
                }
            }
            newchars.push_back(key, stepped);
            proof {
                assert(newchars@ =~= old(self).game.chars@.take(i + 1).map_values(
                    |p: (u64, Character)| pred_char(p, inputs@),
                ));
            }
            i = i + 1;
        }
        let newstages = self.game.stages.duplicate();
        let t = if self.game.tick_count < u64::MAX {
            self.game.tick_count + 1
        } else {
            u64::MAX
        };
        self.pred_game = Game { tick_count: t, stages: newstages, chars: newchars };
        proof {
            assert(old(self).game.chars@.take(n as int) =~= old(self).game.chars@);
            let want = step_model(apply_inputs_model(old(self).game.model(), inputs@));
            assert(self.pred_game.model().chars =~= want.chars);
            assert(self.pred_game.model() =~= want);
            let m = self.pred_game.model();
            let om = old(self).game.model();
            assert forall|j: int| 0 <= j < m.chars.len() implies seq_get(
                m.stages,
                (#[trigger] m.chars[j]).1.stage_id,
            ).is_some() by {
                assert(m.chars[j] == pred_char(om.chars[j], inputs@));
                assert(m.chars[j].1.stage_id == om.chars[j].1.stage_id);
            }
            assert forall|a: int, b: int| 0 <= a < b < m.chars.len() implies (
            #[trigger] m.chars[a]).0 < (#[trigger] m.chars[b]).0 by {
                assert(m.chars[a].0 == om.chars[a].0 && m.chars[b].0 == om.chars[b].0);
            }
        }
    }

    /// Applies per-player movement inputs to the authoritative copy
    /// without advancing it; used when replaying buffered input over a
    /// freshly rebuilt authoritative state. Unknown ids are ignored.
    pub fn apply_player_inputs(&mut self, inputs: &TickMap<u64>)
        requires
            old(self).wf(),
            inputs.wf(),
        ensures
            final(self).wf(),
            final(self).game.model() == apply_inputs_model(old(self).game.model(), inputs@),
            final(self).game.tick_count == old(self).game.tick_count,
            final(self).pred_game == old(self).pred_game,
            final(self).id_generator == old(self).id_generator,
            final(self).event_id_generator == old(self).event_id_generator,
            final(self).events == old(self).events,
            final(self).stage_0_id == old(self).stage_0_id,
    {
        let n = self.game.chars.len();
        let mut i: usize = 0;
        while i < n
            invariant
                i <= n,
                n == self.game.chars@.len(),
                self.game.chars.wf(),
                inputs.wf(),
                forall|j: int|
                    0 <= j < i ==> #[trigger] self.game.chars@[j] == (
                    old(self).game.chars@[j].0,
                    match seq_get(inputs@, old(self).game.chars@[j].0) {
                        Some(d) => Character { input_dir: d, ..old(self).game.chars@[j].1 },
                        None => old(self).game.chars@[j].1,
                    },
                ),
                forall|j: int|
                    i <= j < n ==> #[trigger] self.game.chars@[j] == old(self).game.chars@[j],
                self.game.stages == old(self).game.stages,
                self.game.tick_count == old(self).game.tick_count,
                self.pred_game == old(self).pred_game,
                self.id_generator == old(self).id_generator,
                self.event_id_generator == old(self).event_id_generator,
                self.events == old(self).events,
                self.stage_0_id == old(self).stage_0_id,
            decreases n - i,
        {
            let key = self.game.chars.key_at(i);
            let c = *self.game.chars.val_at(i);
            let c2 = match inputs.get(key) {
                Some(d) => Character { input_dir: *d, ..c },
                None => c,
            };
            self.game.chars.set_val_at(i, c2);
            i = i + 1;
        }
        proof {
            assert(self.game.model().chars =~= apply_inputs_model(
                old(self).game.model(),
                inputs@,
            ).chars);
            assert(self.game.model() =~= apply_inputs_model(old(self).game.model(), inputs@));
            let m = self.game.model();
            let om = old(self).game.model();
            assert forall|j: int| 0 <= j < m.chars.len() implies seq_get(
                m.stages,
                (#[trigger] m.chars[j]).1.stage_id,
            ).is_some() && (#[trigger] m.chars[j]).0 < self.id_generator by {
                assert(m.chars[j].1.stage_id == om.chars[j].1.stage_id);
                assert(m.chars[j].0 == om.chars[j].0);
            }
        }
    }

    /// Serializes the authoritative copy into an opaque snapshot blob:
    /// the exact byte encoding of its model and the shared id allocator.
    /// Deterministic: equal states produce equal bytes.
    pub fn snapshot_for(&self, _client: &SnapshotClientInfo) -> (r: Vec<u8>)
        ensures
            r@ == encode_model(self.game.model(), self.id_generator),
    {
        let mut out: Vec<u8> = Vec::new();
        push_u64(&mut out, self.game.tick_count);
        push_u64(&mut out, self.id_generator);
        push_u64(&mut out, self.game.stages.len() as u64);
        push_u64(&mut out, self.game.chars.len() as u64);
        let ghost header = out@;
        let ns = self.game.stages.len();
        let mut i: usize = 0;
        while i < ns
            invariant
                i <= ns,
                ns == self.game.stages@.len(),
                out@ =~= header + enc_stages(self.game.stages@.take(i as int)),
            decreases ns - i,
        {
            let k = self.game.stages.key_at(i);
            let st = *self.game.stages.val_at(i);
            push_u64(&mut out, k);
            push_u64(&mut out, st.color);
            proof {
                let s = self.game.stages@;
                assert(s.take(i + 1) =~= s.take(i as int) + seq![s[i as int]]);
                lemma_enc_stages_append(s.take(i as int), seq![s[i as int]]);
                assert(seq![s[i as int]].drop_first() =~= Seq::<(u64, StageMeta)>::empty());
                assert(enc_stages(seq![s[i as int]]) =~= enc_stage_rec(s[i as int])
                    + enc_stages(Seq::<(u64, StageMeta)>::empty()));
                assert(enc_stages(seq![s[i as int]]) =~= enc_stage_rec(s[i as int]));
                assert(out@ =~= header + enc_stages(s.take(i + 1)));
            }
            i = i + 1;
        }
        proof {
            assert(self.game.stages@.take(ns as int) =~= self.game.stages@);
        }
        let ghost mid = out@;
        let nc = self.game.chars.len();
        let mut j: usize = 0;
        while j < nc
            invariant
                j <= nc,
                nc == self.game.chars@.len(),
                out@ =~= mid + enc_chars(self.game.chars@.take(j as int)),
            decreases nc - j,
        {
            let k = self.game.chars.key_at(j);
            let c = *self.game.chars.val_at(j);
            push_u64(&mut out, k);
            push_u64(&mut out, c.stage_id);
            push_u64(&mut out, c.pos_x);
            push_u64(&mut out, c.pos_y);
            push_u64(&mut out, c.score);
            push_u64(&mut out, c.health);
            push_u64(&mut out, c.armor);
            push_u64(&mut out, c.weapon);
            push_u64(&mut out, c.ammo);
            push_u64(&mut out, c.input_dir);
            proof {
                let s = self.game.chars@;
                assert(s.take(j + 1) =~= s.take(j as int) + seq![s[j as int]]);
                lemma_enc_chars_append(s.take(j as int), seq![s[j as int]]);
                assert(seq![s[j as int]].drop_first() =~= Seq::<(u64, Character)>::empty());
                assert(enc_chars(seq![s[j as int]]) =~= enc_char_rec(s[j as int]) + enc_chars(
                    Seq::<(u64, Character)>::empty(),
                ));
                assert(enc_chars(seq![s[j as int]]) =~= enc_char_rec(s[j as int]));
                assert(out@ =~= mid + enc_chars(s.take(j + 1)));
            }
            j = j + 1;
        }
        proof {
            assert(self.game.chars@.take(nc as int) =~= self.game.chars@);
            assert(out@ =~= encode_model(self.game.model(), self.id_generator));
        }
        out
    }

    /// Decodes a snapshot blob into a world copy, the id allocator it
    /// carries, and the list of character ids it holds. Succeeds exactly
    /// on the well-formed encodings that [`parse_model`] accepts; the
    /// decoded copy is well formed. Never panics on malformed bytes.
    #[verifier::loop_isolation(false)]
    fn decode_world(snap: &[u8]) -> (r: Result<(Game, u64, Vec<u64>), SnapshotError>)
        ensures
            match r {
                Ok(t) => {
                    &&& parse_model(snap@).is_some()
                    &&& parse_model(snap@).unwrap().0 == t.0.model()
                    &&& parse_model(snap@).unwrap().1 == t.1
                    &&& t.0.wf()
                    &&& wf_model(t.0.model(), t.1)
                    &&& t.2@ == t.0.model().chars.map_values(|p: (u64, Character)| p.0)
                },
                Err(e) => parse_model(snap@).is_none() && e == SnapshotError::Malformed,
            },
    {
        let snap_len = snap.len();
        if snap_len < SNAP_HEADER_BYTES {
            return Err(SnapshotError::Malformed);
        }
        let tick = read_u64(snap, 0);
        let idg = read_u64(snap, 8);
        let stage_cnt = read_u64(snap, 16);
        let char_cnt = read_u64(snap, 24);
        proof {
            assert(snap@.subrange(0, 8) =~= snap@.subrange(0, 8));
            assert(word_at(snap@, 0) == tick);
            assert(word_at(snap@, 8) == idg);
            assert(word_at(snap@, 16) == stage_cnt);
            assert(word_at(snap@, 24) == char_cnt);
        }
        let ghost outer = parse_stages(
            snap@.skip(SNAP_HEADER_BYTES as int),
            stage_cnt as nat,
            0,
            idg,
        );
        let mut stages: TickMap<StageMeta> = TickMap::new();
        let mut off: usize = SNAP_HEADER_BYTES;
        let mut si: u64 = 0;
        let mut next_lo: u64 = 0;
        proof {
            if outer.is_some() {
                assert(Seq::<(u64, StageMeta)>::empty() + outer.unwrap().0 =~= outer.unwrap().0);
            }
        }
        while si < stage_cnt
            invariant
                SNAP_HEADER_BYTES <= off <= snap_len,
                si <= stage_cnt,
                stages.wf(),
                stages@.len() == si,
                forall|j: int| 0 <= j < stages@.len() ==> (#[trigger] stages@[j]).0 < idg,
                forall|j: int| 0 <= j < stages@.len() ==> (#[trigger] stages@[j]).0 < next_lo,
                ({
                    let inner = parse_stages(
                        snap@.skip(off as int),
                        (stage_cnt - si) as nat,
                        next_lo as int,
                        idg,
                    );
                    &&& (inner.is_none() ==> outer.is_none())
                    &&& (inner.is_some() ==> outer.is_some() && outer.unwrap().0 =~= stages@
                        + inner.unwrap().0 && outer.unwrap().1 =~= inner.unwrap().1)
                }),
            decreases stage_cnt - si,
        {
            let ghost inner_old = parse_stages(
                snap@.skip(off as int),
                (stage_cnt - si) as nat,
                next_lo as int,
                idg,
            );
            if snap_len - off < STAGE_RECORD_BYTES {
                proof {
                    assert(snap@.skip(off as int).len() < STAGE_RECORD_BYTES);
                    assert(parse_stage_rec(snap@.skip(off as int)).is_none());
                    assert(inner_old.is_none());
                    assert(parse_model(snap@).is_none());
                }
                return Err(SnapshotError::Malformed);
            }
            let key = read_u64(snap, off);
            let color = read_u64(snap, off + 8);
            proof {
                assert(snap@.skip(off as int).subrange(0, 8) =~= snap@.subrange(
                    off as int,
                    off as int + 8,
                ));
                assert(snap@.skip(off as int).subrange(8, 16) =~= snap@.subrange(
                    off as int + 8,
                    off as int + 16,
                ));
                assert(snap@.skip(off as int).skip(STAGE_RECORD_BYTES as int) =~= snap@.skip(
                    off as int + STAGE_RECORD_BYTES,
                ));
                assert(word_at(snap@.skip(off as int), 0) == key);
                assert(word_at(snap@.skip(off as int), 8) == color);
            }
            if key < next_lo || key >= idg {
                proof {
                    assert(inner_old.is_none());
                    assert(parse_model(snap@).is_none());
                }
                return Err(SnapshotError::Malformed);
            }
            let ghost inner_new = parse_stages(
                snap@.skip(off as int + STAGE_RECORD_BYTES),
                (stage_cnt - si - 1) as nat,
                key + 1,
                idg,
            );
            proof {
                let p = (key, StageMeta { color });
                if inner_new.is_none() {
                    assert(inner_old.is_none());
                    assert(outer.is_none());
                } else {
                    assert(inner_old.is_some());
                    assert(inner_old.unwrap().0 =~= seq![p] + inner_new.unwrap().0);
                    assert(inner_old.unwrap().1 =~= inner_new.unwrap().1);
                    assert(outer.is_some());
                    assert(outer.unwrap().0 =~= stages@ + (seq![p] + inner_new.unwrap().0));
                    assert(stages@ + (seq![p] + inner_new.unwrap().0) =~= stages@.push(p)
                        + inner_new.unwrap().0);
                }
            }
            stages.push_back(key, StageMeta { color });
            off = off + STAGE_RECORD_BYTES;
            si = si + 1;
            next_lo = key + 1;
        }
        proof {
            let inner = parse_stages(snap@.skip(off as int), 0, next_lo as int, idg);
            assert(inner.is_some());
            assert(inner.unwrap().0 =~= Seq::<(u64, StageMeta)>::empty());
            assert(inner.unwrap().1 =~= snap@.skip(off as int));
            assert(outer.is_some());
            assert(outer.unwrap().0 =~= stages@ + Seq::<(u64, StageMeta)>::empty());
            assert(stages@ + Seq::<(u64, StageMeta)>::empty() =~= stages@);
            assert(outer.unwrap().0 =~= stages@);
            assert(outer.unwrap().1 =~= snap@.skip(off as int));
        }
        let ghost outer_c = parse_chars(snap@.skip(off as int), char_cnt as nat, 0, idg, stages@);
        let ghost stages_done = stages@;
        let ghost off_stages_done = off as int;
        let mut chars: TickMap<Character> = TickMap::new();
        let mut ids: Vec<u64> = Vec::new();
        let mut ci: u64 = 0;
        let mut next_clo: u64 = 0;
        proof {
            if outer_c.is_some() {
                assert(Seq::<(u64, Character)>::empty() + outer_c.unwrap().0 =~= outer_c.unwrap().0);
            }
        }
        while ci < char_cnt
            invariant
                off_stages_done <= off <= snap_len,
                ci <= char_cnt,
                chars.wf(),
                chars@.len() == ci,
                stages@ == stages_done,
                ids@ =~= chars@.map_values(|p: (u64, Character)| p.0),
                forall|j: int| 0 <= j < chars@.len() ==> (#[trigger] chars@[j]).0 < idg,
                forall|j: int| 0 <= j < chars@.len() ==> (#[trigger] chars@[j]).0 < next_clo,
                forall|j: int|
                    0 <= j < chars@.len() ==> seq_get(
                        stages_done,
                        (#[trigger] chars@[j]).1.stage_id,
                    ).is_some(),
                ({
                    let inner = parse_chars(
                        snap@.skip(off as int),
                        (char_cnt - ci) as nat,
                        next_clo as int,
                        idg,
                        stages_done,
                    );
                    &&& (inner.is_none() ==> outer_c.is_none())
                    &&& (inner.is_some() ==> outer_c.is_some() && outer_c.unwrap().0 =~= chars@
                        + inner.unwrap().0 && outer_c.unwrap().1 =~= inner.unwrap().1)
                }),
            decreases char_cnt - ci,
        {
            let ghost inner_old = parse_chars(
                snap@.skip(off as int),
                (char_cnt - ci) as nat,
                next_clo as int,
                idg,
                stages_done,
            );
            if snap_len - off < CHAR_RECORD_BYTES {
                proof {
                    assert(snap@.skip(off as int).len() < CHAR_RECORD_BYTES);
                    assert(parse_char_rec(snap@.skip(off as int)).is_none());
                    assert(inner_old.is_none());
                    assert(parse_model(snap@).is_none());
                }
                return Err(SnapshotError::Malformed);
            }
            let key = read_u64(snap, off);
            let c = Character {
                stage_id: read_u64(snap, off + 8),
                pos_x: read_u64(snap, off + 16),
                pos_y: read_u64(snap, off + 24),
                score: read_u64(snap, off + 32),
                health: read_u64(snap, off + 40),
                armor: read_u64(snap, off + 48),
                weapon: read_u64(snap, off + 56),
                ammo: read_u64(snap, off + 64),
                input_dir: read_u64(snap, off + 72),
            };
            proof {
                let bb = snap@.skip(off as int);
                assert(bb.subrange(0, 8) =~= snap@.subrange(off as int, off as int + 8));
                assert(bb.subrange(8, 16) =~= snap@.subrange(off as int + 8, off as int + 16));
                assert(bb.subrange(16, 24) =~= snap@.subrange(off as int + 16, off as int + 24));
                assert(bb.subrange(24, 32) =~= snap@.subrange(off as int + 24, off as int + 32));
                assert(bb.subrange(32, 40) =~= snap@.subrange(off as int + 32, off as int + 40));
                assert(bb.subrange(40, 48) =~= snap@.subrange(off as int + 40, off as int + 48));
                assert(bb.subrange(48, 56) =~= snap@.subrange(off as int + 48, off as int + 56));
                assert(bb.subrange(56, 64) =~= snap@.subrange(off as int + 56, off as int + 64));
                assert(bb.subrange(64, 72) =~= snap@.subrange(off as int + 64, off as int + 72));
                assert(bb.subrange(72, 80) =~= snap@.subrange(off as int + 72, off as int + 80));
                assert(bb.skip(CHAR_RECORD_BYTES as int) =~= snap@.skip(
                    off as int + CHAR_RECORD_BYTES,
                ));
                assert(parse_char_rec(bb) == Some(
                    ((key, c), snap@.skip(off as int + CHAR_RECORD_BYTES)),
                ));
            }
            let stage_known = stages.contains_key(c.stage_id);
            if key < next_clo || key >= idg || !stage_known {
                proof {
                    assert(inner_old.is_none());
                    assert(parse_model(snap@).is_none());
                }
                return Err(SnapshotError::Malformed);
            }
            let ghost inner_new = parse_chars(
                snap@.skip(off as int + CHAR_RECORD_BYTES),
                (char_cnt - ci - 1) as nat,
                key + 1,
                idg,
                stages_done,
            );
            proof {
                let p = (key, c);
                if inner_new.is_none() {
                    assert(inner_old.is_none());
                    assert(outer_c.is_none());
                } else {
                    assert(inner_old.is_some());
                    assert(inner_old.unwrap().0 =~= seq![p] + inner_new.unwrap().0);
                    assert(inner_old.unwrap().1 =~= inner_new.unwrap().1);
                    assert(outer_c.is_some());
                    assert(outer_c.unwrap().0 =~= chars@ + (seq![p] + inner_new.unwrap().0));
                    assert(chars@ + (seq![p] + inner_new.unwrap().0) =~= chars@.push(p)
                        + inner_new.unwrap().0);
                }
            }
            chars.push_back(key, c);
            ids.push(key);
            proof {
                assert(ids@ =~= chars@.map_values(|p: (u64, Character)| p.0));
            }
            off = off + CHAR_RECORD_BYTES;
            ci = ci + 1;
            next_clo = key + 1;
        }
        proof {
            let inner = parse_chars(snap@.skip(off as int), 0, next_clo as int, idg, stages_done);
            assert(inner.is_some());
            assert(inner.unwrap().0 =~= Seq::<(u64, Character)>::empty());
            assert(outer_c.is_some());
            assert(outer_c.unwrap().0 =~= chars@ + Seq::<(u64, Character)>::empty());
            assert(chars@ + Seq::<(u64, Character)>::empty() =~= chars@);
            assert(outer_c.unwrap().0 =~= chars@);
            assert(outer_c.unwrap().1 =~= snap@.skip(off as int));
        }
        if off != snap_len {
            proof {
                assert(outer_c.unwrap().1.len() > 0);
                assert(parse_model(snap@).is_none());
            }
            return Err(SnapshotError::Malformed);
        }
        let world = Game { tick_count: tick, stages, chars };
        proof {
            assert(outer_c.unwrap().1.len() == 0);
            assert(parse_model(snap@).is_some());
            assert(parse_model(snap@).unwrap().0 =~= world.model());
            assert(parse_model(snap@).unwrap().1 == idg);
        }
        Ok((world, idg, ids))
    }

    /// Rebuilds the authoritative copy from a snapshot: full overwrite
    /// semantics, tolerant of snapshots from the past or the future. The
    /// shared id allocator only ever moves forward. Returns the entity
    /// ids the snapshot holds; a malformed snapshot is reported and
    /// leaves the state untouched.
    pub fn build_from_snapshot(&mut self, snap: &[u8]) -> (r: Result<Vec<u64>, SnapshotError>)
        requires
            old(self).wf(),
        ensures
            final(self).wf(),
            match r {
                Ok(ids) => {
                    &&& parse_model(snap@).is_some()
                    &&& final(self).game.model() == parse_model(snap@).unwrap().0
                    &&& final(self).id_generator == (if old(self).id_generator >= parse_model(
                        snap@,
                    ).unwrap().1 {
                        old(self).id_generator
                    } else {
                        parse_model(snap@).unwrap().1
                    })
                    &&& ids@ == final(self).game.model().chars.map_values(
                        |p: (u64, Character)| p.0,
                    )
                    &&& final(self).pred_game == old(self).pred_game
                    &&& final(self).events == old(self).events
                    &&& final(self).event_id_generator == old(self).event_id_generator
                    &&& final(self).stage_0_id == old(self).stage_0_id
                },
                Err(_) => parse_model(snap@).is_none() && *final(self) == *old(self),
            },
    {
        match Self::decode_world(snap) {
            Ok((world, idg, ids)) => {
                proof {
                    let m = world.model();
                    if self.id_generator >= idg {
                        assert(wf_model(m, self.id_generator)) by {
                            assert(forall|i: int|
                                0 <= i < m.stages.len() ==> (#[trigger] m.stages[i]).0 < idg);
                            assert(forall|i: int|
                                0 <= i < m.chars.len() ==> (#[trigger] m.chars[i]).0 < idg);
                        }
                    }
                }
                self.game = world;
                if idg > self.id_generator {
                    self.id_generator = idg;
                }
                Ok(ids)
            },
            Err(e) => Err(e),
        }
    }

    /// Rebuilds only the prediction copy from a snapshot; the
    /// authoritative copy and in particular the shared id allocator are
    /// never advanced from prediction-only snapshots.
    pub fn build_from_snapshot_for_pred(&mut self, snap: &[u8]) -> (r: Result<(), SnapshotError>)
        requires
            old(self).wf(),
        ensures
            final(self).wf(),
            final(self).game == old(self).game,
            final(self).id_generator == old(self).id_generator,
            final(self).event_id_generator == old(self).event_id_generator,
            final(self).events == old(self).events,
            final(self).stage_0_id == old(self).stage_0_id,
            match r {
                Ok(_) => parse_model(snap@).is_some() && final(self).pred_game.model()
                    == parse_model(snap@).unwrap().0,
                Err(_) => parse_model(snap@).is_none() && *final(self) == *old(self),
            },
    {
        match Self::decode_world(snap) {
            Ok((world, _idg, _ids)) => {
                self.pred_game = world;
                Ok(())
            },
            Err(e) => Err(e),
        }
    }

    /// Sets one player's movement input on the authoritative copy. Safe
    /// to call with an unknown id: the state is then unchanged.
    pub fn set_player_input(&mut self, player_id: u64, dir: u64)
        requires
            old(self).wf(),
            dir <= 2,
        ensures
            final(self).wf(),
            final(self).game.model() == apply_inputs_model(
                old(self).game.model(),
                seq![(player_id, dir)],
            ),
            final(self).game.tick_count == old(self).game.tick_count,
            final(self).pred_game == old(self).pred_game,
            final(self).id_generator == old(self).id_generator,
            final(self).event_id_generator == old(self).event_id_generator,
            final(self).events == old(self).events,
            final(self).stage_0_id == old(self).stage_0_id,
    {
        let ghost olds = self.game.chars@;
        let found = match self.game.chars.get(player_id) {
            Some(c) => Some(*c),
            None => None,
        };
        match found {
            Some(c) => {
                proof {
                    crate::tickmap::lemma_seq_get_some_index(olds, player_id);
                    let i = choose|i: int|
                        0 <= i < olds.len() && #[trigger] olds[i] == (
                        player_id,
                        seq_get(olds, player_id).unwrap(),
                        );
                    crate::tickmap::lemma_index_is_lower_bound(olds, i, player_id);
                }
                let c2 = Character { input_dir: dir, ..c };
                self.game.chars.insert(player_id, c2);
                proof {
                    let news = self.game.chars@;
                    let lb = crate::tickmap::lower_bound(olds, player_id);
                    assert(olds[lb] == (player_id, c));
                    assert(news =~= olds.update(lb, (player_id, c2)));
                    assert(news =~= apply_inputs_model(
                        old(self).game.model(),
                        seq![(player_id, dir)],
                    ).chars) by {
                        assert forall|j: int| 0 <= j < news.len() implies #[trigger] news[j]
                            == apply_inputs_model(
                            old(self).game.model(),
                            seq![(player_id, dir)],
                        ).chars[j] by {
                            let single = seq![(player_id, dir)];
                            if j != lb {
                                assert(olds[j].0 != player_id);
                                assert(single.drop_first() =~= Seq::<(u64, u64)>::empty());
                                assert(seq_get(Seq::<(u64, u64)>::empty(), olds[j].0).is_none());
                                assert(seq_get(single, olds[j].0).is_none());
                            } else {
                                assert(seq_get(single, player_id) == Some(dir));
                            }
                        }
                    }
                    assert(self.game.model() =~= apply_inputs_model(
                        old(self).game.model(),
                        seq![(player_id, dir)],
                    ));
                    let m = self.game.model();
                    assert forall|j: int| 0 <= j < m.chars.len() implies seq_get(
                        m.stages,
                        (#[trigger] m.chars[j]).1.stage_id,
                    ).is_some() by {
                        assert(m.chars[j].1.stage_id == olds[j].1.stage_id);
                        assert(seq_get(old(self).game.model().stages, olds[j].1.stage_id).is_some());
                    }
                    assert forall|j: int| 0 <= j < m.chars.len() implies (#[trigger] m.chars[j]).0
                        < self.id_generator by {
                        assert(m.chars[j].0 == olds[j].0);
                    }
                }
            },
            None => {
                proof {
                    crate::tickmap::lemma_seq_get_none_no_index(olds, player_id);
                    assert(self.game.model().chars =~= apply_inputs_model(
                        old(self).game.model(),
                        seq![(player_id, dir)],
                    ).chars) by {
                        assert forall|j: int| 0 <= j < olds.len() implies #[trigger] olds[j]
                            == apply_inputs_model(
                            old(self).game.model(),
                            seq![(player_id, dir)],
                        ).chars[j] by {
                            let single = seq![(player_id, dir)];
                            assert(olds[j].0 != player_id);
                            assert(single.drop_first() =~= Seq::<(u64, u64)>::empty());
                            assert(seq_get(Seq::<(u64, u64)>::empty(), olds[j].0).is_none());
                            assert(seq_get(single, olds[j].0).is_none());
                        }
                    }
                    assert(self.game.model() =~= apply_inputs_model(
                        old(self).game.model(),
                        seq![(player_id, dir)],
                    ));
                }
            },
        }
    }

    /// A new player joins: a character spawns in the default stage under
    /// a fresh id from the shared allocator, and a join event is queued.
    pub fn player_join(&mut self) -> (r: u64)
        requires
            old(self).wf(),
            old(self).id_generator < u64::MAX,
            old(self).event_id_generator < u64::MAX,
            seq_get(old(self).game.model().stages, old(self).stage_0_id).is_some(),
        ensures
            final(self).wf(),
            r == old(self).id_generator,
            final(self).id_generator == old(self).id_generator + 1,
            final(self).game.model().stages == old(self).game.model().stages,
            final(self).game.model().tick == old(self).game.model().tick,
            final(self).game.model().chars == old(self).game.model().chars.push(
                (r, spawn_character(old(self).stage_0_id)),
            ),
            final(self).events@ == old(self).events@.push(
                (old(self).event_id_generator, GameEvent::PlayerJoined { id: r }),
            ),
            final(self).event_id_generator == old(self).event_id_generator + 1,
            final(self).pred_game == old(self).pred_game,
            final(self).stage_0_id == old(self).stage_0_id,
    {
        let id = self.id_generator;
        self.id_generator = self.id_generator + 1;
        let c = Character {
            stage_id: self.stage_0_id,
            pos_x: 0,
            pos_y: 0,
            score: 0,
            health: 10,
            armor: 0,
            weapon: 1,
            ammo: 10,
            input_dir: DIR_NONE,
        };
        proof {
            assert(forall|j: int|
                0 <= j < self.game.chars@.len() ==> (#[trigger] self.game.chars@[j]).0 < id);
        }
        let ghost olds = self.game.chars@;
        self.game.chars.push_back(id, c);
        self.events.push((self.event_id_generator, GameEvent::PlayerJoined { id }));
        self.event_id_generator = self.event_id_generator + 1;
        proof {
            let m = self.game.model();
            assert(m.chars =~= olds.push((id, c)));
            assert forall|j: int| 0 <= j < m.chars.len() implies seq_get(
                m.stages,
                (#[trigger] m.chars[j]).1.stage_id,
            ).is_some() by {
                if j < olds.len() {
                    assert(m.chars[j] == olds[j]);
                    assert(seq_get(old(self).game.model().stages, olds[j].1.stage_id).is_some());
                } else {
                    assert(m.chars[j] == (id, c));
                }
            }
            assert forall|j: int| 0 <= j < m.chars.len() implies (#[trigger] m.chars[j]).0
                < self.id_generator by {
                if j < olds.len() {
                    assert(m.chars[j] == olds[j]);
                }
            }
            assert forall|j: int| 0 <= j < m.stages.len() implies (#[trigger] m.stages[j]).0
                < self.id_generator by {}
        }
        id
    }

    /// A player leaves: its character is removed wherever it lives and a
    /// leave event is queued if it existed. Safe to call with an unknown
    /// or stale id.
    pub fn player_drop(&mut self, player_id: u64)
        requires
            old(self).wf(),
            old(self).event_id_generator < u64::MAX,
        ensures
            final(self).wf(),
            final(self).game.model().stages == old(self).game.model().stages,
            final(self).game.model().tick == old(self).game.model().tick,
            seq_get(final(self).game.model().chars, player_id).is_none(),
            forall|k: u64|
                k != player_id ==> seq_get(final(self).game.model().chars, k) == seq_get(
                    old(self).game.model().chars,
                    k,
                ),
            seq_get(old(self).game.model().chars, player_id).is_some() ==> final(self).events@
                == old(self).events@.push(
                (old(self).event_id_generator, GameEvent::PlayerLeft { id: player_id }),
            ) && final(self).event_id_generator == old(self).event_id_generator + 1,
            seq_get(old(self).game.model().chars, player_id).is_none() ==> final(self).game.model()
                == old(self).game.model() && final(self).events == old(self).events
                && final(self).event_id_generator == old(self).event_id_generator,
            final(self).pred_game == old(self).pred_game,
            final(self).id_generator == old(self).id_generator,
            final(self).stage_0_id == old(self).stage_0_id,
    {
        let ghost olds = self.game.chars@;
        let removed = self.game.chars.remove(player_id);
        proof {
            assert forall|k2: u64| k2 != player_id implies seq_get(self.game.chars@, k2)
                == seq_get(olds, k2) by {
                assert(self.game.chars.spec_get(k2) == old(self).game.chars.spec_get(k2));
            }
            assert(seq_get(self.game.chars@, player_id).is_none()) by {
                assert(self.game.chars.spec_get(player_id).is_none());
            }
        }
        if removed.is_some() {
            self.events.push((self.event_id_generator, GameEvent::PlayerLeft { id: player_id }));
            self.event_id_generator = self.event_id_generator + 1;
            proof {
                let m = self.game.model();
                let lb = crate::tickmap::lower_bound(olds, player_id);
                crate::tickmap::lemma_seq_get_some_index(olds, player_id);
                let i0 = choose|i: int|
                    0 <= i < olds.len() && #[trigger] olds[i] == (
                    player_id,
                    seq_get(olds, player_id).unwrap(),
                    );
                crate::tickmap::lemma_index_is_lower_bound(olds, i0, player_id);
                assert(0 <= lb < olds.len());
                assert(m.chars =~= olds.take(lb) + olds.skip(lb + 1));
                assert forall|j: int| 0 <= j < m.chars.len() implies seq_get(
                    m.stages,
                    (#[trigger] m.chars[j]).1.stage_id,
                ).is_some() && (#[trigger] m.chars[j]).0 < self.id_generator by {
                    if j < lb {
                        assert(m.chars[j] == olds[j]);
                    } else {
                        assert(m.chars[j] == olds[j + 1]);
                    }
                }
            }
        }
    }

    /// The queued events, in emission order. Does not consume them; the
    /// caller signals consumption through [`GameState::clear_events`].
    pub fn events_for(&self, _client: &EventClientInfo) -> (r: Vec<(u64, GameEvent)>)
        ensures
            r@ == self.events@,
    {
        let n = self.events.len();
        let mut out: Vec<(u64, GameEvent)> = Vec::new();
        let mut i: usize = 0;
        while i < n
            invariant
                i <= n,
                n == self.events@.len(),
                out@ =~= self.events@.take(i as int),
            decreases n - i,
        {
            let e = self.events[i];
            out.push(e);
            i = i + 1;
        }
        proof {
            assert(self.events@.take(n as int) =~= self.events@);
        }
        out
    }

    /// Discards the queued events. Idempotent: a second call is a no-op.
    pub fn clear_events(&mut self)
        requires
            old(self).wf(),
        ensures
            final(self).wf(),
            final(self).events@ == Seq::<(u64, GameEvent)>::empty(),
            final(self).game == old(self).game,
            final(self).pred_game == old(self).pred_game,
            final(self).id_generator == old(self).id_generator,
            final(self).event_id_generator == old(self).event_id_generator,
            final(self).stage_0_id == old(self).stage_0_id,
    {
        self.events = Vec::new();
    }

    /// Aligns the event-id allocator with an id observed from the
    /// server; it only ever moves forward.
    pub fn sync_event_id(&mut self, event_id: u64)
        requires
            old(self).wf(),
        ensures
            final(self).wf(),
            final(self).event_id_generator == (if old(self).event_id_generator >= event_id {
                old(self).event_id_generator
            } else {
                event_id
            }),
            final(self).game == old(self).game,
            final(self).pred_game == old(self).pred_game,
            final(self).id_generator == old(self).id_generator,
            final(self).events == old(self).events,
            final(self).stage_0_id == old(self).stage_0_id,
    {
        if event_id > self.event_id_generator {
            self.event_id_generator = event_id;
        }
    }

    /// Replaces one character's value wholesale; unknown ids are a
    /// no-op. The building block of death, respawn and cheats.
    fn replace_char(&mut self, player_id: u64, make: Character)
        requires
            old(self).wf(),
            seq_get(old(self).game.model().stages, make.stage_id).is_some(),
        ensures
            final(self).wf(),
            match seq_get(old(self).game.model().chars, player_id) {
                Some(_) => seq_get(final(self).game.model().chars, player_id) == Some(make),
                None => seq_get(final(self).game.model().chars, player_id).is_none(),
            },
            forall|k: u64|
                k != player_id ==> #[trigger] seq_get(final(self).game.model().chars, k)
                    == seq_get(old(self).game.model().chars, k),
            final(self).game.model().stages == old(self).game.model().stages,
            final(self).game.tick_count == old(self).game.tick_count,
            final(self).pred_game == old(self).pred_game,
            final(self).id_generator == old(self).id_generator,
            final(self).event_id_generator == old(self).event_id_generator,
            final(self).events == old(self).events,
            final(self).stage_0_id == old(self).stage_0_id,
    {
        let ghost olds = self.game.chars@;
        let present = self.game.chars.contains_key(player_id);
        if present {
            proof {
                crate::tickmap::lemma_seq_get_some_index(olds, player_id);
                let i0 = choose|i: int|
                    0 <= i < olds.len() && #[trigger] olds[i] == (
                    player_id,
                    seq_get(olds, player_id).unwrap(),
                    );
                crate::tickmap::lemma_index_is_lower_bound(olds, i0, player_id);
            }
            self.game.chars.insert(player_id, make);
            proof {
                let news = self.game.chars@;
                let lb = crate::tickmap::lower_bound(olds, player_id);
                assert(news =~= olds.update(lb, (player_id, make)));
                assert(seq_get(news, player_id) == Some(make)) by {
                    assert(self.game.chars.spec_get(player_id) == Some(make));
                }
                assert forall|k: u64| k != player_id implies #[trigger] seq_get(news, k)
                    == seq_get(olds, k) by {
                    assert(self.game.chars.spec_get(k) == seq_get(olds, k));
                }
                let m = self.game.model();
                assert forall|j: int| 0 <= j < m.chars.len() implies seq_get(
                    m.stages,
                    (#[trigger] m.chars[j]).1.stage_id,
                ).is_some() && (#[trigger] m.chars[j]).0 < self.id_generator by {
                    if j != lb {
                        assert(m.chars[j] == olds[j]);
                    } else {
                        assert(m.chars[j] == (player_id, make));
                        assert(olds[j].0 == player_id);
                    }
                }
            }
        } else {
            proof {
                crate::tickmap::lemma_seq_get_none_no_index(olds, player_id);
            }
        }
    }

    /// Handles one client command: a kill respawns the character, known
    /// chat and remote-console commands return their decision, anything
    /// malformed or referencing an unknown player is ignored without a
    /// panic.
    pub fn client_command(&mut self, player_id: u64, cmd: &ClientCommand) -> (r:
        ClientCommandResult)
        requires
            old(self).wf(),
        ensures
            final(self).wf(),
            final(self).pred_game == old(self).pred_game,
            final(self).id_generator == old(self).id_generator,
            final(self).event_id_generator == old(self).event_id_generator,
            final(self).events == old(self).events,
            final(self).stage_0_id == old(self).stage_0_id,
            final(self).game.tick_count == old(self).game.tick_count,
            final(self).game.model().stages == old(self).game.model().stages,
            match cmd {
                ClientCommand::Kill => match seq_get(old(self).game.model().chars, player_id) {
                    Some(c) => r == ClientCommandResult::Killed && seq_get(
                        final(self).game.model().chars,
                        player_id,
                    ) == Some(spawn_character(c.stage_id)) && (forall|k: u64|
                        k != player_id ==> #[trigger] seq_get(final(self).game.model().chars, k)
                            == seq_get(old(self).game.model().chars, k)),
                    None => r == ClientCommandResult::Ignored && final(self).game == old(
                        self,
                    ).game,
                },
                ClientCommand::Chat(raw) => final(self).game == old(self).game && r == (if raw@
                    == "account_info"@ && seq_get(
                    old(self).game.model().chars,
                    player_id,
                ).is_some() {
                    ClientCommandResult::AccountInfoRequested { player_id }
                } else {
                    ClientCommandResult::Ignored
                }),
                ClientCommand::Rcon(raw) => {
                    if raw@ == "info"@ {
                        final(self).game == old(self).game && r == (
                        ClientCommandResult::InfoRequested { player_id })
                    } else if raw@ == "cheat.all_weapons"@ {
                        match seq_get(old(self).game.model().chars, player_id) {
                            Some(c) => r == ClientCommandResult::AllWeapons && seq_get(
                                final(self).game.model().chars,
                                player_id,
                            ) == Some(Character { ammo: 10, ..c }) && (forall|k: u64|
                                k != player_id ==> #[trigger] seq_get(
                                    final(self).game.model().chars,
                                    k,
                                ) == seq_get(old(self).game.model().chars, k)),
                            None => r == ClientCommandResult::Ignored && final(self).game == old(
                                self,
                            ).game,
                        }
                    } else {
                        final(self).game == old(self).game && r == ClientCommandResult::Ignored
                    }
                },
            },
    {
        match cmd {
            ClientCommand::Kill => {
                match self.game.chars.get(player_id) {
                    Some(c) => {
                        let stage_id = c.stage_id;
                        proof {
                            crate::tickmap::lemma_seq_get_some_index(self.game.chars@, player_id);
                        }
                        let fresh = Character {
                            stage_id,
                            pos_x: 0,
                            pos_y: 0,
                            score: 0,
                            health: 10,
                            armor: 0,
                            weapon: 1,
                            ammo: 10,
                            input_dir: DIR_NONE,
                        };
                        self.replace_char(player_id, fresh);
                        ClientCommandResult::Killed
                    },
                    None => ClientCommandResult::Ignored,
                }
            },
            ClientCommand::Chat(raw) => {
                let account_info_cmd = String::from_str("account_info");
                if *raw == account_info_cmd && self.game.chars.contains_key(player_id) {
                    ClientCommandResult::AccountInfoRequested { player_id }
                } else {
                    ClientCommandResult::Ignored
                }
            },
            ClientCommand::Rcon(raw) => {
                let info_cmd = String::from_str("info");
                let cheat_cmd = String::from_str("cheat.all_weapons");
                if *raw == info_cmd {
                    ClientCommandResult::InfoRequested { player_id }
                } else if *raw == cheat_cmd {
                    match self.game.chars.get(player_id) {
                        Some(c) => {
                            let granted = Character { ammo: 10, ..*c };
                            proof {
                                crate::tickmap::lemma_seq_get_some_index(
                                    self.game.chars@,
                                    player_id,
                                );
                            }
                            self.replace_char(player_id, granted);
                            ClientCommandResult::AllWeapons
                        },
                        None => ClientCommandResult::Ignored,
                    }
                } else {
                    ClientCommandResult::Ignored
                }
            },
        }
    }

    /// What the scoreboard and browser show of every character: its
    /// stage, score and health, keyed by entity id, in id order.
    pub fn collect_characters_info(&self) -> (r: Vec<(u64, CharacterInfo)>)
        ensures
            r@ == self.game.model().chars.map_values(
                |p: (u64, Character)|
                    (
                        p.0,
                        CharacterInfo {
                            stage_id: p.1.stage_id,
                            score: p.1.score,
                            health: p.1.health,
                        },
                    ),
            ),
    {
        let n = self.game.chars.len();
        let mut out: Vec<(u64, CharacterInfo)> = Vec::new();
        let mut i: usize = 0;
        while i < n
            invariant
                i <= n,
                n == self.game.chars@.len(),
                out@ =~= self.game.chars@.take(i as int).map_values(
                    |p: (u64, Character)|
                        (
                            p.0,
                            CharacterInfo {
                                stage_id: p.1.stage_id,
                                score: p.1.score,
                                health: p.1.health,
                            },
                        ),
                ),
            decreases n - i,
        {
            let k = self.game.chars.key_at(i);
            let c = *self.game.chars.val_at(i);
            out.push((k, CharacterInfo { stage_id: c.stage_id, score: c.score, health: c.health }));
            proof {
                assert(self.game.chars@.take(i + 1) =~= self.game.chars@.take(i as int).push(
                    self.game.chars@[i as int],
                ));
            }
            i = i + 1;
        }
        proof {
            assert(self.game.chars@.take(n as int) =~= self.game.chars@);
        }
        out
    }

    /// What the HUD shows for one player's character; zeros for an
    /// unknown id rather than a panic.
    pub fn collect_character_local_render_info(&self, player_id: u64) -> (r:
        LocalCharacterRenderInfo)
        ensures
            match seq_get(self.game.model().chars, player_id) {
                Some(c) => r == (LocalCharacterRenderInfo {
                    health: c.health,
                    armor: c.armor,
                    ammo_of_weapon: c.ammo,
                }),
                None => r == (LocalCharacterRenderInfo { health: 0, armor: 0, ammo_of_weapon: 0 }),
            },
    {
        match self.game.chars.get(player_id) {
            Some(c) => LocalCharacterRenderInfo {
                health: c.health,
                armor: c.armor,
                ammo_of_weapon: c.ammo,
            },
            None => LocalCharacterRenderInfo { health: 0, armor: 0, ammo_of_weapon: 0 },
        }
    }
}

} // verus!
