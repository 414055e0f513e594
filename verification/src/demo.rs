//! Demo recording and playback: chunked, diff-compressed snapshot and
//! event streams in a seekable container.
//!
//! A demo file holds a fixed header, a variable extended header, a run of
//! chunks, and a tail index mapping each chunk's first tick to its byte
//! offset. A chunk is a count-prefixed run of (tick, payload) records:
//! the first record carries its data absolute, every later one carries a
//! patch against the previous record's decoded data; the whole run is
//! zstd-compressed and length-prefixed. The tail index requires chunk
//! first-ticks to be monotonic, which the writer enforces as a hard
//! invariant.

use vstd::prelude::*;
use vstd::bytes::{lemma_auto_spec_u64_to_from_le_bytes, spec_u64_to_le_bytes};
use crate::codec::{
    compress, copy_bytes, decompress, diff, diff_spec, lemma_patch_of_diff, patch, patch_spec,
    push_u64, read_u64, zstd_frame_of,
};
use crate::reconcile::{sat_add, sat_sub};
use crate::state::{parse_model, word_at, GameState};
use crate::tickmap::{seq_get, sorted_pairs, upper_bound, TickMap};
use crate::NANOS_PER_SEC;

verus! {

/// Entries accumulated before a chunk is considered for flushing
/// (thirty seconds' worth at the default tick rate).
pub const DATA_PER_CHUNK_TO_WRITE: u64 = 1500;

/// Time span in seconds that stays resident so that late or reordered
/// packets can still land in the demo.
pub const SECONDS_UNTIL_WRITE: u64 = 3;

/// The fixed-size header at the front of a demo. A demo whose
/// `size_chunks` is zero was never completed and is treated as broken.
#[derive(Clone, Copy, Debug, PartialEq, Eq, Structural)]
pub struct DemoHeader {
    /// Length of the full demo, nanoseconds.
    pub len: u64,
    /// Size of the serialized extended header, bytes.
    pub size_ext: u64,
    /// Size of the chunk region, bytes.
    pub size_chunks: u64,
}

/// The seek index written at the end of a demo: each chunk's first
/// monotonic tick maps to the chunk's byte offset relative to the start
/// of the chunk region.
pub struct DemoTail {
    pub snapshots_index: TickMap<u64>,
    pub events_index: TickMap<u64>,
}

/// The variable-size header: identity of the map and the mods the demo
/// was recorded with.
#[derive(Clone, Debug)]
pub struct DemoHeaderExt {
    pub server: String,
    pub map: String,
    pub map_hash: u64,
    pub ticks_per_second: u64,
    pub physics_group_name: String,
}

/// One recorded event beside the snapshot stream.
#[derive(Clone, Debug)]
pub enum DemoEvent {
    Game { event_id: u64 },
    Chat { msg: String },
}

/// Properties of an export of a demo into a video.
#[derive(Clone, Copy, Debug, PartialEq, Eq, Structural)]
pub struct DemoVideoEncodeProperties {}

/// Saturating multiplication.
pub open spec fn sat_mul(a: u64, b: u64) -> u64 {
    if a * b > u64::MAX {
        u64::MAX
    } else {
        ((a * b) as u64)
    }
}

/// Whether a record at `monotonic_tick` may still land in the pending
/// accumulation: it must not lie further than the residency span before
/// the newest pending entry.
pub open spec fn can_add_chunk_spec<V>(monotonic_tick: u64, s: Seq<(u64, V)>, tps: u64) -> bool {
    s.len() == 0 || monotonic_tick >= s.last().0 || s.last().0 - monotonic_tick <= sat_mul(
        tps,
        SECONDS_UNTIL_WRITE,
    )
}

/// Whether the pending accumulation is due for a flush: enough entries,
/// and the split point lies more than the residency span before the
/// newest entry (so a flushed chunk can no longer receive late packets).
pub open spec fn flush_due_spec<V>(s: Seq<(u64, V)>, tps: u64) -> bool {
    s.len() > DATA_PER_CHUNK_TO_WRITE && s.last().0 - s[DATA_PER_CHUNK_TO_WRITE as int].0
        > sat_mul(tps, SECONDS_UNTIL_WRITE)
}

/// Saturating multiplication, executably.
fn sat_mul_exec(a: u64, b: u64) -> (r: u64)
    ensures
        r == sat_mul(a, b),
{
    if b != 0 && a > u64::MAX / b {
        proof {
            assert(a * b > u64::MAX) by (nonlinear_arith)
                requires
                    b != 0,
                    a > u64::MAX / b,
            {}
        }
        u64::MAX
    } else {
        proof {
            assert(b == 0 ==> a * b == 0);
            assert(b != 0 && a <= u64::MAX / b ==> a * b <= u64::MAX) by (nonlinear_arith)
                requires
                    b == 0 || a <= u64::MAX / b,
            {}
        }
        a * b
    }
}

/// The recorder accumulates pending (tick, payload) runs per stream and
/// hands full chunks out for the writer.
pub struct DemoRecorder {
    /// Pending snapshots by tick.
    pub snapshots: TickMap<Vec<u8>>,
    /// Pending events by tick.
    pub events: TickMap<Vec<DemoEvent>>,
    /// The identity of the recording.
    pub demo_header_ext: DemoHeaderExt,
}

impl DemoRecorder {
    pub open spec fn wf(&self) -> bool {
        self.snapshots.wf() && self.events.wf() && self.demo_header_ext.ticks_per_second >= 1
    }

    /// A fresh recorder for one session.
    pub fn new(demo_header_ext: DemoHeaderExt) -> (r: Self)
        requires
            demo_header_ext.ticks_per_second >= 1,
        ensures
            r.wf(),
            r.snapshots@ == Seq::<(u64, Vec<u8>)>::empty(),
            r.events@ == Seq::<(u64, Vec<DemoEvent>)>::empty(),
            r.demo_header_ext == demo_header_ext,
    {
        DemoRecorder { snapshots: TickMap::new(), events: TickMap::new(), demo_header_ext }
    }

    /// Records one snapshot. If the accumulation was due, the oldest
    /// entries come back as a chunk ready for the writer; the snapshot
    /// itself lands in the pending run unless it lies before the
    /// residency span.
    pub fn add_snapshot(&mut self, monotonic_tick: u64, snapshot: Vec<u8>) -> (r: Option<
        TickMap<Vec<u8>>,
    >)
        requires
            old(self).wf(),
        ensures
            final(self).wf(),
            final(self).events == old(self).events,
            final(self).demo_header_ext == old(self).demo_header_ext,
            ({
                let tps = old(self).demo_header_ext.ticks_per_second;
                let after_flush = if flush_due_spec(old(self).snapshots@, tps) {
                    old(self).snapshots@.skip(DATA_PER_CHUNK_TO_WRITE as int)
                } else {
                    old(self).snapshots@
                };
                &&& (match r {
                    Some(flushed) => flush_due_spec(old(self).snapshots@, tps) && flushed.wf()
                        && flushed@ == old(self).snapshots@.take(DATA_PER_CHUNK_TO_WRITE as int),
                    None => !flush_due_spec(old(self).snapshots@, tps),
                })
                &&& (if can_add_chunk_spec(monotonic_tick, after_flush, tps) {
                    seq_get(final(self).snapshots@, monotonic_tick) == Some(snapshot) && (forall|
                        k: u64,
                    |
                        k != monotonic_tick ==> #[trigger] seq_get(final(self).snapshots@, k)
                            == seq_get(after_flush, k))
                } else {
                    final(self).snapshots@ == after_flush
                })
            }),
    {
        let tps = self.demo_header_ext.ticks_per_second;
        let flushed = Self::try_write_chunks(&mut self.snapshots, tps);
        let ghost after_flush_v = self.snapshots@;
        if Self::can_add_chunk(monotonic_tick, &self.snapshots, tps) {
            self.snapshots.insert(monotonic_tick, snapshot);
            proof {
                assert(seq_get(self.snapshots@, monotonic_tick) == Some(snapshot)) by {
                    assert(self.snapshots.spec_get(monotonic_tick) == Some(snapshot));
                }
                assert forall|k: u64| k != monotonic_tick implies #[trigger] seq_get(
                    self.snapshots@,
                    k,
                ) == seq_get(after_flush_v, k) by {
                    assert(self.snapshots.spec_get(k) == seq_get(after_flush_v, k));
                }
            }
        }
        flushed
    }

    /// Records one event at its tick; events at one tick accumulate in
    /// order. Flushing works as for snapshots.
    pub fn add_event(&mut self, monotonic_tick: u64, event: DemoEvent) -> (r: Option<
        TickMap<Vec<DemoEvent>>,
    >)
        requires
            old(self).wf(),
        ensures
            final(self).wf(),
            final(self).snapshots == old(self).snapshots,
            final(self).demo_header_ext == old(self).demo_header_ext,
            ({
                let tps = old(self).demo_header_ext.ticks_per_second;
                let after_flush = if flush_due_spec(old(self).events@, tps) {
                    old(self).events@.skip(DATA_PER_CHUNK_TO_WRITE as int)
                } else {
                    old(self).events@
                };
                &&& (match r {
                    Some(flushed) => flush_due_spec(old(self).events@, tps) && flushed.wf()
                        && flushed@ == old(self).events@.take(DATA_PER_CHUNK_TO_WRITE as int),
                    None => !flush_due_spec(old(self).events@, tps),
                })
                &&& (if can_add_chunk_spec(monotonic_tick, after_flush, tps) {
                    ({
                        let prior = match seq_get(after_flush, monotonic_tick) {
                            Some(evs) => evs@,
                            None => Seq::<DemoEvent>::empty(),
                        };
                        &&& seq_get(final(self).events@, monotonic_tick).is_some()
                        &&& seq_get(final(self).events@, monotonic_tick).unwrap()@ == prior.push(
                            event,
                        )
                        &&& (forall|k: u64|
                            k != monotonic_tick ==> #[trigger] seq_get(final(self).events@, k)
                                == seq_get(after_flush, k))
                    })
                } else {
                    final(self).events@ == after_flush
                })
            }),
    {
        let tps = self.demo_header_ext.ticks_per_second;
        let flushed = Self::try_write_chunks(&mut self.events, tps);
        let ghost after_flush_v = self.events@;
        if Self::can_add_chunk(monotonic_tick, &self.events, tps) {
            let mut evs = match self.events.remove(monotonic_tick) {
                Some(evs) => evs,
                None => Vec::new(),
            };
            let ghost prior = evs@;
            evs.push(event);
            self.events.insert(monotonic_tick, evs);
            proof {
                assert(seq_get(self.events@, monotonic_tick).is_some()) by {
                    assert(self.events.spec_get(monotonic_tick).is_some());
                }
                assert(seq_get(self.events@, monotonic_tick).unwrap()@ == prior.push(event)) by {
                    assert(self.events.spec_get(monotonic_tick).unwrap()@ == prior.push(event));
                }
                assert forall|k: u64| k != monotonic_tick implies #[trigger] seq_get(
                    self.events@,
                    k,
                ) == seq_get(after_flush_v, k) by {
                    assert(self.events.spec_get(k) == seq_get(after_flush_v, k));
                }
            }
        }
        flushed
    }

    /// Whether a record at `monotonic_tick` may still land in the
    /// pending run; see [`can_add_chunk_spec`].
    pub fn can_add_chunk<V>(monotonic_tick: u64, data: &TickMap<V>, ticks_per_second: u64) -> (r:
        bool)
        ensures
            r == can_add_chunk_spec(monotonic_tick, data@, ticks_per_second),
    {
        if data.is_empty() {
            return true;
        }
        let last = data.last_key().unwrap();
        monotonic_tick >= last || last - monotonic_tick <= sat_mul_exec(
            ticks_per_second,
            SECONDS_UNTIL_WRITE,
        )
    }

    /// Splits the oldest entries off as a chunk when the accumulation is
    /// due for a flush; see [`flush_due_spec`].
    pub fn try_write_chunks<V>(data: &mut TickMap<V>, ticks_per_second: u64) -> (r: Option<
        TickMap<V>,
    >)
        requires
            old(data).wf(),
        ensures
            final(data).wf(),
            match r {
                Some(flushed) => flush_due_spec(old(data)@, ticks_per_second) && flushed.wf()
                    && flushed@ == old(data)@.take(DATA_PER_CHUNK_TO_WRITE as int)
                    && final(data)@ == old(data)@.skip(DATA_PER_CHUNK_TO_WRITE as int),
                None => !flush_due_spec(old(data)@, ticks_per_second)
                    && final(data)@ == old(data)@,
            },
    {
        let n = data.len();
        if n <= DATA_PER_CHUNK_TO_WRITE as usize {
            return None;
        }
        let split_key_tick = data.key_at(DATA_PER_CHUNK_TO_WRITE as usize);
        let last = data.last_key().unwrap();
        if last - split_key_tick > sat_mul_exec(ticks_per_second, SECONDS_UNTIL_WRITE) {
            let flushed = data.take_front(DATA_PER_CHUNK_TO_WRITE as usize);
            Some(flushed)
        } else {
            None
        }
    }

    /// Splits everything still pending into chunks of at most
    /// [`DATA_PER_CHUNK_TO_WRITE`] entries, in order; called when the
    /// recording ends.
    pub fn flush_remaining<V>(data: &mut TickMap<V>) -> (r: Vec<TickMap<V>>)
        requires
            old(data).wf(),
        ensures
            final(data)@ == Seq::<(u64, V)>::empty(),
            // every flushed chunk is a non-empty slice of the pending
            // run, they concatenate to exactly what was pending, each
            // holds at most a chunk's worth of entries, and all but the
            // last exactly that many
            forall|i: int| 0 <= i < r@.len() ==> (#[trigger] r@[i])@.len() > 0,
            forall|i: int|
                0 <= i < r@.len() ==> (#[trigger] r@[i])@.len() <= DATA_PER_CHUNK_TO_WRITE,
            forall|i: int|
                0 <= i < r@.len() - 1 ==> (#[trigger] r@[i])@.len() == DATA_PER_CHUNK_TO_WRITE,
            forall|i: int| 0 <= i < r@.len() ==> (#[trigger] r@[i]).wf(),
            concat_chunks(r@.map_values(|c: TickMap<V>| c@)) == old(data)@,
    {
        let mut out: Vec<TickMap<V>> = Vec::new();
        let ghost mut parts: Seq<Seq<(u64, V)>> = Seq::empty();
        while data.len() > 0
            invariant
                data.wf(),
                parts.len() == out@.len(),
                forall|i: int| 0 <= i < out@.len() ==> #[trigger] parts[i] == out@[i]@,
                forall|i: int| 0 <= i < out@.len() ==> (#[trigger] out@[i])@.len() > 0,
                forall|i: int|
                    0 <= i < out@.len() ==> (#[trigger] out@[i])@.len()
                        <= DATA_PER_CHUNK_TO_WRITE,
                forall|i: int|
                    0 <= i < out@.len() ==> data@.len() > 0 ==> (#[trigger] out@[i])@.len()
                        == DATA_PER_CHUNK_TO_WRITE,
                forall|i: int|
                    0 <= i < out@.len() - 1 ==> (#[trigger] out@[i])@.len()
                        == DATA_PER_CHUNK_TO_WRITE,
                forall|i: int| 0 <= i < out@.len() ==> (#[trigger] out@[i]).wf(),
                concat_chunks(parts) + data@ =~= old(data)@,
            decreases data@.len(),
        {
            let n = data.len();
            let take = if n > DATA_PER_CHUNK_TO_WRITE as usize {
                DATA_PER_CHUNK_TO_WRITE as usize
            } else {
                n
            };
            let ghost dpre = data@;
            let chunk = data.take_front(take);
            out.push(chunk);
            proof {
                lemma_concat_snoc(parts, out@.last()@);
                parts = parts.push(out@.last()@);
                assert(out@.last()@ + data@ =~= dpre);
                assert(concat_chunks(parts) + data@ =~= old(data)@);
            }
        }
        proof {
            assert(parts =~= out@.map_values(|c: TickMap<V>| c@));
            assert(concat_chunks(parts) + data@ =~= concat_chunks(parts));
        }
        out
    }
}

/// Why a chunk could not be written.
#[derive(Clone, Copy, Debug, PartialEq, Eq, Structural)]
pub enum DemoWriteError {
    /// An empty chunk may not be written.
    EmptyChunk,
    /// The chunk's first tick lies before an already written chunk's
    /// first tick, which would break the seek index.
    NonMonotonicFirst,
    /// The chunk's last tick lies before an already written chunk's
    /// last tick.
    NonMonotonicLast,
    /// The compressor refused the chunk.
    CompressFailed,
}

/// The mathematical content of a chunk: ticks and raw payload bytes.
pub open spec fn chunk_model(m: TickMap<Vec<u8>>) -> Seq<(u64, Seq<u8>)> {
    m@.map_values(|p: (u64, Vec<u8>)| (p.0, p.1@))
}

/// The serialized records of a chunk: each record is its tick, the
/// payload length, and the payload — the first record's payload is its
/// data absolute, every later one a patch against the previous record's
/// data.
pub open spec fn records_spec(entries: Seq<(u64, Seq<u8>)>, prev: Option<Seq<u8>>) -> Seq<u8>
    decreases entries.len(),
{
    if entries.len() == 0 {
        Seq::empty()
    } else {
        let payload = match prev {
            None => entries[0].1,
            Some(pd) => diff_spec(pd, entries[0].1),
        };
        spec_u64_to_le_bytes(entries[0].0) + spec_u64_to_le_bytes(payload.len() as u64) + payload
            + records_spec(entries.drop_first(), Some(entries[0].1))
    }
}

/// The count-prefixed, diff-chained body of a chunk before compression.
pub open spec fn chunk_inner_spec(entries: Seq<(u64, Seq<u8>)>) -> Seq<u8> {
    spec_u64_to_le_bytes(entries.len() as u64) + records_spec(entries, None)
}

/// The bytes of a serialized chunk: the compressed size, then the
/// zstd-compressed body.
pub open spec fn chunk_bytes_spec(entries: Seq<(u64, Seq<u8>)>) -> Seq<u8> {
    let frame = zstd_frame_of(chunk_inner_spec(entries));
    spec_u64_to_le_bytes(frame.len() as u64) + frame
}

/// Appending one entry appends its record, diffed against what was the
/// last entry.
proof fn lemma_records_snoc(entries: Seq<(u64, Seq<u8>)>, p: (u64, Seq<u8>), prev: Option<Seq<u8>>)
    ensures
        records_spec(entries.push(p), prev) == records_spec(entries, prev) + ({
            let pd = if entries.len() == 0 {
                prev
            } else {
                Some(entries.last().1)
            };
            let payload = match pd {
                None => p.1,
                Some(x) => diff_spec(x, p.1),
            };
            spec_u64_to_le_bytes(p.0) + spec_u64_to_le_bytes(payload.len() as u64) + payload
        }),
    decreases entries.len(),
{
    if entries.len() == 0 {
        assert(entries.push(p)[0] == p);
        assert(entries.push(p).drop_first() =~= Seq::<(u64, Seq<u8>)>::empty());
        let payload = match prev {
            None => p.1,
            Some(x) => diff_spec(x, p.1),
        };
        assert(records_spec(Seq::<(u64, Seq<u8>)>::empty(), Some(p.1)) =~= Seq::<u8>::empty());
        assert(records_spec(entries, prev) =~= Seq::<u8>::empty());
        assert(records_spec(entries.push(p), prev) =~= spec_u64_to_le_bytes(p.0)
            + spec_u64_to_le_bytes(payload.len() as u64) + payload + records_spec(
            entries.push(p).drop_first(),
            Some(p.1),
        ));
        assert(records_spec(entries.push(p), prev) =~= records_spec(entries, prev)
            + (spec_u64_to_le_bytes(p.0) + spec_u64_to_le_bytes(payload.len() as u64) + payload));
    } else {
        assert(entries.push(p)[0] == entries[0]);
        assert(entries.push(p).drop_first() =~= entries.drop_first().push(p));
        lemma_records_snoc(entries.drop_first(), p, Some(entries[0].1));
        if entries.len() == 1 {
            assert(entries.drop_first().len() == 0);
            assert(entries.last() == entries[0]);
        } else {
            assert(entries.drop_first().last() == entries.last());
        }
        assert(records_spec(entries.push(p), prev) =~= records_spec(entries, prev) + ({
            let pd = if entries.len() == 0 {
                prev
            } else {
                Some(entries.last().1)
            };
            let payload = match pd {
                None => p.1,
                Some(x) => diff_spec(x, p.1),
            };
            spec_u64_to_le_bytes(p.0) + spec_u64_to_le_bytes(payload.len() as u64) + payload
        }));
    }
}

/// Serializes one chunk: count-prefixed records, the first absolute,
/// every later one diffed against its predecessor, the whole body
/// compressed and length-prefixed. `None` only when the compressor
/// refused the body.
pub fn serialize_chunk(chunk: &TickMap<Vec<u8>>) -> (r: Option<Vec<u8>>)
    ensures
        r.is_some() ==> r.unwrap()@ == chunk_bytes_spec(chunk_model(*chunk)),
{
    let n = chunk.len();
    let mut inner: Vec<u8> = Vec::new();
    push_u64(&mut inner, n as u64);
    let ghost model = chunk_model(*chunk);
    proof {
        assert(model.len() == n);
        assert(model.take(0) =~= Seq::<(u64, Seq<u8>)>::empty());
        assert(inner@ =~= spec_u64_to_le_bytes(n as u64) + records_spec(model.take(0), None));
    }
    let mut i: usize = 0;
    while i < n
        invariant
            i <= n,
            n == chunk@.len(),
            model == chunk_model(*chunk),
            model.len() == n,
            inner@ =~= spec_u64_to_le_bytes(n as u64) + records_spec(model.take(i as int), None),
        decreases n - i,
    {
        let tick = chunk.key_at(i);
        let data = chunk.val_at(i);
        let mut payload: Vec<u8> = if i == 0 {
            copy_bytes(data.as_slice())
        } else {
            let prev = chunk.val_at(i - 1);
            diff(prev.as_slice(), data.as_slice())
        };
        push_u64(&mut inner, tick);
        push_u64(&mut inner, payload.len() as u64);
        let ghost payload_v = payload@;
        inner.append(&mut payload);
        proof {
            assert(model[i as int] == (tick, data@));
            if i > 0 {
                assert(model[i - 1] == (chunk@[i - 1].0, chunk@[i - 1].1@));
                assert(model.take(i as int).last() == model[i - 1]);
                assert(payload_v == diff_spec(model[i - 1].1, model[i as int].1));
            }
            lemma_records_snoc(model.take(i as int), model[i as int], None);
            assert(model.take(i + 1) =~= model.take(i as int).push(model[i as int]));
            assert(inner@ =~= spec_u64_to_le_bytes(n as u64) + records_spec(
                model.take(i + 1),
                None,
            ));
        }
        i = i + 1;
    }
    proof {
        assert(model.take(n as int) =~= model);
        assert(inner@ =~= chunk_inner_spec(model));
    }
    match compress(inner.as_slice()) {
        None => None,
        Some(mut frame) => {
            let mut out: Vec<u8> = Vec::new();
            push_u64(&mut out, frame.len() as u64);
            let ghost frame_v = frame@;
            out.append(&mut frame);
            proof {
                assert(out@ =~= spec_u64_to_le_bytes(frame_v.len() as u64) + frame_v);
            }
            Some(out)
        },
    }
}

/// The writer-side bookkeeping of one stream's chunk region: the seek
/// index, the monotonic tick watermarks, and the byte size written.
pub struct ChunkWriter {
    /// Each written chunk's first tick, mapped to its byte offset
    /// relative to the start of the chunk region.
    pub index: TickMap<u64>,
    /// First tick of the first chunk written.
    pub first_monotonic: Option<u64>,
    /// Last tick of the newest chunk written.
    pub last_monotonic: Option<u64>,
    /// Bytes of the chunk region written so far.
    pub size: u64,
}

impl ChunkWriter {
    pub open spec fn wf(&self) -> bool {
        self.index.wf()
    }

    /// A fresh writer with nothing written.
    pub fn new() -> (r: Self)
        ensures
            r.wf(),
            r.index@ == Seq::<(u64, u64)>::empty(),
            r.first_monotonic.is_none(),
            r.last_monotonic.is_none(),
            r.size == 0,
    {
        ChunkWriter { index: TickMap::new(), first_monotonic: None, last_monotonic: None, size: 0 }
    }

    /// Serializes a chunk and accounts for it: the chunk's first tick
    /// joins the seek index at the current byte offset. Rejected without
    /// any state change if the chunk is empty or its ticks move backward
    /// relative to what was already written — those are hard invariants
    /// of the seekable format, and a violation means a logic error
    /// upstream.
    pub fn write_chunk(&mut self, chunk: &TickMap<Vec<u8>>) -> (r: Result<Vec<u8>, DemoWriteError>)
        requires
            old(self).wf(),
            chunk.wf(),
        ensures
            final(self).wf(),
            match r {
                Ok(bytes) => {
                    let first_tick = chunk@[0].0;
                    let last_tick = chunk@[chunk@.len() - 1].0;
                    &&& chunk@.len() > 0
                    &&& (match old(self).first_monotonic {
                        Some(f) => f <= first_tick && final(self).first_monotonic == Some(f),
                        None => final(self).first_monotonic == Some(first_tick),
                    })
                    &&& (match old(self).last_monotonic {
                        Some(l) => first_tick >= l,
                        None => true,
                    })
                    &&& final(self).last_monotonic == Some(last_tick)
                    &&& bytes@ == chunk_bytes_spec(chunk_model(*chunk))
                    &&& seq_get(final(self).index@, first_tick) == Some(old(self).size)
                    &&& (forall|k: u64|
                        k != first_tick ==> #[trigger] seq_get(final(self).index@, k) == seq_get(
                            old(self).index@,
                            k,
                        ))
                    &&& final(self).size == sat_add(old(self).size, bytes@.len() as u64)
                },
                Err(e) => {
                    &&& *final(self) == *old(self)
                    &&& (e == DemoWriteError::EmptyChunk <==> chunk@.len() == 0)
                    &&& (e == DemoWriteError::NonMonotonicFirst <==> chunk@.len() > 0 && (match old(
                        self,
                    ).first_monotonic {
                        Some(f) => chunk@[0].0 < f,
                        None => false,
                    }))
                    &&& (e == DemoWriteError::NonMonotonicLast <==> chunk@.len() > 0 && !(match old(
                        self,
                    ).first_monotonic {
                        Some(f) => chunk@[0].0 < f,
                        None => false,
                    }) && (match old(self).last_monotonic {
                        Some(l) => chunk@[0].0 < l,
                        None => false,
                    }))
                },
            },
    {
        if chunk.is_empty() {
            return Err(DemoWriteError::EmptyChunk);
        }
        let first_tick = chunk.first_key().unwrap();
        let last_tick = chunk.last_key().unwrap();
        match self.first_monotonic {
            Some(f) => {
                if first_tick < f {
                    return Err(DemoWriteError::NonMonotonicFirst);
                }
            },
            None => {},
        }
        match self.last_monotonic {
            Some(l) => {
                // ticks may never move backward across a chunk boundary
                if first_tick < l {
                    return Err(DemoWriteError::NonMonotonicLast);
                }
            },
            None => {},
        }
        let bytes = match serialize_chunk(chunk) {
            Some(b) => b,
            None => {
                return Err(DemoWriteError::CompressFailed);
            },
        };
        let ghost index0 = self.index@;
        self.index.insert(first_tick, self.size);
        proof {
            assert(seq_get(self.index@, first_tick) == Some(old(self).size)) by {
                assert(self.index.spec_get(first_tick) == Some(old(self).size));
            }
            assert forall|k: u64| k != first_tick implies #[trigger] seq_get(self.index@, k)
                == seq_get(index0, k) by {
                assert(self.index.spec_get(k) == seq_get(index0, k));
            }
        }
        if self.first_monotonic.is_none() {
            self.first_monotonic = Some(first_tick);
        }
        self.last_monotonic = Some(last_tick);
        let blen = bytes.len() as u64;
        self.size = if self.size > u64::MAX - blen {
            u64::MAX
        } else {
            self.size + blen
        };
        Ok(bytes)
    }
}

/// The bytes of the fixed-size demo header: length, extended-header
/// size, chunk-region size.
pub open spec fn demo_header_bytes_spec(h: DemoHeader) -> Seq<u8> {
    spec_u64_to_le_bytes(h.len) + spec_u64_to_le_bytes(h.size_ext) + spec_u64_to_le_bytes(
        h.size_chunks,
    )
}

/// The fixed-size header a demo file starts with, if the bytes are long
/// enough to hold one.
pub open spec fn parse_demo_header_spec(b: Seq<u8>) -> Option<DemoHeader> {
    if b.len() < 24 {
        None
    } else {
        Some(
            DemoHeader {
                len: word_at(b, 0),
                size_ext: word_at(b, 8),
                size_chunks: word_at(b, 16),
            },
        )
    }
}

/// Serializes the fixed-size demo header.
pub fn encode_demo_header(h: &DemoHeader) -> (r: Vec<u8>)
    ensures
        r@ == demo_header_bytes_spec(*h),
        parse_demo_header_spec(r@) == Some(*h),
{
    proof {
        lemma_auto_spec_u64_to_from_le_bytes();
    }
    let mut out: Vec<u8> = Vec::new();
    push_u64(&mut out, h.len);
    push_u64(&mut out, h.size_ext);
    push_u64(&mut out, h.size_chunks);
    proof {
        assert(out@ =~= demo_header_bytes_spec(*h));
        assert(out@.subrange(0, 8) =~= spec_u64_to_le_bytes(h.len));
        assert(out@.subrange(8, 16) =~= spec_u64_to_le_bytes(h.size_ext));
        assert(out@.subrange(16, 24) =~= spec_u64_to_le_bytes(h.size_chunks));
    }
    out
}

/// Reads the fixed-size header off the front of a demo file.
pub fn parse_demo_header(bytes: &[u8]) -> (r: Option<DemoHeader>)
    ensures
        r == parse_demo_header_spec(bytes@),
{
    proof {
        lemma_auto_spec_u64_to_from_le_bytes();
    }
    if bytes.len() < 24 {
        return None;
    }
    Some(
        DemoHeader {
            len: read_u64(bytes, 0),
            size_ext: read_u64(bytes, 8),
            size_chunks: read_u64(bytes, 16),
        },
    )
}

/// One record of a tail index: a chunk's first tick and its byte offset.
pub open spec fn enc_pair(p: (u64, u64)) -> Seq<u8> {
    spec_u64_to_le_bytes(p.0) + spec_u64_to_le_bytes(p.1)
}

/// A run of tail-index records.
pub open spec fn enc_pairs(s: Seq<(u64, u64)>) -> Seq<u8>
    decreases s.len(),
{
    if s.len() == 0 {
        Seq::empty()
    } else {
        enc_pair(s[0]) + enc_pairs(s.drop_first())
    }
}

/// The bytes of a demo tail: the snapshot index then the event index,
/// each count-prefixed.
pub open spec fn demo_tail_bytes_spec(snap: Seq<(u64, u64)>, ev: Seq<(u64, u64)>) -> Seq<u8> {
    spec_u64_to_le_bytes(snap.len() as u64) + enc_pairs(snap) + spec_u64_to_le_bytes(
        ev.len() as u64,
    ) + enc_pairs(ev)
}

/// Appending runs of tail records concatenates their encodings.
proof fn lemma_enc_pairs_append(s1: Seq<(u64, u64)>, s2: Seq<(u64, u64)>)
    ensures
        enc_pairs(s1 + s2) == enc_pairs(s1) + enc_pairs(s2),
    decreases s1.len(),
{
    if s1.len() == 0 {
        assert(s1 + s2 =~= s2);
        assert(enc_pairs(s1) + enc_pairs(s2) =~= enc_pairs(s2));
    } else {
        assert((s1 + s2).drop_first() =~= s1.drop_first() + s2);
        assert((s1 + s2)[0] == s1[0]);
        lemma_enc_pairs_append(s1.drop_first(), s2);
        assert(enc_pairs(s1 + s2) =~= enc_pairs(s1) + enc_pairs(s2));
    }
}

/// Parses `cnt` tail records with strictly increasing ticks from `lo`.
pub open spec fn parse_pairs(b: Seq<u8>, cnt: nat, lo: int) -> Option<(Seq<(u64, u64)>, Seq<u8>)>
    decreases cnt,
{
    if cnt == 0 {
        Some((Seq::empty(), b))
    } else if b.len() < 16 {
        None
    } else {
        let p = (word_at(b, 0), word_at(b, 8));
        if p.0 < lo {
            None
        } else {
            match parse_pairs(b.skip(16), (cnt - 1) as nat, p.0 + 1) {
                None => None,
                Some((s, rest)) => Some((seq![p] + s, rest)),
            }
        }
    }
}

/// The demo tail format: both indexes, when the bytes hold exactly a
/// well-formed tail.
pub open spec fn parse_demo_tail_spec(b: Seq<u8>) -> Option<(Seq<(u64, u64)>, Seq<(u64, u64)>)> {
    if b.len() < 8 {
        None
    } else {
        match parse_pairs(b.skip(8), word_at(b, 0) as nat, 0) {
            None => None,
            Some((s1, r)) => {
                if r.len() < 8 {
                    None
                } else {
                    match parse_pairs(r.skip(8), word_at(r, 0) as nat, 0) {
                        None => None,
                        Some((s2, r2)) => {
                            if r2.len() == 0 {
                                Some((s1, s2))
                            } else {
                                None
                            }
                        },
                    }
                }
            },
        }
    }
}

/// Parsing a run of encoded tail records yields them back.
proof fn lemma_parse_pairs_of_enc(s: Seq<(u64, u64)>, tail: Seq<u8>, lo: int)
    requires
        sorted_pairs(s),
        forall|i: int| 0 <= i < s.len() ==> lo <= (#[trigger] s[i]).0,
    ensures
        parse_pairs(enc_pairs(s) + tail, s.len(), lo) == Some((s, tail)),
    decreases s.len(),
{
    lemma_auto_spec_u64_to_from_le_bytes();
    if s.len() == 0 {
        assert(enc_pairs(s) + tail =~= tail);
        assert(s =~= Seq::<(u64, u64)>::empty());
    } else {
        let b = enc_pairs(s) + tail;
        let p = s[0];
        assert(enc_pairs(s) == enc_pair(p) + enc_pairs(s.drop_first()));
        assert(b.len() >= 16);
        assert(b.subrange(0, 8) =~= spec_u64_to_le_bytes(p.0));
        assert(b.subrange(8, 16) =~= spec_u64_to_le_bytes(p.1));
        assert(b.skip(16) =~= enc_pairs(s.drop_first()) + tail);
        assert(forall|i: int|
            0 <= i < s.drop_first().len() ==> #[trigger] s.drop_first()[i] == s[i + 1]);
        lemma_parse_pairs_of_enc(s.drop_first(), tail, p.0 + 1);
        assert(seq![p] + s.drop_first() =~= s);
    }
}

/// Tail round trip at the format level: a tail with sorted indexes
/// encodes to bytes that parse back to exactly those indexes.
pub proof fn lemma_parse_demo_tail_of_encode(snap: Seq<(u64, u64)>, ev: Seq<(u64, u64)>)
    requires
        sorted_pairs(snap),
        sorted_pairs(ev),
        snap.len() <= u64::MAX,
        ev.len() <= u64::MAX,
    ensures
        parse_demo_tail_spec(demo_tail_bytes_spec(snap, ev)) == Some((snap, ev)),
{
    lemma_auto_spec_u64_to_from_le_bytes();
    let b = demo_tail_bytes_spec(snap, ev);
    let mid = spec_u64_to_le_bytes(ev.len() as u64) + enc_pairs(ev);
    assert(b =~= spec_u64_to_le_bytes(snap.len() as u64) + enc_pairs(snap) + mid);
    assert(b.len() >= 8);
    assert(b.subrange(0, 8) =~= spec_u64_to_le_bytes(snap.len() as u64));
    assert(b.skip(8) =~= enc_pairs(snap) + mid);
    lemma_parse_pairs_of_enc(snap, mid, 0);
    assert(mid.len() >= 8);
    assert(mid.subrange(0, 8) =~= spec_u64_to_le_bytes(ev.len() as u64));
    assert(mid.skip(8) =~= enc_pairs(ev) + Seq::<u8>::empty());
    assert(enc_pairs(ev) + Seq::<u8>::empty() =~= enc_pairs(ev));
    lemma_parse_pairs_of_enc(ev, Seq::<u8>::empty(), 0);
}

/// Serializes a demo tail.
pub fn encode_demo_tail(t: &DemoTail) -> (r: Vec<u8>)
    requires
        t.snapshots_index.wf(),
        t.events_index.wf(),
    ensures
        r@ == demo_tail_bytes_spec(t.snapshots_index@, t.events_index@),
{
    let mut out: Vec<u8> = Vec::new();
    push_u64(&mut out, t.snapshots_index.len() as u64);
    let ghost h1 = out@;
    let n1 = t.snapshots_index.len();
    let mut i: usize = 0;
    while i < n1
        invariant
            i <= n1,
            n1 == t.snapshots_index@.len(),
            out@ =~= h1 + enc_pairs(t.snapshots_index@.take(i as int)),
        decreases n1 - i,
    {
        let k = t.snapshots_index.key_at(i);
        let v = *t.snapshots_index.val_at(i);
        push_u64(&mut out, k);
        push_u64(&mut out, v);
        proof {
            let s = t.snapshots_index@;
            assert(s.take(i + 1) =~= s.take(i as int) + seq![s[i as int]]);
            lemma_enc_pairs_append(s.take(i as int), seq![s[i as int]]);
            assert(seq![s[i as int]].drop_first() =~= Seq::<(u64, u64)>::empty());
            assert(enc_pairs(seq![s[i as int]]) =~= enc_pair(s[i as int]) + enc_pairs(
                Seq::<(u64, u64)>::empty(),
            ));
            assert(enc_pairs(seq![s[i as int]]) =~= enc_pair(s[i as int]));
            assert(out@ =~= h1 + enc_pairs(s.take(i + 1)));
        }
        i = i + 1;
    }
    proof {
        assert(t.snapshots_index@.take(n1 as int) =~= t.snapshots_index@);
    }
    push_u64(&mut out, t.events_index.len() as u64);
    let ghost h2 = out@;
    let n2 = t.events_index.len();
    let mut j: usize = 0;
    while j < n2
        invariant
            j <= n2,
            n2 == t.events_index@.len(),
            out@ =~= h2 + enc_pairs(t.events_index@.take(j as int)),
        decreases n2 - j,
    {
        let k = t.events_index.key_at(j);
        let v = *t.events_index.val_at(j);
        push_u64(&mut out, k);
        push_u64(&mut out, v);
        proof {
            let s = t.events_index@;
            assert(s.take(j + 1) =~= s.take(j as int) + seq![s[j as int]]);
            lemma_enc_pairs_append(s.take(j as int), seq![s[j as int]]);
            assert(seq![s[j as int]].drop_first() =~= Seq::<(u64, u64)>::empty());
            assert(enc_pairs(seq![s[j as int]]) =~= enc_pair(s[j as int]) + enc_pairs(
                Seq::<(u64, u64)>::empty(),
            ));
            assert(enc_pairs(seq![s[j as int]]) =~= enc_pair(s[j as int]));
            assert(out@ =~= h2 + enc_pairs(s.take(j + 1)));
        }
        j = j + 1;
    }
    proof {
        assert(t.events_index@.take(n2 as int) =~= t.events_index@);
        assert(out@ =~= demo_tail_bytes_spec(t.snapshots_index@, t.events_index@));
    }
    out
}

/// Parses one count-prefixed tail index off the front of the bytes at
/// `off`, in exact correspondence with [`parse_pairs`].
#[verifier::loop_isolation(false)]
#[verifier::rlimit(60)]
fn parse_index_run(bytes: &[u8], off: usize) -> (r: Result<(TickMap<u64>, usize), DemoReadError>)
    requires
        off + 8 <= bytes@.len(),
    ensures
        match r {
            Ok(t) => {
                &&& t.0.wf()
                &&& parse_pairs(
                    bytes@.skip(off + 8),
                    word_at(bytes@, off as int) as nat,
                    0,
                ) == Some((t.0@, bytes@.skip(t.1 as int)))
                &&& off + 8 <= t.1 <= bytes@.len()
            },
            Err(_) => parse_pairs(
                bytes@.skip(off + 8),
                word_at(bytes@, off as int) as nat,
                0,
            ).is_none(),
        },
{
    proof {
        lemma_auto_spec_u64_to_from_le_bytes();
    }
    let blen = bytes.len();
    let cnt = read_u64(bytes, off);
    let ghost outer = parse_pairs(bytes@.skip(off + 8), cnt as nat, 0);
    let mut out: TickMap<u64> = TickMap::new();
    let mut pos: usize = off + 8;
    let mut k: u64 = 0;
    let mut next_lo: u64 = 0;
    proof {
        if outer.is_some() {
            assert(Seq::<(u64, u64)>::empty() + outer.unwrap().0 =~= outer.unwrap().0);
        }
    }
    while k < cnt
        invariant
            off + 8 <= pos <= blen,
            k <= cnt,
            out.wf(),
            out@.len() == k,
            k < cnt ==> (forall|j: int| 0 <= j < out@.len() ==> (#[trigger] out@[j]).0 < next_lo),
            ({
                let inner = parse_pairs(bytes@.skip(pos as int), (cnt - k) as nat, next_lo as int);
                &&& (inner.is_none() ==> outer.is_none())
                &&& (inner.is_some() ==> outer.is_some() && outer.unwrap().0 =~= out@
                    + inner.unwrap().0 && outer.unwrap().1 =~= inner.unwrap().1)
            }),
        decreases cnt - k,
    {
        let ghost inner_old = parse_pairs(bytes@.skip(pos as int), (cnt - k) as nat, next_lo as int);
        if blen - pos < 16 {
            proof {
                assert(bytes@.skip(pos as int).len() < 16);
                assert(inner_old.is_none());
            }
            return Err(DemoReadError::Malformed);
        }
        let tick = read_u64(bytes, pos);
        let offset = read_u64(bytes, pos + 8);
        proof {
            assert(bytes@.skip(pos as int).subrange(0, 8) =~= bytes@.subrange(
                pos as int,
                pos + 8,
            ));
            assert(bytes@.skip(pos as int).subrange(8, 16) =~= bytes@.subrange(
                pos + 8,
                pos + 16,
            ));
            assert(bytes@.skip(pos as int).skip(16) =~= bytes@.skip(pos + 16));
        }
        if tick < next_lo {
            proof {
                assert(inner_old.is_none());
            }
            return Err(DemoReadError::Malformed);
        }
        let ghost inner_new = parse_pairs(bytes@.skip(pos + 16), (cnt - k - 1) as nat, tick + 1);
        proof {
            let p = (tick, offset);
            if inner_new.is_none() {
                assert(inner_old.is_none());
                assert(outer.is_none());
            } else {
                assert(inner_old.is_some());
                assert(inner_old.unwrap().0 =~= seq![p] + inner_new.unwrap().0);
                assert(inner_old.unwrap().1 =~= inner_new.unwrap().1);
                assert(outer.is_some());
                assert(outer.unwrap().0 =~= out@ + (seq![p] + inner_new.unwrap().0));
                assert(out@ + (seq![p] + inner_new.unwrap().0) =~= out@.push(p)
                    + inner_new.unwrap().0);
            }
        }
        if tick == u64::MAX && k + 1 < cnt {
            // a further record would need a strictly larger tick
            proof {
                if inner_new.is_some() {
                    let s2 = inner_new.unwrap().0;
                    assert(s2.len() > 0);
                    assert(s2[0].0 >= tick + 1);
                }
            }
            return Err(DemoReadError::Malformed);
        }
        out.push_back(tick, offset);
        pos = pos + 16;
        k = k + 1;
        next_lo = if tick == u64::MAX {
            u64::MAX
        } else {
            tick + 1
        };
        proof {
            if tick == u64::MAX {
                let inner = parse_pairs(bytes@.skip(pos as int), (cnt - k) as nat, next_lo as int);
                assert(cnt - k == 0);
                assert(inner.is_some());
            }
        }
    }
    proof {
        let inner = parse_pairs(bytes@.skip(pos as int), 0, next_lo as int);
        assert(inner.is_some());
        assert(inner.unwrap().0 =~= Seq::<(u64, u64)>::empty());
        assert(outer.is_some());
        assert(outer.unwrap().0 =~= out@ + Seq::<(u64, u64)>::empty());
        assert(out@ + Seq::<(u64, u64)>::empty() =~= out@);
        assert(outer.unwrap().1 =~= bytes@.skip(pos as int));
    }
    Ok((out, pos))
}

/// Reads a demo tail back: both seek indexes. Succeeds exactly on the
/// well-formed tails [`parse_demo_tail_spec`] accepts; inverse of
/// [`encode_demo_tail`] through [`lemma_parse_demo_tail_of_encode`].
pub fn parse_demo_tail(bytes: &[u8]) -> (r: Result<DemoTail, DemoReadError>)
    ensures
        match r {
            Ok(t) => {
                &&& t.snapshots_index.wf()
                &&& t.events_index.wf()
                &&& parse_demo_tail_spec(bytes@) == Some((t.snapshots_index@, t.events_index@))
            },
            Err(_) => parse_demo_tail_spec(bytes@).is_none(),
        },
{
    proof {
        lemma_auto_spec_u64_to_from_le_bytes();
    }
    if bytes.len() < 8 {
        return Err(DemoReadError::Malformed);
    }
    proof {
        assert(bytes@.subrange(0, 8) =~= bytes@.subrange(0, 8));
    }
    let (snapshots_index, pos1) = match parse_index_run(bytes, 0) {
        Ok(t) => t,
        Err(e) => {
            return Err(e);
        },
    };
    if bytes.len() - pos1 < 8 {
        proof {
            assert(bytes@.skip(pos1 as int).len() < 8);
        }
        return Err(DemoReadError::Malformed);
    }
    proof {
        assert(bytes@.skip(pos1 as int).subrange(0, 8) =~= bytes@.subrange(
            pos1 as int,
            pos1 + 8,
        ));
        assert(bytes@.skip(pos1 as int).skip(8) =~= bytes@.skip(pos1 + 8));
        assert(word_at(bytes@.skip(pos1 as int), 0) == word_at(bytes@, pos1 as int));
    }
    let (events_index, pos2) = match parse_index_run(bytes, pos1) {
        Ok(t) => t,
        Err(e) => {
            return Err(e);
        },
    };
    if pos2 != bytes.len() {
        proof {
            assert(bytes@.skip(pos2 as int).len() > 0);
        }
        return Err(DemoReadError::Malformed);
    }
    proof {
        assert(bytes@.skip(pos2 as int).len() == 0);
    }
    Ok(DemoTail { snapshots_index, events_index })
}

/// The length a finished demo reports: the covered tick span converted
/// at the session's tick rate, whole seconds plus the remainder in
/// nanoseconds.
pub open spec fn demo_len_ns_spec(first_tick: u64, last_tick: u64, tps: u64) -> u64 {
    let d = (last_tick - first_tick) as u64;
    let secs = d / tps;
    let nanos = (d % tps) * (NANOS_PER_SEC / tps);
    if secs * NANOS_PER_SEC + nanos > u64::MAX {
        u64::MAX
    } else {
        ((secs * NANOS_PER_SEC + nanos) as u64)
    }
}

/// Computes the demo length for the header; see [`demo_len_ns_spec`].
pub fn demo_len_ns(first_tick: u64, last_tick: u64, tps: u64) -> (r: u64)
    requires
        tps >= 1,
        first_tick <= last_tick,
    ensures
        r == demo_len_ns_spec(first_tick, last_tick, tps),
{
    let d = last_tick - first_tick;
    let secs = d / tps;
    let rem = d % tps;
    proof {
        assert(rem < tps) by (nonlinear_arith)
            requires
                tps >= 1,
                rem == d % tps,
        {}
        assert(NANOS_PER_SEC / tps <= NANOS_PER_SEC) by (nonlinear_arith)
            requires
                tps >= 1,
        {}
        assert(rem * (NANOS_PER_SEC / tps) <= tps * (NANOS_PER_SEC / tps)) by (nonlinear_arith)
            requires
                rem <= tps,
        {}
        assert(tps * (NANOS_PER_SEC / tps) <= NANOS_PER_SEC) by (nonlinear_arith)
            requires
                tps >= 1,
        {}
    }
    let nanos = rem * (NANOS_PER_SEC / tps);
    if secs > (u64::MAX - nanos) / NANOS_PER_SEC {
        proof {
            assert(secs * NANOS_PER_SEC + nanos > u64::MAX) by (nonlinear_arith)
                requires
                    secs > ((u64::MAX - nanos) as u64) / NANOS_PER_SEC,
                    nanos <= u64::MAX,
                    NANOS_PER_SEC == 1_000_000_000,
            {}
        }
        u64::MAX
    } else {
        proof {
            assert(secs * NANOS_PER_SEC + nanos <= u64::MAX) by (nonlinear_arith)
                requires
                    secs <= ((u64::MAX - nanos) as u64) / NANOS_PER_SEC,
                    nanos <= u64::MAX,
                    NANOS_PER_SEC == 1_000_000_000,
            {}
        }
        secs * NANOS_PER_SEC + nanos
    }
}

/// Record counts and payload sizes a serialized chunk can hold.
pub open spec fn chunk_entries_bounded(entries: Seq<(u64, Seq<u8>)>) -> bool {
    entries.len() <= u64::MAX && forall|j: int|
        0 <= j < entries.len() ==> (#[trigger] entries[j]).1.len() <= u64::MAX
}

/// A serialized chunk with the given records sits at byte offset `off`
/// of a chunk region.
pub open spec fn chunk_at_offset(region: Seq<u8>, off: int, entries: Seq<(u64, Seq<u8>)>) -> bool {
    &&& 0 <= off
    &&& off + chunk_bytes_spec(entries).len() <= region.len()
    &&& region.subrange(off, off + chunk_bytes_spec(entries).len() as int) == chunk_bytes_spec(
        entries,
    )
}

/// Why a chunk could not be read back.
#[derive(Clone, Copy, Debug, PartialEq, Eq, Structural)]
pub enum DemoReadError {
    /// The bytes are not a well-formed serialized chunk.
    Malformed,
}

/// Reads one serialized chunk back into its (tick, payload) records.
///
/// Inverse of [`serialize_chunk`]: on every byte sequence that
/// [`chunk_bytes_spec`] describes for a sorted run of records, reading
/// succeeds and yields exactly those records. Arbitrary other bytes are
/// rejected, never a panic.
#[verifier::loop_isolation(false)]
#[verifier::rlimit(100)]
pub fn read_chunk(bytes: &[u8]) -> (r: Result<TickMap<Vec<u8>>, DemoReadError>)
    ensures
        forall|entries: Seq<(u64, Seq<u8>)>|
            sorted_pairs(entries) && chunk_entries_bounded(entries) && bytes@ == #[trigger] chunk_bytes_spec(entries) ==> r.is_ok()
                && chunk_model(r.unwrap()) == entries,
        r.is_ok() ==> r.unwrap().wf(),
{
    proof {
        lemma_auto_spec_u64_to_from_le_bytes();
    }
    let blen = bytes.len();
    if blen < 8 {
        return Err(DemoReadError::Malformed);
    }
    let size = read_u64(bytes, 0);
    if blen as u64 - 8 != size {
        proof {
            assert forall|entries: Seq<(u64, Seq<u8>)>|
                sorted_pairs(entries) && chunk_entries_bounded(entries) && bytes@ == #[trigger] chunk_bytes_spec(entries) implies
                false by {
                let frame = zstd_frame_of(chunk_inner_spec(entries));
                assert(bytes@.subrange(0, 8) =~= spec_u64_to_le_bytes(frame.len() as u64));
                assert(size == frame.len() as u64);
                assert(blen == 8 + frame.len());
            }
        }
        return Err(DemoReadError::Malformed);
    }
    let inner = match decompress(vstd::slice::slice_subrange(bytes, 8, blen)) {
        Some(inner) => inner,
        None => {
            proof {
                assert forall|entries: Seq<(u64, Seq<u8>)>|
                    sorted_pairs(entries) && chunk_entries_bounded(entries) && bytes@ == #[trigger] chunk_bytes_spec(entries) implies
                    false by {
                    let frame = zstd_frame_of(chunk_inner_spec(entries));
                    assert(bytes@.subrange(8, blen as int) =~= frame);
                }
            }
            return Err(DemoReadError::Malformed);
        },
    };
    proof {
        assert forall|entries: Seq<(u64, Seq<u8>)>|
            sorted_pairs(entries) && chunk_entries_bounded(entries) && bytes@ == #[trigger] chunk_bytes_spec(entries) implies inner@
            == chunk_inner_spec(entries) by {
            let frame = zstd_frame_of(chunk_inner_spec(entries));
            assert(bytes@.subrange(8, blen as int) =~= frame);
        }
    }
    let ilen = inner.len();
    if ilen < 8 {
        proof {
            assert forall|entries: Seq<(u64, Seq<u8>)>|
                sorted_pairs(entries) && chunk_entries_bounded(entries) && bytes@ == #[trigger] chunk_bytes_spec(entries) implies
                false by {
                assert(inner@.len() >= 8);
            }
        }
        return Err(DemoReadError::Malformed);
    }
    let count = read_u64(inner.as_slice(), 0);
    proof {
        assert forall|entries: Seq<(u64, Seq<u8>)>|
            sorted_pairs(entries) && chunk_entries_bounded(entries) && bytes@ == #[trigger] chunk_bytes_spec(entries) implies count
            == entries.len() && inner@.skip(8) =~= records_spec(entries, None) by {
            assert(inner@.subrange(0, 8) =~= spec_u64_to_le_bytes(entries.len() as u64));
        }
    }
    let mut out: TickMap<Vec<u8>> = TickMap::new();
    let mut prev: Option<Vec<u8>> = None;
    let mut off: usize = 8;
    let mut k: u64 = 0;
    proof {
        assert(chunk_model(out) =~= Seq::<(u64, Seq<u8>)>::empty());
        assert forall|entries: Seq<(u64, Seq<u8>)>|
            sorted_pairs(entries) && chunk_entries_bounded(entries) && bytes@
                == #[trigger] chunk_bytes_spec(entries) implies chunk_model(out) =~= entries.take(0)
            && inner@.skip(8) =~= records_spec(entries.skip(0), None) by {
            assert(entries.take(0) =~= Seq::<(u64, Seq<u8>)>::empty());
            assert(entries.skip(0) =~= entries);
        }
    }
    while k < count
        invariant
            8 <= off <= ilen,
            k <= count,
            out.wf(),
            out@.len() == k,
            forall|entries: Seq<(u64, Seq<u8>)>|
                sorted_pairs(entries) && chunk_entries_bounded(entries) && bytes@ == #[trigger] chunk_bytes_spec(entries) ==> {
                    &&& count == entries.len()
                    &&& k <= entries.len()
                    &&& chunk_model(out) =~= entries.take(k as int)
                    &&& inner@.skip(off as int) =~= records_spec(
                        entries.skip(k as int),
                        if k == 0 {
                            None
                        } else {
                            Some(entries[k - 1].1)
                        },
                    )
                    &&& (match prev {
                        Some(pd) => k > 0 && pd@ == entries[k - 1].1,
                        None => k == 0,
                    })
                },
        decreases count - k,
    {
        if ilen - off < 16 {
            proof {
                assert forall|entries: Seq<(u64, Seq<u8>)>|
                    sorted_pairs(entries) && chunk_entries_bounded(entries) && bytes@ == #[trigger] chunk_bytes_spec(entries) implies
                    false by {
                    assert(entries.skip(k as int).len() > 0);
                    assert(records_spec(
                        entries.skip(k as int),
                        if k == 0 {
                            None
                        } else {
                            Some(entries[k - 1].1)
                        },
                    ).len() >= 16);
                }
            }
            return Err(DemoReadError::Malformed);
        }
        let tick = read_u64(inner.as_slice(), off);
        let plen64 = read_u64(inner.as_slice(), off + 8);
        if plen64 > (ilen - off - 16) as u64 {
            proof {
                assert forall|entries: Seq<(u64, Seq<u8>)>|
                    sorted_pairs(entries) && chunk_entries_bounded(entries) && bytes@ == #[trigger] chunk_bytes_spec(entries) implies
                    false by {
                    let rest = entries.skip(k as int);
                    let pd = if k == 0 {
                        None
                    } else {
                        Some(entries[k - 1].1)
                    };
                    let payload = match pd {
                        None => rest[0].1,
                        Some(x) => diff_spec(x, rest[0].1),
                    };
                    let rs = records_spec(rest, pd);
                    assert(rs.subrange(8, 16) =~= spec_u64_to_le_bytes(payload.len() as u64));
                    assert(inner@.skip(off as int).subrange(8, 16) =~= inner@.subrange(
                        off + 8,
                        off + 16,
                    ));
                    assert(plen64 == payload.len() as u64);
                    assert(rs.len() >= 16 + payload.len());
                }
            }
            return Err(DemoReadError::Malformed);
        }
        let plen = plen64 as usize;
        let payload = vstd::slice::slice_subrange(inner.as_slice(), off + 16, off + 16 + plen);
        proof {
            assert forall|entries: Seq<(u64, Seq<u8>)>|
                sorted_pairs(entries) && chunk_entries_bounded(entries) && bytes@ == #[trigger] chunk_bytes_spec(entries) implies {
                let rest = entries.skip(k as int);
                let pd = if k == 0 {
                    None
                } else {
                    Some(entries[k - 1].1)
                };
                let spayload = match pd {
                    None => rest[0].1,
                    Some(x) => diff_spec(x, rest[0].1),
                };
                tick == rest[0].0 && payload@ =~= spayload
            } by {
                let rest = entries.skip(k as int);
                let pd = if k == 0 {
                    None
                } else {
                    Some(entries[k - 1].1)
                };
                let spayload = match pd {
                    None => rest[0].1,
                    Some(x) => diff_spec(x, rest[0].1),
                };
                let rs = records_spec(rest, pd);
                assert(rs.subrange(0, 8) =~= spec_u64_to_le_bytes(rest[0].0));
                assert(rs.subrange(8, 16) =~= spec_u64_to_le_bytes(spayload.len() as u64));
                assert(inner@.skip(off as int).subrange(0, 8) =~= inner@.subrange(
                    off as int,
                    off + 8,
                ));
                assert(inner@.skip(off as int).subrange(8, 16) =~= inner@.subrange(
                    off + 8,
                    off + 16,
                ));
                assert(plen64 == spayload.len() as u64);
                assert(rs.subrange(16, 16 + spayload.len() as int) =~= spayload);
                assert(inner@.skip(off as int).subrange(16, 16 + spayload.len() as int)
                    =~= inner@.subrange(off + 16, off + 16 + spayload.len() as int));
            }
        }
        let data: Vec<u8> = match &prev {
            None => copy_bytes(payload),
            Some(pd) => {
                match patch(pd.as_slice(), payload) {
                    Ok(v) => {
                        proof {
                            assert forall|entries: Seq<(u64, Seq<u8>)>|
                                sorted_pairs(entries) && chunk_entries_bounded(entries) && bytes@
                                    == #[trigger] chunk_bytes_spec(entries) implies v@ =~= entries.skip(k as int)[0].1 by {
                                assert(count == entries.len());
                                assert(k < entries.len());
                                assert(entries.skip(k as int)[0] == entries[k as int]);
                                assert(entries[k as int].1.len() <= u64::MAX);
                                assert(entries[k - 1].1.len() <= u64::MAX);
                                let target = entries[k as int].1;
                                lemma_patch_of_diff(pd@, target);
                                assert(patch_spec(pd@, payload@) == Some(target));
                            }
                        }
                        v
                    },
                    Err(_) => {
                        proof {
                            assert forall|entries: Seq<(u64, Seq<u8>)>|
                                sorted_pairs(entries) && chunk_entries_bounded(entries) && bytes@
                                    == #[trigger] chunk_bytes_spec(entries) implies false by {
                                assert(count == entries.len());
                                assert(k < entries.len());
                                assert(entries.skip(k as int)[0] == entries[k as int]);
                                assert(entries[k as int].1.len() <= u64::MAX);
                                assert(entries[k - 1].1.len() <= u64::MAX);
                                let target = entries[k as int].1;
                                lemma_patch_of_diff(pd@, target);
                                assert(patch_spec(pd@, payload@) == Some(target));
                            }
                        }
                        return Err(DemoReadError::Malformed);
                    },
                }
            },
        };
        // ticks must strictly increase for the map to stay well formed
        let order_ok = match out.last_key() {
            Some(l) => tick > l,
            None => true,
        };
        if !order_ok {
            proof {
                assert forall|entries: Seq<(u64, Seq<u8>)>|
                    sorted_pairs(entries) && chunk_entries_bounded(entries) && bytes@ == #[trigger] chunk_bytes_spec(entries) implies
                    false by {
                    assert(out@[k - 1].0 == chunk_model(out)[k - 1].0);
                    assert(chunk_model(out)[k - 1].0 == entries[k - 1].0);
                    assert(entries[k - 1].0 < entries[k as int].0);
                    assert(tick == entries.skip(k as int)[0].0);
                    assert(entries.skip(k as int)[0] == entries[k as int]);
                }
            }
            return Err(DemoReadError::Malformed);
        }
        proof {
            assert forall|j: int| 0 <= j < out@.len() implies (#[trigger] out@[j]).0 < tick by {
                if j < out@.len() - 1 {
                    assert(out@[j].0 < out@[out@.len() - 1].0);
                }
            }
        }
        let ghost out_pre = chunk_model(out);
        let ghost data_v = data@;
        let data_copy = copy_bytes(data.as_slice());
        out.push_back(tick, data);
        prev = Some(data_copy);
        proof {
            let pushed = out@;
            assert(chunk_model(out) =~= out_pre.push((tick, data_v)));
            assert forall|entries: Seq<(u64, Seq<u8>)>|
                sorted_pairs(entries) && chunk_entries_bounded(entries) && bytes@ == #[trigger] chunk_bytes_spec(entries) implies {
                &&& chunk_model(out) =~= entries.take(k + 1)
                &&& inner@.skip(off + 16 + plen) =~= records_spec(
                    entries.skip(k + 1),
                    Some(entries[k as int].1),
                )
            } by {
                let rest = entries.skip(k as int);
                let pd = if k == 0 {
                    None
                } else {
                    Some(entries[k - 1].1)
                };
                let spayload = match pd {
                    None => rest[0].1,
                    Some(x) => diff_spec(x, rest[0].1),
                };
                assert(rest[0] == entries[k as int]);
                assert(data_v =~= entries[k as int].1);
                assert(entries.take(k + 1) =~= entries.take(k as int).push(entries[k as int]));
                let rs = records_spec(rest, pd);
                assert(rest.drop_first() =~= entries.skip(k + 1));
                assert(rs.skip(16 + spayload.len() as int) =~= records_spec(
                    entries.skip(k + 1),
                    Some(entries[k as int].1),
                ));
                assert(inner@.skip(off as int).skip(16 + spayload.len() as int) =~= inner@.skip(
                    off + 16 + spayload.len() as int,
                ));
            }
        }
        off = off + 16 + plen;
        k = k + 1;
    }
    if off != ilen {
        proof {
            assert forall|entries: Seq<(u64, Seq<u8>)>|
                sorted_pairs(entries) && chunk_entries_bounded(entries) && bytes@ == #[trigger] chunk_bytes_spec(entries) implies
                false by {
                assert(entries.skip(k as int) =~= Seq::<(u64, Seq<u8>)>::empty());
                assert(records_spec(
                    entries.skip(k as int),
                    if k == 0 {
                        None
                    } else {
                        Some(entries[k - 1].1)
                    },
                ) =~= Seq::<u8>::empty());
            }
        }
        return Err(DemoReadError::Malformed);
    }
    proof {
        assert forall|entries: Seq<(u64, Seq<u8>)>|
            sorted_pairs(entries) && chunk_entries_bounded(entries) && bytes@ == #[trigger] chunk_bytes_spec(entries) implies
            chunk_model(out) =~= entries by {
            assert(entries.take(k as int) =~= entries);
        }
    }
    Ok(out)
}

/// A fully read demo: headers, the raw chunk region, and the seek index.
pub struct DemoContainer {
    /// The fixed-size header.
    pub header: DemoHeader,
    /// The variable-size header.
    pub header_ext: DemoHeaderExt,
    /// The chunk region, untouched (compressed, serialized).
    pub demo_chunks: Vec<u8>,
    /// The seek index.
    pub tail: DemoTail,
}

impl DemoContainer {
    pub open spec fn wf(&self) -> bool {
        1 <= self.header_ext.ticks_per_second <= NANOS_PER_SEC && self.tail.snapshots_index.wf()
            && self.tail.events_index.wf()
    }
}

/// Timeline controls the player reacts to.
#[derive(Clone, Copy, Debug, PartialEq, Eq, Structural)]
pub enum DemoViewerEvent {
    ResumeToggle,
    Stop,
    BackwardFast,
    ForwardFast,
    BackwardStep,
    ForwardStep,
    SpeedSlower,
    SpeedFaster,
    SpeedReset,
    SkipTo { time_ns: u64 },
    Close,
}

/// Slowest playback speed, thousandths of real time.
pub const SPEED_MILLI_MIN: u64 = 31;

/// Fastest playback speed, thousandths of real time.
pub const SPEED_MILLI_MAX: u64 = 4_096_000;

/// Normal playback speed, thousandths of real time.
pub const SPEED_MILLI_NORMAL: u64 = 1000;

/// The first tick the demo's seek index covers; the playback timeline
/// starts there.
pub open spec fn first_indexed_tick(tail: &DemoTail) -> u64 {
    let s = if tail.snapshots_index@.len() > 0 {
        tail.snapshots_index@[0].0
    } else {
        u64::MAX
    };
    let e = if tail.events_index@.len() > 0 {
        tail.events_index@[0].0
    } else {
        u64::MAX
    };
    if s <= e {
        s
    } else {
        e
    }
}

/// The tick a playback time maps to: elapsed whole ticks at the session's
/// rate, offset by the first indexed tick.
pub open spec fn time_to_tick_spec(time_ns: u64, tps: u64, first_tick: u64) -> u64 {
    sat_add((time_ns / ((NANOS_PER_SEC / tps) as u64)) as u64, first_tick)
}

/// Playback state over one demo: current time, pause and speed, and the
/// window of currently resident decoded chunks.
pub struct DemoViewerInner {
    /// The demo played back.
    pub demo: DemoContainer,
    /// Resident snapshot records around the current tick.
    pub cur_snapshots: TickMap<Vec<u8>>,
    /// Resident event records around the current tick.
    pub cur_events: TickMap<Vec<DemoEvent>>,
    /// Current playback time, nanoseconds.
    pub cur_time_ns: u64,
    pub is_closed: bool,
    pub is_paused: bool,
    /// Playback speed, thousandths of real time.
    pub speed_milli: u64,
}

impl DemoViewerInner {
    pub open spec fn wf(&self) -> bool {
        &&& self.demo.wf()
        &&& self.cur_snapshots.wf()
        &&& self.cur_events.wf()
        &&& SPEED_MILLI_MIN <= self.speed_milli <= SPEED_MILLI_MAX
    }

    /// Fresh playback state at the start of a demo.
    pub fn new(demo: DemoContainer) -> (r: Self)
        requires
            demo.wf(),
        ensures
            r.wf(),
            r.demo == demo,
            r.cur_time_ns == 0,
            !r.is_closed,
            !r.is_paused,
            r.speed_milli == SPEED_MILLI_NORMAL,
            r.cur_snapshots@ == Seq::<(u64, Vec<u8>)>::empty(),
            r.cur_events@ == Seq::<(u64, Vec<DemoEvent>)>::empty(),
    {
        DemoViewerInner {
            demo,
            cur_snapshots: TickMap::new(),
            cur_events: TickMap::new(),
            cur_time_ns: 0,
            is_closed: false,
            is_paused: false,
            speed_milli: SPEED_MILLI_NORMAL,
        }
    }

    /// Playback has reached the end of the demo.
    pub fn is_finished(&self) -> (r: bool)
        ensures
            r == (self.cur_time_ns >= self.demo.header.len),
    {
        self.cur_time_ns >= self.demo.header.len
    }

    pub fn is_closed(&self) -> (r: bool)
        ensures
            r == self.is_closed,
    {
        self.is_closed
    }

    pub fn is_paused(&self) -> (r: bool)
        ensures
            r == self.is_paused,
    {
        self.is_paused
    }

    /// Jumps the timeline and drops the resident chunks, which no longer
    /// match the new position.
    pub fn set_time_and_clear_chunks(&mut self, time_ns: u64)
        requires
            old(self).wf(),
        ensures
            final(self).wf(),
            final(self).cur_time_ns == time_ns,
            final(self).cur_snapshots@ == Seq::<(u64, Vec<u8>)>::empty(),
            final(self).cur_events@ == Seq::<(u64, Vec<DemoEvent>)>::empty(),
            final(self).demo == old(self).demo,
            final(self).is_closed == old(self).is_closed,
            final(self).is_paused == old(self).is_paused,
            final(self).speed_milli == old(self).speed_milli,
    {
        self.cur_time_ns = time_ns;
        self.cur_snapshots = TickMap::new();
        self.cur_events = TickMap::new();
    }

    /// Maps a playback time to its monotonic tick; see
    /// [`time_to_tick_spec`].
    pub fn time_to_tick_impl(&self, time_ns: u64) -> (r: u64)
        requires
            self.wf(),
        ensures
            r == time_to_tick_spec(
                time_ns,
                self.demo.header_ext.ticks_per_second,
                first_indexed_tick(&self.demo.tail),
            ),
    {
        let tps = self.demo.header_ext.ticks_per_second;
        let nanos_per_tick = NANOS_PER_SEC / tps;
        proof {
            assert(nanos_per_tick >= 1) by (nonlinear_arith)
                requires
                    1 <= tps <= 1_000_000_000u64,
                    nanos_per_tick == 1_000_000_000int / tps as int,
            {}
        }
        let ticks = time_ns / nanos_per_tick;
        let s = match self.demo.tail.snapshots_index.first_key() {
            Some(k) => k,
            None => u64::MAX,
        };
        let e = match self.demo.tail.events_index.first_key() {
            Some(k) => k,
            None => u64::MAX,
        };
        let first = if s <= e {
            s
        } else {
            e
        };
        if ticks > u64::MAX - first {
            u64::MAX
        } else {
            ticks + first
        }
    }

    /// The tick the current playback time points at.
    pub fn time_to_tick(&self) -> (r: u64)
        requires
            self.wf(),
        ensures
            r == time_to_tick_spec(
                self.cur_time_ns,
                self.demo.header_ext.ticks_per_second,
                first_indexed_tick(&self.demo.tail),
            ),
    {
        self.time_to_tick_impl(self.cur_time_ns)
    }

    /// How far between two resident ticks the playback currently sits;
    /// used for render interpolation. Zero when the two ticks coincide.
    pub fn intra_tick_time(&self, monotonic_tick: u64, prev_monotonic_tick: u64,
        next_monotonic_tick: u64) -> (r: u64)
        requires
            self.wf(),
            prev_monotonic_tick <= monotonic_tick <= next_monotonic_tick,
        ensures
            ({
                let npt = (NANOS_PER_SEC / self.demo.header_ext.ticks_per_second) as int;
                let tick_diff = next_monotonic_tick - prev_monotonic_tick;
                if tick_diff == 0 {
                    r == 0
                } else {
                    r == (self.cur_time_ns as int % npt + (monotonic_tick - prev_monotonic_tick)
                        * npt) / tick_diff
                }
            }),
    {
        let tick_diff = next_monotonic_tick - prev_monotonic_tick;
        if tick_diff == 0 {
            return 0;
        }
        let tps = self.demo.header_ext.ticks_per_second;
        let npt = NANOS_PER_SEC / tps;
        proof {
            assert(npt >= 1) by (nonlinear_arith)
                requires
                    1 <= tps <= 1_000_000_000u64,
                    npt == 1_000_000_000int / tps as int,
            {}
            assert(npt <= 1_000_000_000u64) by (nonlinear_arith)
                requires
                    tps >= 1,
                    npt == 1_000_000_000int / tps as int,
            {}
        }
        let time_in_tick = self.cur_time_ns % npt;
        proof {
            assert(time_in_tick < npt) by (nonlinear_arith)
                requires
                    npt >= 1,
                    time_in_tick == self.cur_time_ns as int % npt as int,
            {}
        }
        let d = (monotonic_tick - prev_monotonic_tick) as u128;
        proof {
            assert((d as int) * (npt as int) <= (0xFFFF_FFFF_FFFF_FFFFu64 as int)
                * 1_000_000_000int) by (nonlinear_arith)
                requires
                    0 <= d <= 0xFFFF_FFFF_FFFF_FFFFu64,
                    0 <= npt <= 1_000_000_000u64,
            {}
        }
        let total: u128 = time_in_tick as u128 + d * (npt as u128);
        let q: u128 = total / (tick_diff as u128);
        proof {
            let npti = npt as int;
            let di = monotonic_tick - prev_monotonic_tick;
            let tdi = next_monotonic_tick - prev_monotonic_tick;
            assert(di * npti <= tdi * npti) by (nonlinear_arith)
                requires
                    di <= tdi,
                    npti >= 0,
            {}
            assert((time_in_tick + di * npti) / tdi <= (tdi * npti + npti) / tdi) by (
            nonlinear_arith)
                requires
                    tdi >= 1,
                    time_in_tick < npti,
                    di * npti <= tdi * npti,
            {}
            assert((tdi * npti + npti) / tdi <= npti + npti) by (nonlinear_arith)
                requires
                    tdi >= 1,
                    npti >= 0,
            {}
        }
        q as u64
    }

    /// Advances the playback clock by a wall-clock delta, scaled by the
    /// playback speed; paused or finished playback does not move.
    pub fn advance_time(&mut self, wall_delta_ns: u64)
        requires
            old(self).wf(),
        ensures
            final(self).wf(),
            ({
                let scaled = (wall_delta_ns * old(self).speed_milli / 1000) as int;
                if !old(self).is_paused && old(self).cur_time_ns < old(self).demo.header.len {
                    final(self).cur_time_ns == (if old(self).cur_time_ns + scaled > u64::MAX {
                        u64::MAX as int
                    } else {
                        old(self).cur_time_ns + scaled
                    })
                } else {
                    final(self).cur_time_ns == old(self).cur_time_ns
                }
            }),
            final(self).demo == old(self).demo,
            final(self).cur_snapshots == old(self).cur_snapshots,
            final(self).cur_events == old(self).cur_events,
            final(self).is_closed == old(self).is_closed,
            final(self).is_paused == old(self).is_paused,
            final(self).speed_milli == old(self).speed_milli,
    {
        if !self.is_paused && self.cur_time_ns < self.demo.header.len {
            proof {
                assert((wall_delta_ns as int) * (self.speed_milli as int)
                    <= (0xFFFF_FFFF_FFFF_FFFFu64 as int) * 4_096_000int) by (nonlinear_arith)
                    requires
                        wall_delta_ns <= 0xFFFF_FFFF_FFFF_FFFFu64,
                        self.speed_milli <= 4_096_000u64,
                {}
            }
            let scaled128: u128 = (wall_delta_ns as u128) * (self.speed_milli as u128) / 1000;
            let scaled: u128 = scaled128;
            let cur: u128 = self.cur_time_ns as u128;
            let sum: u128 = cur + scaled;
            self.cur_time_ns = if sum > u64::MAX as u128 {
                u64::MAX
            } else {
                sum as u64
            };
        }
    }

    /// Applies one timeline control; the playback speed stays clamped to
    /// its sane range and a stop or a seek drops the resident chunks.
    pub fn apply_event(&mut self, ev: &DemoViewerEvent)
        requires
            old(self).wf(),
        ensures
            final(self).wf(),
            final(self).demo == old(self).demo,
            match *ev {
                DemoViewerEvent::ResumeToggle => final(self).is_paused == !old(self).is_paused
                    && final(self).cur_time_ns == old(self).cur_time_ns && final(self).speed_milli
                    == old(self).speed_milli && final(self).is_closed == old(self).is_closed,
                DemoViewerEvent::Stop => final(self).is_paused && final(self).cur_time_ns == 0
                    && final(self).cur_snapshots@.len() == 0 && final(self).cur_events@.len() == 0
                    && final(self).speed_milli == old(self).speed_milli,
                DemoViewerEvent::BackwardFast => final(self).cur_time_ns == 0 && final(self).cur_snapshots@.len() == 0 && final(self).is_paused == old(self).is_paused,
                DemoViewerEvent::ForwardFast => final(self).cur_time_ns == old(
                    self,
                ).demo.header.len && final(self).cur_snapshots@.len() == 0,
                DemoViewerEvent::BackwardStep => final(self).cur_time_ns == sat_sub(
                    old(self).cur_time_ns,
                    ((NANOS_PER_SEC / old(self).demo.header_ext.ticks_per_second) as u64),
                ) && final(self).is_paused == old(self).is_paused,
                DemoViewerEvent::ForwardStep => final(self).cur_time_ns == sat_add(
                    old(self).cur_time_ns,
                    ((NANOS_PER_SEC / old(self).demo.header_ext.ticks_per_second) as u64),
                ) && final(self).is_paused == old(self).is_paused,
                DemoViewerEvent::SpeedSlower => final(self).speed_milli == (if old(
                    self,
                ).speed_milli / 2 < SPEED_MILLI_MIN {
                    SPEED_MILLI_MIN
                } else {
                    (old(self).speed_milli / 2) as u64
                }) && final(self).cur_time_ns == old(self).cur_time_ns,
                DemoViewerEvent::SpeedFaster => final(self).speed_milli == (if old(
                    self,
                ).speed_milli * 2 > SPEED_MILLI_MAX {
                    SPEED_MILLI_MAX
                } else {
                    (old(self).speed_milli * 2) as u64
                }) && final(self).cur_time_ns == old(self).cur_time_ns,
                DemoViewerEvent::SpeedReset => final(self).speed_milli == SPEED_MILLI_NORMAL
                    && final(self).cur_time_ns == old(self).cur_time_ns,
                DemoViewerEvent::SkipTo { time_ns } => final(self).cur_time_ns == time_ns && final(self).cur_snapshots@.len() == 0 && final(self).cur_events@.len() == 0,
                DemoViewerEvent::Close => final(self).is_closed && final(self).cur_time_ns == old(
                    self,
                ).cur_time_ns,
            },
    {
        match ev {
            DemoViewerEvent::ResumeToggle => {
                self.is_paused = !self.is_paused;
            },
            DemoViewerEvent::Stop => {
                self.is_paused = true;
                self.set_time_and_clear_chunks(0);
            },
            DemoViewerEvent::BackwardFast => {
                self.set_time_and_clear_chunks(0);
            },
            DemoViewerEvent::ForwardFast => {
                let t = self.demo.header.len;
                self.set_time_and_clear_chunks(t);
            },
            DemoViewerEvent::BackwardStep => {
                let npt = NANOS_PER_SEC / self.demo.header_ext.ticks_per_second;
                self.cur_time_ns = if self.cur_time_ns >= npt {
                    self.cur_time_ns - npt
                } else {
                    0
                };
            },
            DemoViewerEvent::ForwardStep => {
                let npt = NANOS_PER_SEC / self.demo.header_ext.ticks_per_second;
                self.cur_time_ns = if self.cur_time_ns > u64::MAX - npt {
                    u64::MAX
                } else {
                    self.cur_time_ns + npt
                };
            },
            DemoViewerEvent::SpeedSlower => {
                let s = self.speed_milli / 2;
                self.speed_milli = if s < SPEED_MILLI_MIN {
                    SPEED_MILLI_MIN
                } else {
                    s
                };
            },
            DemoViewerEvent::SpeedFaster => {
                let s = if self.speed_milli > SPEED_MILLI_MAX / 2 {
                    SPEED_MILLI_MAX
                } else {
                    self.speed_milli * 2
                };
                self.speed_milli = if s > SPEED_MILLI_MAX {
                    SPEED_MILLI_MAX
                } else {
                    s
                };
            },
            DemoViewerEvent::SpeedReset => {
                self.speed_milli = SPEED_MILLI_NORMAL;
            },
            DemoViewerEvent::SkipTo { time_ns } => {
                let t = *time_ns;
                self.set_time_and_clear_chunks(t);
            },
            DemoViewerEvent::Close => {
                self.is_closed = true;
            },
        }
    }

    /// Trims the resident window: of the entries at or before the
    /// current tick only the nearest one stays, so that residency is
    /// bounded regardless of the demo's length.
    #[verifier::loop_isolation(false)]
    pub fn trim_chunks<V>(cur_data: &mut TickMap<V>, monotonic_tick: u64)
        requires
            old(cur_data).wf(),
        ensures
            final(cur_data).wf(),
            final(cur_data)@ == old(cur_data)@.skip(
                if upper_bound(old(cur_data)@, monotonic_tick) >= 1 {
                    upper_bound(old(cur_data)@, monotonic_tick) - 1
                } else {
                    0
                },
            ),
            upper_bound(final(cur_data)@, monotonic_tick) <= 1,
    {
        let ghost olds = cur_data@;
        proof {
            crate::tickmap::lemma_upper_bound_splits(olds, monotonic_tick);
        }
        let ghost ub = upper_bound(olds, monotonic_tick);
        let ghost drop_n: int = if ub >= 1 {
            ub - 1
        } else {
            0
        };
        let ghost mut popped: int = 0;
        while cur_data.len() >= 2 && cur_data.key_at(1) <= monotonic_tick
            invariant
                0 <= popped <= drop_n,
                cur_data@ =~= olds.skip(popped),
            decreases olds.len() - popped,
        {
            proof {
                // the second resident entry is still at or below the
                // target, so the popped prefix stays below the bound
                assert(cur_data@[1] == olds[popped + 1]);
                assert(popped + 1 < ub) by {
                    if popped + 1 >= ub {
                        assert(olds[popped + 1].0 > monotonic_tick);
                    }
                }
            }
            let _ = cur_data.pop_first();
            proof {
                popped = popped + 1;
            }
        }
        proof {
            // fewer than two entries remain at or below the target, so
            // exactly the owed prefix was popped
            assert(popped == drop_n) by {
                if popped < drop_n {
                    assert(olds.skip(popped)[1] == olds[popped + 1]);
                    assert(popped + 1 < ub);
                    assert(olds[popped + 1].0 <= monotonic_tick);
                }
            }
            crate::tickmap::lemma_skip_sorted(olds, drop_n);
            if upper_bound(cur_data@, monotonic_tick) > 1 {
                crate::tickmap::lemma_upper_bound_splits(cur_data@, monotonic_tick);
                assert(cur_data@[1] == olds[drop_n + 1]);
                assert(drop_n + 1 >= ub);
                assert(olds[drop_n + 1].0 > monotonic_tick);
                assert(cur_data@[1].0 <= monotonic_tick);
            }
        }
    }

    /// One playback frame's state rebuild: the nearest resident record
    /// at or before the current position rebuilds the authoritative
    /// copy, the following record (when resident) rebuilds the
    /// prediction copy for interpolation. Returns the two ticks the
    /// frame interpolates between; a window without a decodable record
    /// leaves the state untouched.
    pub fn rebuild_for_playback(&self, game: &mut GameState) -> (r: Option<(u64, u64)>)
        requires
            self.wf(),
            old(game).wf(),
        ensures
            final(game).wf(),
            match r {
                Some(ticks) => {
                    &&& self.cur_snapshots@.len() > 0
                    &&& ticks.0 == self.cur_snapshots@[0].0
                    &&& parse_model(self.cur_snapshots@[0].1@).is_some()
                    &&& final(game).game.model() == parse_model(
                        self.cur_snapshots@[0].1@,
                    ).unwrap().0
                    &&& (if self.cur_snapshots@.len() > 1 {
                        &&& ticks.1 == self.cur_snapshots@[1].0
                        &&& (parse_model(self.cur_snapshots@[1].1@).is_some() ==> final(game).pred_game.model() == parse_model(self.cur_snapshots@[1].1@).unwrap().0)
                        &&& (parse_model(self.cur_snapshots@[1].1@).is_none() ==> final(game).pred_game == old(game).pred_game)
                    } else {
                        ticks.1 == ticks.0 && final(game).pred_game == old(game).pred_game
                    })
                },
                None => (self.cur_snapshots@.len() == 0 || parse_model(
                    self.cur_snapshots@[0].1@,
                ).is_none()) && *final(game) == *old(game),
            },
    {
        if self.cur_snapshots.is_empty() {
            return None;
        }
        let prev_tick = self.cur_snapshots.key_at(0);
        let first = self.cur_snapshots.val_at(0);
        match game.build_from_snapshot(first.as_slice()) {
            Ok(_) => {},
            Err(_) => {
                return None;
            },
        }
        if self.cur_snapshots.len() > 1 {
            let next_tick = self.cur_snapshots.key_at(1);
            let second = self.cur_snapshots.val_at(1);
            // interpolation degrades to the rebuilt state when the next
            // record does not decode
            let _ = game.build_from_snapshot_for_pred(second.as_slice());
            Some((prev_tick, next_tick))
        } else {
            Some((prev_tick, prev_tick))
        }
    }

    /// Lazily loads the chunk a target tick needs into the resident
    /// window and evicts what the window no longer needs, bounding
    /// residency to a couple of chunks. Whenever the seek index holds a
    /// floor entry for the target and a well-formed chunk with a record
    /// at or before the target sits at its offset, exactly one such
    /// record is resident afterwards. A chunk that fails to read is
    /// skipped; playback then shows the nearest resident data.
    #[verifier::loop_isolation(false)]
    pub fn check_chunks(&mut self, monotonic_tick: u64)
        requires
            old(self).wf(),
        ensures
            final(self).wf(),
            final(self).demo == old(self).demo,
            final(self).cur_events == old(self).cur_events,
            final(self).cur_time_ns == old(self).cur_time_ns,
            final(self).is_closed == old(self).is_closed,
            final(self).is_paused == old(self).is_paused,
            final(self).speed_milli == old(self).speed_milli,
            upper_bound(final(self).cur_snapshots@, monotonic_tick) <= 1,
            ({
                let idx = old(self).demo.tail.snapshots_index@;
                let ub = upper_bound(idx, monotonic_tick);
                ub >= 1 ==> forall|entries: Seq<(u64, Seq<u8>)>|
                    sorted_pairs(entries) && chunk_entries_bounded(entries)
                        && #[trigger] chunk_at_offset(
                        old(self).demo.demo_chunks@,
                        idx[ub - 1].1 as int,
                        entries,
                    ) && (exists|j: int|
                        0 <= j < entries.len() && (#[trigger] entries[j]).0 <= monotonic_tick)
                        ==> upper_bound(final(self).cur_snapshots@, monotonic_tick) == 1
            }),
    {
        proof {
            crate::tickmap::lemma_upper_bound_splits(
                self.demo.tail.snapshots_index@,
                monotonic_tick,
            );
        }
        let ghost idx = self.demo.tail.snapshots_index@;
        let ghost idx_ub = upper_bound(idx, monotonic_tick);
        // load the chunk at or before the target if none is resident
        let need_load = match self.cur_snapshots.first_key() {
            Some(first) => first > monotonic_tick,
            None => true,
        };
        if need_load {
            match self.demo.tail.snapshots_index.floor_index(monotonic_tick) {
                Some(i) => {
                    proof {
                        // the exec floor position is the index's last
                        // entry at or before the target
                        assert(i == idx_ub - 1) by {
                            if i < idx_ub - 1 {
                                assert(idx[idx_ub - 1].0 <= monotonic_tick);
                            }
                            if i > idx_ub - 1 {
                                assert(idx[i as int].0 > monotonic_tick);
                            }
                        }
                    }
                    let off = *self.demo.tail.snapshots_index.val_at(i);
                    Self::load_chunk_at(&self.demo.demo_chunks, off, &mut self.cur_snapshots);
                    proof {
                        // a well-formed chunk with a record at or before
                        // the target leaves such a record resident
                        assert forall|entries: Seq<(u64, Seq<u8>)>|
                            sorted_pairs(entries) && chunk_entries_bounded(entries)
                                && #[trigger] chunk_at_offset(
                                self.demo.demo_chunks@,
                                idx[idx_ub - 1].1 as int,
                                entries,
                            ) && (exists|j: int|
                                0 <= j < entries.len() && (#[trigger] entries[j]).0
                                    <= monotonic_tick) implies upper_bound(
                            self.cur_snapshots@,
                            monotonic_tick,
                        ) >= 1 by {
                            let j = choose|j: int|
                                0 <= j < entries.len() && (#[trigger] entries[j]).0
                                    <= monotonic_tick;
                            assert(seq_get(self.cur_snapshots@, entries[j].0).is_some());
                            crate::tickmap::lemma_seq_get_some_index(
                                self.cur_snapshots@,
                                entries[j].0,
                            );
                            let i2 = choose|i2: int|
                                0 <= i2 < self.cur_snapshots@.len()
                                    && #[trigger] self.cur_snapshots@[i2] == (
                                entries[j].0,
                                seq_get(self.cur_snapshots@, entries[j].0).unwrap(),
                                );
                            crate::tickmap::lemma_upper_bound_splits(
                                self.cur_snapshots@,
                                monotonic_tick,
                            );
                            if upper_bound(self.cur_snapshots@, monotonic_tick) < 1 {
                                assert(self.cur_snapshots@[i2].0 > monotonic_tick);
                            }
                        }
                    }
                },
                None => {
                    proof {
                        // no floor entry in the index at all
                        assert(idx_ub == 0) by {
                            if idx_ub >= 1 {
                                assert(idx[idx_ub - 1].0 <= monotonic_tick);
                            }
                        }
                    }
                },
            }
        } else {
            proof {
                crate::tickmap::lemma_upper_bound_splits(self.cur_snapshots@, monotonic_tick);
                if upper_bound(self.cur_snapshots@, monotonic_tick) < 1 {
                    assert(self.cur_snapshots@[0].0 > monotonic_tick);
                }
            }
        }
        let ghost pre_trim = self.cur_snapshots@;
        Self::trim_chunks(&mut self.cur_snapshots, monotonic_tick);
        proof {
            // trimming keeps the nearest at-or-before record, so a
            // populated window stays populated
            crate::tickmap::lemma_upper_bound_splits(pre_trim, monotonic_tick);
            let pub0 = upper_bound(pre_trim, monotonic_tick);
            if pub0 >= 1 {
                assert(self.cur_snapshots@[0] == pre_trim[pub0 - 1]);
                assert(pre_trim[pub0 - 1].0 <= monotonic_tick);
                crate::tickmap::lemma_upper_bound_splits(self.cur_snapshots@, monotonic_tick);
                if upper_bound(self.cur_snapshots@, monotonic_tick) < 1 {
                    assert(self.cur_snapshots@[0].0 > monotonic_tick);
                }
            }
        }
    }

    /// Reads the chunk at a byte offset of the chunk region and folds
    /// its records into the resident window: whenever a well-formed
    /// serialized chunk sits at that offset, every one of its records is
    /// resident afterwards. Unreadable bytes are skipped.
    #[verifier::loop_isolation(false)]
    #[verifier::rlimit(60)]
    fn load_chunk_at(demo_chunks: &Vec<u8>, off: u64, cur_data: &mut TickMap<Vec<u8>>)
        requires
            old(cur_data).wf(),
        ensures
            final(cur_data).wf(),
            forall|entries: Seq<(u64, Seq<u8>)>|
                sorted_pairs(entries) && chunk_entries_bounded(entries)
                    && #[trigger] chunk_at_offset(demo_chunks@, off as int, entries) ==> (forall|
                    j: int,
                |
                    0 <= j < entries.len() ==> seq_get(
                        final(cur_data)@,
                        (#[trigger] entries[j]).0,
                    ).is_some() && seq_get(final(cur_data)@, entries[j].0).unwrap()@
                        == entries[j].1),
    {
        proof {
            vstd::bytes::lemma_auto_spec_u64_to_from_le_bytes();
        }
        let total = demo_chunks.len();
        if off >= total as u64 || total as u64 - off < 8 {
            proof {
                assert forall|entries: Seq<(u64, Seq<u8>)>|
                    sorted_pairs(entries) && chunk_entries_bounded(entries)
                        && #[trigger] chunk_at_offset(demo_chunks@, off as int, entries) implies
                    false by {
                    assert(chunk_bytes_spec(entries).len() >= 8);
                }
            }
            return ;
        }
        let offu = off as usize;
        let size = read_u64(demo_chunks.as_slice(), offu);
        if size > (total - offu - 8) as u64 {
            proof {
                assert forall|entries: Seq<(u64, Seq<u8>)>|
                    sorted_pairs(entries) && chunk_entries_bounded(entries)
                        && #[trigger] chunk_at_offset(demo_chunks@, off as int, entries) implies
                    false by {
                    let cbs = chunk_bytes_spec(entries);
                    let frame = zstd_frame_of(chunk_inner_spec(entries));
                    assert(demo_chunks@.subrange(offu as int, offu + 8) =~= cbs.subrange(0, 8));
                    assert(cbs.subrange(0, 8) =~= spec_u64_to_le_bytes(frame.len() as u64));
                    assert(size == frame.len() as u64);
                    assert(cbs.len() == 8 + frame.len());
                }
            }
            return ;
        }
        let end = offu + 8 + size as usize;
        let slice = vstd::slice::slice_subrange(demo_chunks.as_slice(), offu, end);
        proof {
            assert forall|entries: Seq<(u64, Seq<u8>)>|
                sorted_pairs(entries) && chunk_entries_bounded(entries)
                    && #[trigger] chunk_at_offset(demo_chunks@, off as int, entries) implies slice@
                == chunk_bytes_spec(entries) by {
                let cbs = chunk_bytes_spec(entries);
                let frame = zstd_frame_of(chunk_inner_spec(entries));
                assert(demo_chunks@.subrange(offu as int, offu + 8) =~= cbs.subrange(0, 8));
                assert(cbs.subrange(0, 8) =~= spec_u64_to_le_bytes(frame.len() as u64));
                assert(size == frame.len() as u64);
                assert(cbs.len() == 8 + frame.len());
                assert(slice@ =~= demo_chunks@.subrange(offu as int, offu + cbs.len() as int));
            }
        }
        match read_chunk(slice) {
            Ok(chunk) => {
                let ghost orig_view = chunk@;
                let ghost k: int = 0;
                let mut rest = chunk;
                loop
                    invariant
                        cur_data.wf(),
                        rest.wf(),
                        0 <= k <= orig_view.len(),
                        rest@ =~= orig_view.skip(k),
                        sorted_pairs(orig_view),
                        forall|j: int|
                            0 <= j < k ==> seq_get(
                                cur_data@,
                                (#[trigger] orig_view[j]).0,
                            ).is_some() && seq_get(cur_data@, orig_view[j].0).unwrap()@
                                == orig_view[j].1@,
                    decreases rest@.len(),
                {
                    match rest.pop_first() {
                        Some((tick, record)) => {
                            let ghost pre_view = cur_data@;
                            cur_data.insert(tick, record);
                            proof {
                                assert(orig_view[k] == (tick, record));
                                assert(seq_get(cur_data@, tick) == Some(record)) by {
                                    assert(cur_data.spec_get(tick) == Some(record));
                                }
                                assert forall|j: int| 0 <= j < k implies seq_get(
                                    cur_data@,
                                    (#[trigger] orig_view[j]).0,
                                ).is_some() && seq_get(cur_data@, orig_view[j].0).unwrap()@
                                    == orig_view[j].1@ by {
                                    assert(orig_view[j].0 < orig_view[k].0);
                                    // the insert left every other key's
                                    // lookup unchanged
                                    assert(cur_data.spec_get(orig_view[j].0) == seq_get(
                                        pre_view,
                                        orig_view[j].0,
                                    ));
                                }
                                k = k + 1;
                            }
                        },
                        None => {
                            proof {
                                assert(orig_view.skip(k).len() == 0);
                                assert(k == orig_view.len());
                            }
                            break ;
                        },
                    }
                }
                proof {
                    assert forall|entries: Seq<(u64, Seq<u8>)>|
                        sorted_pairs(entries) && chunk_entries_bounded(entries)
                            && #[trigger] chunk_at_offset(demo_chunks@, off as int, entries)
                        implies (forall|j: int|
                        0 <= j < entries.len() ==> seq_get(
                            cur_data@,
                            (#[trigger] entries[j]).0,
                        ).is_some() && seq_get(cur_data@, entries[j].0).unwrap()@
                            == entries[j].1) by {
                        assert(chunk_model(chunk) == entries);
                        assert forall|j: int| 0 <= j < entries.len() implies seq_get(
                            cur_data@,
                            (#[trigger] entries[j]).0,
                        ).is_some() && seq_get(cur_data@, entries[j].0).unwrap()@
                            == entries[j].1 by {
                            assert(chunk_model(chunk)[j] == (orig_view[j].0, orig_view[j].1@));
                            assert(entries[j].0 == orig_view[j].0);
                            assert(entries[j].1 == orig_view[j].1@);
                        }
                    }
                }
            },
            Err(_) => {
                proof {
                    assert forall|entries: Seq<(u64, Seq<u8>)>|
                        sorted_pairs(entries) && chunk_entries_bounded(entries)
                            && #[trigger] chunk_at_offset(demo_chunks@, off as int, entries)
                        implies false by {}
                }
            },
        }
    }
}

/// A demo player ready to render.
pub struct DemoViewerImpl {
    /// The playback state.
    pub inner: DemoViewerInner,
    /// Name the demo was opened under.
    pub demo_name: String,
}

impl DemoViewerImpl {
    pub open spec fn wf(&self) -> bool {
        self.inner.wf()
    }

    /// Opens playback over a read demo.
    pub fn new(demo: DemoContainer, demo_name: String) -> (r: Self)
        requires
            demo.wf(),
        ensures
            r.wf(),
            r.inner.demo == demo,
            r.inner.cur_time_ns == 0,
            r.demo_name == demo_name,
    {
        DemoViewerImpl { inner: DemoViewerInner::new(demo), demo_name }
    }

    pub fn is_finished(&self) -> (r: bool)
        ensures
            r == (self.inner.cur_time_ns >= self.inner.demo.header.len),
    {
        self.inner.is_finished()
    }

    pub fn is_closed(&self) -> (r: bool)
        ensures
            r == self.inner.is_closed,
    {
        self.inner.is_closed()
    }
}

/// A demo player waiting for its file to be read.
pub struct DemoViewerLoading {
    /// Name the demo was opened under.
    pub name: String,
}

/// A demo player whose file is read, waiting for its components (map,
/// render state) to finish loading.
pub struct DemoViewerLoadingComponents {
    /// The read demo.
    pub demo: DemoContainer,
    /// Name the demo was opened under.
    pub name: String,
}

/// The demo player's loading state machine: the file is read, then the
/// components load, then playback renders. The file read and the
/// component loading are outside work; their outcomes are handed to
/// [`DemoViewer::continue_loading`].
pub enum DemoViewer {
    Loading(DemoViewerLoading),
    LoadingComponents(DemoViewerLoadingComponents),
    Rendering(DemoViewerImpl),
    Inactive,
}

impl DemoViewer {
    pub open spec fn wf(&self) -> bool {
        match self {
            DemoViewer::LoadingComponents(l) => l.demo.wf(),
            DemoViewer::Rendering(v) => v.wf(),
            _ => true,
        }
    }

    /// Starts opening a demo by name; the file read happens outside.
    pub fn new(name: String) -> (r: Self)
        ensures
            r.wf(),
            r matches DemoViewer::Loading(l) && l.name == name,
    {
        DemoViewer::Loading(DemoViewerLoading { name })
    }

    /// The player, when it renders.
    pub fn try_get(&self) -> (r: Option<&DemoViewerImpl>)
        ensures
            match self {
                DemoViewer::Rendering(v) => r.is_some() && *r.unwrap() == *v,
                _ => r.is_none(),
            },
    {
        match self {
            DemoViewer::Rendering(viewer) => Some(viewer),
            _ => None,
        }
    }

    /// The player, mutably, when it renders.
    pub fn try_get_mut(&mut self) -> (r: Option<&mut DemoViewerImpl>)
        ensures
            (old(self) matches DemoViewer::Rendering(_) ==> r.is_some()),
            !(old(self) matches DemoViewer::Rendering(_)) ==> r.is_none() && *final(self) == *old(
                self,
            ),
    {
        match self {
            DemoViewer::Rendering(viewer) => Some(viewer),
            _ => None,
        }
    }

    /// One step of the loading state machine: a finished file read moves
    /// loading on to the components, finished components start
    /// rendering; anything else stays put.
    pub fn continue_loading(self, read_demo: Option<DemoContainer>, components_ready: bool) -> (r:
        Self)
        requires
            self.wf(),
            match read_demo {
                Some(d) => d.wf(),
                None => true,
            },
        ensures
            r.wf(),
            match self {
                DemoViewer::Loading(l) => {
                    match read_demo {
                        Some(d) => r matches DemoViewer::LoadingComponents(c) && c.demo == d
                            && c.name == l.name,
                        None => r matches DemoViewer::Loading(l2) && l2.name == l.name,
                    }
                },
                DemoViewer::LoadingComponents(c) => {
                    if components_ready {
                        r matches DemoViewer::Rendering(v) && v.inner.demo == c.demo
                            && v.demo_name == c.name && v.inner.cur_time_ns == 0
                    } else {
                        r matches DemoViewer::LoadingComponents(c2) && c2.demo == c.demo
                            && c2.name == c.name
                    }
                },
                DemoViewer::Rendering(v) => r matches DemoViewer::Rendering(v2) && v2 == v,
                DemoViewer::Inactive => r matches DemoViewer::Inactive,
            },
    {
        match self {
            DemoViewer::Loading(l) => {
                match read_demo {
                    Some(d) => DemoViewer::LoadingComponents(
                        DemoViewerLoadingComponents { demo: d, name: l.name },
                    ),
                    None => DemoViewer::Loading(l),
                }
            },
            DemoViewer::LoadingComponents(c) => {
                if components_ready {
                    DemoViewer::Rendering(DemoViewerImpl::new(c.demo, c.name))
                } else {
                    DemoViewer::LoadingComponents(c)
                }
            },
            DemoViewer::Rendering(v) => DemoViewer::Rendering(v),
            DemoViewer::Inactive => DemoViewer::Inactive,
        }
    }
}

/// Concatenation of a run of chunk contents.
pub open spec fn concat_chunks<V>(s: Seq<Seq<(u64, V)>>) -> Seq<(u64, V)>
    decreases s.len(),
{
    if s.len() == 0 {
        Seq::empty()
    } else {
        concat_chunks(s.drop_last()) + s.last()
    }
}

/// Appending one chunk appends its contents.
proof fn lemma_concat_snoc<V>(s: Seq<Seq<(u64, V)>>, c: Seq<(u64, V)>)
    ensures
        concat_chunks(s.push(c)) == concat_chunks(s) + c,
{
    assert(s.push(c).drop_last() =~= s);
    assert(s.push(c).last() == c);
}

} // verus!
