//! The demo recorder and player: chunk accumulation and flushing, the
//! monotonic seek-index invariant, the header length, the chunk byte
//! codec, and timeline control.

use client_core::demo::{
    demo_len_ns, encode_demo_header, encode_demo_tail, parse_demo_header, parse_demo_tail,
    read_chunk, serialize_chunk, ChunkWriter, DemoContainer, DemoEvent, DemoHeader, DemoHeaderExt,
    DemoRecorder, DemoTail, DemoViewer, DemoViewerEvent, DemoViewerInner, DemoWriteError,
    SPEED_MILLI_MAX, SPEED_MILLI_MIN, SPEED_MILLI_NORMAL,
};
use client_core::iface::GameStateCreateOptions;
use client_core::state::{GameState, SnapshotClientInfo};
use client_core::tickmap::TickMap;

fn header_ext() -> DemoHeaderExt {
    DemoHeaderExt {
        server: String::new(),
        map: "arena".to_string(),
        map_hash: 7,
        ticks_per_second: 50,
        physics_group_name: "vanilla".to_string(),
    }
}

fn chunk_of(entries: &[(u64, &[u8])]) -> TickMap<Vec<u8>> {
    let mut m = TickMap::new();
    for (t, d) in entries {
        m.insert(*t, d.to_vec());
    }
    m
}

#[test]
fn chunk_writer_rejects_backward_first_tick() {
    let mut w = ChunkWriter::new();
    let first = chunk_of(&[(10, b"a"), (20, b"b")]);
    let bytes_a = w.write_chunk(&first).expect("first chunk must write");
    // ticks moved backward relative to the chunk already written
    let bad = chunk_of(&[(15, b"c"), (25, b"d")]);
    assert_eq!(w.write_chunk(&bad), Err(DemoWriteError::NonMonotonicLast));
    let really_bad = chunk_of(&[(5, b"c"), (25, b"d")]);
    assert_eq!(w.write_chunk(&really_bad), Err(DemoWriteError::NonMonotonicFirst));
    // a monotonic follow-up succeeds and lands in the index
    let good = chunk_of(&[(21, b"c"), (30, b"d")]);
    let _bytes_b = w.write_chunk(&good).expect("monotonic chunk must write");
    assert_eq!(w.index.len(), 2);
    assert_eq!(w.index.get(10), Some(&0));
    assert_eq!(w.index.get(21), Some(&(bytes_a.len() as u64)));
    assert_eq!(w.first_monotonic, Some(10));
    assert_eq!(w.last_monotonic, Some(30));
}

#[test]
fn chunk_writer_rejects_empty_chunk() {
    let mut w = ChunkWriter::new();
    let empty: TickMap<Vec<u8>> = TickMap::new();
    assert_eq!(w.write_chunk(&empty), Err(DemoWriteError::EmptyChunk));
}

#[test]
fn three_second_recording_flushes_once_on_close() {
    let mut rec = DemoRecorder::new(header_ext());
    // 150 entries at 50 ticks per second: three seconds of snapshots
    for tick in 0..150u64 {
        let flushed = rec.add_snapshot(tick, vec![tick as u8; 16]);
        assert!(flushed.is_none(), "no automatic flush below the thresholds");
    }
    assert_eq!(rec.snapshots.len(), 150);
    let chunks = DemoRecorder::flush_remaining(&mut rec.snapshots);
    assert_eq!(chunks.len(), 1, "one chunk holds the whole recording");
    assert_eq!(chunks[0].len(), 150);
    assert_eq!(chunks[0].first_key(), Some(0));
    assert_eq!(chunks[0].last_key(), Some(149));
    // the header length: the covered span at 50 ticks/s, about three
    // seconds save one tick's rounding
    let len = demo_len_ns(0, 149, 50);
    assert_eq!(len, 2_980_000_000);
    assert!(3_000_000_000u64 - len <= 20_000_000);
}

#[test]
fn late_records_outside_residency_are_ignored() {
    let mut rec = DemoRecorder::new(header_ext());
    rec.add_snapshot(1000, vec![1]);
    // more than three seconds (150 ticks) before the newest entry
    rec.add_snapshot(700, vec![2]);
    assert!(rec.snapshots.get(700).is_none());
    // within the residency span it still lands
    rec.add_snapshot(900, vec![3]);
    assert_eq!(rec.snapshots.get(900), Some(&vec![3]));
}

#[test]
fn events_accumulate_at_their_tick() {
    let mut rec = DemoRecorder::new(header_ext());
    rec.add_event(5, DemoEvent::Game { event_id: 1 });
    rec.add_event(5, DemoEvent::Game { event_id: 2 });
    let evs = rec.events.get(5).unwrap();
    assert_eq!(evs.len(), 2);
}

#[test]
fn chunk_bytes_round_trip() {
    // diff-chained payloads with high overlap, as snapshots have
    let chunk = chunk_of(&[
        (10, b"aaaaaaaaaaaaaaaaaaaa"),
        (11, b"aaaaaaaaaabaaaaaaaaa"),
        (12, b"aaaaaaaaaabbaaaaaaaa"),
    ]);
    let bytes = serialize_chunk(&chunk).expect("serialization succeeds");
    let back = read_chunk(&bytes).expect("its own bytes read back");
    assert_eq!(back.len(), 3);
    assert_eq!(back.get(10), Some(&b"aaaaaaaaaaaaaaaaaaaa".to_vec()));
    assert_eq!(back.get(11), Some(&b"aaaaaaaaaabaaaaaaaaa".to_vec()));
    assert_eq!(back.get(12), Some(&b"aaaaaaaaaabbaaaaaaaa".to_vec()));
}

#[test]
fn chunk_reader_rejects_garbage() {
    assert!(read_chunk(b"junk").is_err());
    assert!(read_chunk(&[0u8; 64]).is_err());
}

fn container() -> DemoContainer {
    let mut snapshots_index = TickMap::new();
    snapshots_index.insert(100, 0);
    DemoContainer {
        header: DemoHeader { len: 3_000_000_000, size_ext: 0, size_chunks: 0 },
        header_ext: header_ext(),
        demo_chunks: Vec::new(),
        tail: DemoTail { snapshots_index, events_index: TickMap::new() },
    }
}

#[test]
fn playback_time_maps_to_ticks() {
    let v = DemoViewerInner::new(container());
    // one second at 50 ticks/s, offset by the first indexed tick 100
    assert_eq!(v.time_to_tick_impl(1_000_000_000), 150);
    assert_eq!(v.time_to_tick_impl(0), 100);
    // half a tick in: intra-tick time interpolates between neighbors
    let mut v2 = v;
    v2.cur_time_ns = 10_000_000;
    assert_eq!(v2.intra_tick_time(100, 100, 101), 10_000_000);
    assert_eq!(v2.intra_tick_time(100, 100, 100), 0);
}

#[test]
fn viewer_events_control_the_timeline() {
    let mut v = DemoViewerInner::new(container());
    assert!(!v.is_paused());
    v.apply_event(&DemoViewerEvent::ResumeToggle);
    assert!(v.is_paused());
    v.apply_event(&DemoViewerEvent::SkipTo { time_ns: 2_000_000_000 });
    assert_eq!(v.cur_time_ns, 2_000_000_000);
    v.apply_event(&DemoViewerEvent::ForwardStep);
    assert_eq!(v.cur_time_ns, 2_020_000_000);
    v.apply_event(&DemoViewerEvent::BackwardStep);
    assert_eq!(v.cur_time_ns, 2_000_000_000);
    v.apply_event(&DemoViewerEvent::Stop);
    assert_eq!(v.cur_time_ns, 0);
    assert!(v.is_paused());
    v.apply_event(&DemoViewerEvent::ForwardFast);
    assert!(v.is_finished());
    v.apply_event(&DemoViewerEvent::Close);
    assert!(v.is_closed());
}

#[test]
fn playback_speed_is_clamped() {
    let mut v = DemoViewerInner::new(container());
    assert_eq!(v.speed_milli, SPEED_MILLI_NORMAL);
    for _ in 0..20 {
        v.apply_event(&DemoViewerEvent::SpeedSlower);
    }
    assert_eq!(v.speed_milli, SPEED_MILLI_MIN);
    for _ in 0..20 {
        v.apply_event(&DemoViewerEvent::SpeedFaster);
    }
    assert_eq!(v.speed_milli, SPEED_MILLI_MAX);
    v.apply_event(&DemoViewerEvent::SpeedReset);
    assert_eq!(v.speed_milli, SPEED_MILLI_NORMAL);
}

#[test]
fn paused_playback_does_not_advance() {
    let mut v = DemoViewerInner::new(container());
    v.advance_time(500_000_000);
    assert_eq!(v.cur_time_ns, 500_000_000);
    v.apply_event(&DemoViewerEvent::ResumeToggle);
    v.advance_time(500_000_000);
    assert_eq!(v.cur_time_ns, 500_000_000);
}

#[test]
fn resident_window_is_trimmed() {
    let mut cur: TickMap<Vec<u8>> = TickMap::new();
    for t in [10u64, 20, 30, 40, 50] {
        cur.insert(t, vec![t as u8]);
    }
    DemoViewerInner::trim_chunks(&mut cur, 35);
    // only the nearest chunk at-or-before the target stays resident
    assert_eq!(cur.first_key(), Some(30));
    assert_eq!(cur.len(), 3);
}

#[test]
fn viewer_loading_walks_its_states() {
    let v = DemoViewer::new("race_finals".to_string());
    assert!(v.try_get().is_none());
    // the file read has not finished yet
    let v = v.continue_loading(None, false);
    assert!(v.try_get().is_none());
    let v = v.continue_loading(Some(container()), false);
    // components still loading
    let v = v.continue_loading(None, false);
    assert!(v.try_get().is_none());
    let mut v = v.continue_loading(None, true);
    let player = v.try_get().expect("rendering after both stages finished");
    assert_eq!(player.demo_name, "race_finals");
    assert!(!player.is_closed());
    assert!(v.try_get_mut().is_some());
}

#[test]
fn container_header_and_tail_round_trip() {
    let h = DemoHeader { len: 2_980_000_000, size_ext: 0, size_chunks: 1234 };
    let hb = encode_demo_header(&h);
    assert_eq!(parse_demo_header(&hb), Some(h));
    // a header parse only needs the prefix
    let mut longer = hb.clone();
    longer.extend_from_slice(b"chunks...");
    assert_eq!(parse_demo_header(&longer), Some(h));
    assert_eq!(parse_demo_header(&hb[..20]), None);

    let mut snapshots_index = TickMap::new();
    snapshots_index.insert(10, 0);
    snapshots_index.insert(21, 77);
    let mut events_index = TickMap::new();
    events_index.insert(10, 0);
    let tail = DemoTail { snapshots_index, events_index };
    let tb = encode_demo_tail(&tail);
    let back = parse_demo_tail(&tb).expect("its own bytes parse back");
    assert_eq!(back.snapshots_index.get(10), Some(&0));
    assert_eq!(back.snapshots_index.get(21), Some(&77));
    assert_eq!(back.events_index.len(), 1);
    assert!(parse_demo_tail(b"short").is_err());
    assert!(parse_demo_tail(&tb[..tb.len() - 1]).is_err());
}

#[test]
fn teardown_flush_groups_in_bounded_chunks() {
    let mut pending: TickMap<Vec<u8>> = TickMap::new();
    for t in 0..3100u64 {
        pending.insert(t, vec![t as u8]);
    }
    let chunks = DemoRecorder::flush_remaining(&mut pending);
    let sizes: Vec<usize> = chunks.iter().map(|c| c.len()).collect();
    assert_eq!(sizes, vec![1500, 1500, 100]);
    assert_eq!(pending.len(), 0);
}

#[test]
fn check_chunks_loads_the_needed_chunk() {
    // a real chunk region and tail built through the writer
    let mut w = ChunkWriter::new();
    let first = chunk_of(&[(100, b"record-a"), (110, b"record-b")]);
    let second = chunk_of(&[(120, b"record-c"), (130, b"record-d")]);
    let mut region = w.write_chunk(&first).unwrap();
    region.extend_from_slice(&w.write_chunk(&second).unwrap());
    let container = DemoContainer {
        header: DemoHeader { len: 3_000_000_000, size_ext: 0, size_chunks: region.len() as u64 },
        header_ext: header_ext(),
        demo_chunks: region,
        tail: DemoTail { snapshots_index: w.index, events_index: TickMap::new() },
    };
    let mut v = DemoViewerInner::new(container);
    // nothing resident; the viewer must fetch the chunk covering 115
    v.check_chunks(115);
    assert_eq!(v.cur_snapshots.get(110), Some(&b"record-b".to_vec()));
    // only the nearest at-or-before record stays
    assert!(v.cur_snapshots.get(100).is_none());
}

#[test]
fn playback_rebuild_uses_the_two_nearest_records() {
    let opts = GameStateCreateOptions { hint_max_characters: None, config: None };
    let filter = SnapshotClientInfo { client_player_ids: Vec::new() };
    let (mut server, _) = GameState::new(&opts);
    server.player_join();
    let snap_a = server.snapshot_for(&filter);
    server.tick();
    let snap_b = server.snapshot_for(&filter);

    let mut v = DemoViewerInner::new(container());
    v.cur_snapshots.insert(100, snap_a.clone());
    v.cur_snapshots.insert(101, snap_b.clone());
    let (mut playback, _) = GameState::new(&opts);
    let (prev, next) = v.rebuild_for_playback(&mut playback).expect("records decode");
    assert_eq!((prev, next), (100, 101));
    // the authoritative copy shows the first record, the prediction
    // copy the second
    assert_eq!(playback.snapshot_for(&filter), snap_a);
    assert_eq!(playback.pred_game.tick_count, 1);
    // undecodable records are reported, not applied
    let mut broken = DemoViewerInner::new(container());
    broken.cur_snapshots.insert(100, b"garbage".to_vec());
    assert!(broken.rebuild_for_playback(&mut playback).is_none());
}
