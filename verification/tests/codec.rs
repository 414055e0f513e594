//! The snapshot codec: diff/patch round trips, base-mismatch detection,
//! and the zstd compression layer.

use client_core::codec::{compress, decompress, diff, patch, PatchError};

fn roundtrip(base: &[u8], target: &[u8]) {
    let d = diff(base, target);
    let out = patch(base, &d).expect("patch of its own diff must apply");
    assert_eq!(out, target.to_vec());
}

#[test]
fn patch_round_trip_basic() {
    roundtrip(b"hello world", b"hello brave world");
}

#[test]
fn patch_round_trip_empty_base() {
    roundtrip(b"", b"fresh content");
}

#[test]
fn patch_round_trip_empty_target() {
    roundtrip(b"old content", b"");
}

#[test]
fn patch_round_trip_equal() {
    roundtrip(b"unchanged", b"unchanged");
}

#[test]
fn patch_round_trip_disjoint() {
    roundtrip(b"aaaa", b"bbbbbb");
}

#[test]
fn patch_round_trip_prefix_suffix_overlap() {
    // target shares a long prefix and suffix with the base
    roundtrip(b"abcXYZdef", b"abcdef");
    roundtrip(b"abcdef", b"abcXYZdef");
    roundtrip(b"aaaa", b"aaaaaa");
}

#[test]
fn patch_wrong_base_is_detected() {
    let base = b"the real base".to_vec();
    let other = b"another base!".to_vec();
    let target = b"the real target".to_vec();
    let d = diff(&base, &target);
    let r = patch(&other, &d);
    assert_eq!(r, Err(PatchError::BaseMismatch));
}

#[test]
fn patch_wrong_length_base_is_detected() {
    let base = b"short".to_vec();
    let target = b"short and longer".to_vec();
    let d = diff(&base, &target);
    let r = patch(b"longer than before", &d);
    assert_eq!(r, Err(PatchError::BaseMismatch));
}

#[test]
fn patch_too_short_is_detected() {
    let r = patch(b"base", &[1, 2, 3]);
    assert_eq!(r, Err(PatchError::TooShort));
}

#[test]
fn patch_corrupt_header_is_detected() {
    let base = b"abcd".to_vec();
    let d = diff(&base, b"abcdef");
    // overwrite the prefix-length field with an impossible value
    let mut corrupt = d.clone();
    corrupt[16..24].copy_from_slice(&u64::MAX.to_le_bytes());
    let r = patch(&base, &corrupt);
    assert_eq!(r, Err(PatchError::CorruptHeader));
}

#[test]
fn compress_decompress_round_trip() {
    let data = b"snapshots repeat themselves, snapshots repeat themselves".to_vec();
    let c = compress(&data).expect("compression of plain bytes succeeds");
    // a different input compresses to different bytes
    assert_ne!(c, data);
    let d = decompress(&c).expect("decompression of a fresh frame succeeds");
    assert_eq!(d, data);
}

#[test]
fn decompress_garbage_is_rejected() {
    assert!(decompress(b"this is not a zstd frame").is_none());
}
