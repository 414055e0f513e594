//! The snapshot codec: a byte-level diff/patch pair used to transmit and
//! store world state, and a zstd compression layer used where no prior
//! record exists to diff against.
//!
//! A patch carries the length and a checksum of the base it was computed
//! against, so applying it to a different base is detected and reported as
//! an error instead of silently producing corrupt state.

use vstd::prelude::*;
use vstd::bytes::{
    lemma_auto_spec_u64_to_from_le_bytes, spec_u64_from_le_bytes, spec_u64_to_le_bytes,
    u64_from_le_bytes, u64_to_le_bytes,
};
use vstd::slice::slice_subrange;

verus! {

/// Number of header bytes at the front of a patch: base length, base
/// checksum, shared prefix length, shared suffix length, 8 bytes each.
pub const PATCH_HEADER_BYTES: usize = 32;

/// Rolling checksum of a byte sequence, folded modulo 2^32.
pub open spec fn checksum_of(s: Seq<u8>) -> u64
    decreases s.len(),
{
    if s.len() == 0 {
        0
    } else {
        ((((checksum_of(s.drop_last()) * 257) + s.last()) % 0x1_0000_0000) as u64)
    }
}

/// What applying patch `d` to `base` yields: `None` on any framing or
/// base mismatch, otherwise the reconstructed target.
pub open spec fn patch_spec(base: Seq<u8>, d: Seq<u8>) -> Option<Seq<u8>> {
    if d.len() < PATCH_HEADER_BYTES {
        None
    } else {
        let base_len = spec_u64_from_le_bytes(d.subrange(0, 8));
        let base_ck = spec_u64_from_le_bytes(d.subrange(8, 16));
        let prefix = spec_u64_from_le_bytes(d.subrange(16, 24));
        let suffix = spec_u64_from_le_bytes(d.subrange(24, 32));
        if base_len != base.len() || base_ck != checksum_of(base) {
            None
        } else if prefix + suffix > base.len() {
            None
        } else {
            Some(
                base.take(prefix as int) + d.skip(PATCH_HEADER_BYTES as int) + base.skip(
                    base.len() - suffix,
                ),
            )
        }
    }
}

/// Length of the longest common prefix of two byte sequences.
pub open spec fn lcp_len(a: Seq<u8>, b: Seq<u8>) -> int
    decreases a.len(),
{
    if a.len() == 0 || b.len() == 0 || a[0] != b[0] {
        0
    } else {
        1 + lcp_len(a.drop_first(), b.drop_first())
    }
}

/// Length of the longest common suffix of two byte sequences.
pub open spec fn lcs_len(a: Seq<u8>, b: Seq<u8>) -> int
    decreases a.len(),
{
    if a.len() == 0 || b.len() == 0 || a.last() != b.last() {
        0
    } else {
        1 + lcs_len(a.drop_last(), b.drop_last())
    }
}

/// The patch [`diff`] emits: framing header, then the middle of the
/// target that the base does not share.
pub open spec fn diff_spec(base: Seq<u8>, target: Seq<u8>) -> Seq<u8> {
    let minl = if base.len() <= target.len() {
        base.len() as int
    } else {
        target.len() as int
    };
    let p = lcp_len(base, target);
    let smax = minl - p;
    let s = if lcs_len(base, target) > smax {
        smax
    } else {
        lcs_len(base, target)
    };
    spec_u64_to_le_bytes(base.len() as u64) + spec_u64_to_le_bytes(checksum_of(base))
        + spec_u64_to_le_bytes(p as u64) + spec_u64_to_le_bytes(s as u64) + target.subrange(
        p,
        target.len() - s,
    )
}

/// The common prefix is a prefix: its length is bounded and it matches.
pub proof fn lemma_lcp_props(a: Seq<u8>, b: Seq<u8>)
    ensures
        0 <= lcp_len(a, b) <= a.len(),
        lcp_len(a, b) <= b.len(),
        forall|j: int| 0 <= j < lcp_len(a, b) ==> a[j] == b[j],
    decreases a.len(),
{
    if a.len() > 0 && b.len() > 0 && a[0] == b[0] {
        lemma_lcp_props(a.drop_first(), b.drop_first());
        assert forall|j: int| 0 <= j < lcp_len(a, b) implies a[j] == b[j] by {
            if j > 0 {
                assert(a.drop_first()[j - 1] == a[j]);
                assert(b.drop_first()[j - 1] == b[j]);
            }
        }
    }
}

/// A matching prefix of length `l` that stops at a mismatch (or at the
/// end of either sequence) is the longest common prefix.
pub proof fn lemma_lcp_char(a: Seq<u8>, b: Seq<u8>, l: int)
    requires
        0 <= l <= a.len(),
        l <= b.len(),
        forall|j: int| 0 <= j < l ==> a[j] == b[j],
        l == a.len() || l == b.len() || a[l] != b[l],
    ensures
        lcp_len(a, b) == l,
    decreases l,
{
    if l == 0 {
        if a.len() > 0 && b.len() > 0 {
            assert(a[0] != b[0]);
        }
    } else {
        assert(a[0] == b[0]);
        let a2 = a.drop_first();
        let b2 = b.drop_first();
        assert(forall|j: int| 0 <= j < l - 1 ==> a2[j] == a[j + 1] && b2[j] == b[j + 1]);
        lemma_lcp_char(a2, b2, l - 1);
    }
}

/// The common suffix matches element-wise from the back.
pub proof fn lemma_lcs_props(a: Seq<u8>, b: Seq<u8>)
    ensures
        0 <= lcs_len(a, b) <= a.len(),
        lcs_len(a, b) <= b.len(),
        forall|j: int|
            0 <= j < lcs_len(a, b) ==> #[trigger] a[a.len() - 1 - j] == b[b.len() - 1 - j],
    decreases a.len(),
{
    if a.len() > 0 && b.len() > 0 && a.last() == b.last() {
        lemma_lcs_props(a.drop_last(), b.drop_last());
        assert forall|j: int| 0 <= j < lcs_len(a, b) implies #[trigger] a[a.len() - 1 - j]
            == b[b.len() - 1 - j] by {
            if j > 0 {
                assert(a.drop_last()[a.len() - 2 - (j - 1)] == a[a.len() - 1 - j]);
                assert(b.drop_last()[b.len() - 2 - (j - 1)] == b[b.len() - 1 - j]);
            }
        }
    }
}

/// A matching suffix of length `l` that stops at a mismatch (or at the
/// end of either sequence) is the longest common suffix.
pub proof fn lemma_lcs_char(a: Seq<u8>, b: Seq<u8>, l: int)
    requires
        0 <= l <= a.len(),
        l <= b.len(),
        forall|j: int| 0 <= j < l ==> #[trigger] a[a.len() - 1 - j] == b[b.len() - 1 - j],
        l == a.len() || l == b.len() || a[a.len() - 1 - l] != b[b.len() - 1 - l],
    ensures
        lcs_len(a, b) == l,
    decreases l,
{
    if l == 0 {
        if a.len() > 0 && b.len() > 0 {
            assert(a[a.len() - 1] != b[b.len() - 1]);
            assert(a.last() != b.last());
        }
    } else {
        assert(a[a.len() - 1 - 0] == b[b.len() - 1 - 0]);
        assert(a.last() == b.last());
        let a2 = a.drop_last();
        let b2 = b.drop_last();
        assert forall|j: int| 0 <= j < l - 1 implies #[trigger] a2[a2.len() - 1 - j]
            == b2[b2.len() - 1 - j] by {
            assert(a[a.len() - 1 - (j + 1)] == b[b.len() - 1 - (j + 1)]);
            assert(a2[a2.len() - 1 - j] == a[a.len() - 1 - (j + 1)]);
            assert(b2[b2.len() - 1 - j] == b[b.len() - 1 - (j + 1)]);
        }
        lemma_lcs_char(a2, b2, l - 1);
    }
}

/// A matching suffix of length `l` bounds the longest common suffix from
/// below.
pub proof fn lemma_lcs_lower(a: Seq<u8>, b: Seq<u8>, l: int)
    requires
        0 <= l <= a.len(),
        l <= b.len(),
        forall|j: int| 0 <= j < l ==> #[trigger] a[a.len() - 1 - j] == b[b.len() - 1 - j],
    ensures
        lcs_len(a, b) >= l,
    decreases l,
{
    if l > 0 {
        assert(a[a.len() - 1 - 0] == b[b.len() - 1 - 0]);
        assert(a.last() == b.last());
        let a2 = a.drop_last();
        let b2 = b.drop_last();
        assert forall|j: int| 0 <= j < l - 1 implies #[trigger] a2[a2.len() - 1 - j]
            == b2[b2.len() - 1 - j] by {
            assert(a[a.len() - 1 - (j + 1)] == b[b.len() - 1 - (j + 1)]);
            assert(a2[a2.len() - 1 - j] == a[a.len() - 1 - (j + 1)]);
            assert(b2[b2.len() - 1 - j] == b[b.len() - 1 - (j + 1)]);
        }
        lemma_lcs_lower(a2, b2, l - 1);
        assert(a.len() > 0 && b.len() > 0);
        assert(lcs_len(a, b) == 1 + lcs_len(a2, b2));
    } else {
        lemma_lcs_props(a, b);
    }
}

/// The patch round-trip law at the specification level: applying the
/// patch [`diff_spec`] describes to its base reconstructs the target.
pub proof fn lemma_patch_of_diff(base: Seq<u8>, target: Seq<u8>)
    requires
        base.len() <= u64::MAX,
        target.len() <= u64::MAX,
    ensures
        patch_spec(base, diff_spec(base, target)) == Some(target),
{
    lemma_auto_spec_u64_to_from_le_bytes();
    lemma_lcp_props(base, target);
    lemma_lcs_props(base, target);
    let minl = if base.len() <= target.len() {
        base.len() as int
    } else {
        target.len() as int
    };
    let p = lcp_len(base, target);
    let smax = minl - p;
    let s = if lcs_len(base, target) > smax {
        smax
    } else {
        lcs_len(base, target)
    };
    let d = diff_spec(base, target);
    let mid = target.subrange(p, target.len() - s);
    assert(d =~= spec_u64_to_le_bytes(base.len() as u64) + spec_u64_to_le_bytes(checksum_of(base))
        + spec_u64_to_le_bytes(p as u64) + spec_u64_to_le_bytes(s as u64) + mid);
    assert(d.len() >= 32);
    assert(d.subrange(0, 8) =~= spec_u64_to_le_bytes(base.len() as u64));
    assert(d.subrange(8, 16) =~= spec_u64_to_le_bytes(checksum_of(base)));
    assert(d.subrange(16, 24) =~= spec_u64_to_le_bytes(p as u64));
    assert(d.subrange(24, 32) =~= spec_u64_to_le_bytes(s as u64));
    assert(d.skip(32) =~= mid);
    assert(checksum_of(base) < 0x1_0000_0000) by {
        lemma_checksum_bound(base);
    }
    assert(base.take(p) =~= target.take(p));
    assert(base.skip(base.len() - s) =~= target.skip(target.len() - s)) by {
        assert forall|j: int| 0 <= j < s implies #[trigger] base.skip(base.len() - s)[j]
            == target.skip(target.len() - s)[j] by {
            assert(base[base.len() - 1 - (s - 1 - j)] == target[target.len() - 1 - (s - 1 - j)]);
        }
    }
    assert(base.take(p) + d.skip(32) + base.skip(base.len() - s) =~= target);
}

/// The checksum stays below its modulus.
pub proof fn lemma_checksum_bound(s: Seq<u8>)
    ensures
        checksum_of(s) < 0x1_0000_0000,
    decreases s.len(),
{
    if s.len() > 0 {
        lemma_checksum_bound(s.drop_last());
    }
}

/// Why applying a patch failed.
#[derive(Clone, Copy, Debug, PartialEq, Eq, Structural)]
pub enum PatchError {
    /// The patch is shorter than its fixed header.
    TooShort,
    /// The patch was computed against a base of another length or
    /// another checksum than the one given.
    BaseMismatch,
    /// The prefix and suffix lengths in the header exceed the base.
    CorruptHeader,
}

/// Computes the checksum that patches carry for base verification.
pub fn byte_checksum(v: &[u8]) -> (r: u64)
    ensures
        r == checksum_of(v@),
{
    let n = v.len();
    let mut i: usize = 0;
    let mut c: u64 = 0;
    while i < n
        invariant
            i <= n,
            n == v@.len(),
            c == checksum_of(v@.take(i as int)),
            c < 0x1_0000_0000,
        decreases n - i,
    {
        proof {
            assert(v@.take(i as int + 1).drop_last() =~= v@.take(i as int));
            assert(v@.take(i as int + 1).last() == v@[i as int]);
        }
        c = ((c * 257) + (v[i] as u64)) % 0x1_0000_0000;
        i = i + 1;
    }
    proof {
        assert(v@.take(n as int) =~= v@);
    }
    c
}

/// Appends the little-endian encoding of `x`.
pub fn push_u64(out: &mut Vec<u8>, x: u64)
    ensures
        final(out)@ == old(out)@ + spec_u64_to_le_bytes(x),
{
    let mut b = u64_to_le_bytes(x);
    out.append(&mut b);
}

/// Reads the little-endian `u64` at byte offset `off`.
pub fn read_u64(v: &[u8], off: usize) -> (r: u64)
    requires
        off + 8 <= v@.len(),
    ensures
        r == spec_u64_from_le_bytes(v@.subrange(off as int, off as int + 8)),
{
    let n = v.len();
    let s = slice_subrange(v, off, off + 8);
    u64_from_le_bytes(s)
}

/// Computes a patch from `base` to `target`: the exact bytes of
/// [`diff_spec`].
///
/// Together with [`lemma_patch_of_diff`] this is the patch round-trip
/// law: applying the returned patch to `base` reconstructs `target`.
#[verifier::rlimit(100)]
pub fn diff(base: &[u8], target: &[u8]) -> (r: Vec<u8>)
    ensures
        r@ == diff_spec(base@, target@),
        patch_spec(base@, r@) == Some(target@),
{
    proof {
        lemma_auto_spec_u64_to_from_le_bytes();
    }
    let blen = base.len();
    let tlen = target.len();
    // longest common prefix
    let mut p: usize = 0;
    let max_p = if blen < tlen {
        blen
    } else {
        tlen
    };
    while p < max_p && base[p] == target[p]
        invariant
            p <= max_p,
            max_p <= blen,
            max_p <= tlen,
            blen == base@.len(),
            tlen == target@.len(),
            forall|j: int| 0 <= j < p ==> base@[j] == target@[j],
        decreases max_p - p,
    {
        p = p + 1;
    }
    // longest common suffix that does not overlap the prefix
    let max_s = max_p - p;
    let mut s: usize = 0;
    while s < max_s && base[blen - 1 - s] == target[tlen - 1 - s]
        invariant
            s <= max_s,
            max_s == max_p - p,
            p <= max_p,
            max_p <= blen,
            max_p <= tlen,
            blen == base@.len(),
            tlen == target@.len(),
            forall|j: int| 0 <= j < s ==> #[trigger] base@[blen - 1 - j] == target@[tlen - 1 - j],
        decreases max_s - s,
    {
        s = s + 1;
    }
    let ck = byte_checksum(base);
    let mut out: Vec<u8> = Vec::new();
    push_u64(&mut out, blen as u64);
    push_u64(&mut out, ck);
    push_u64(&mut out, p as u64);
    push_u64(&mut out, s as u64);
    let ghost header = out@;
    // the middle of the target that the base does not share
    let mut i: usize = p;
    let end = tlen - s;
    while i < end
        invariant
            p <= i <= end,
            end == tlen - s,
            s <= tlen,
            tlen == target@.len(),
            out@ =~= header + target@.subrange(p as int, i as int),
        decreases end - i,
    {
        out.push(target[i]);
        i = i + 1;
    }
    proof {
        let d = out@;
        assert(header.len() == 32);
        assert(d =~= header + target@.subrange(p as int, end as int));
        assert(d.subrange(0, 8) =~= spec_u64_to_le_bytes(blen as u64));
        assert(d.subrange(8, 16) =~= spec_u64_to_le_bytes(ck));
        assert(d.subrange(16, 24) =~= spec_u64_to_le_bytes(p as u64));
        assert(d.subrange(24, 32) =~= spec_u64_to_le_bytes(s as u64));
        assert(d.skip(32) =~= target@.subrange(p as int, end as int));
        assert(base@.take(p as int) =~= target@.take(p as int));
        assert(base@.skip(blen - s) =~= target@.skip(tlen - s)) by {
            assert forall|j: int| 0 <= j < s implies #[trigger] base@.skip(blen - s)[j]
                == target@.skip(tlen - s)[j] by {
                assert(base@[blen - 1 - (s - 1 - j)] == target@[tlen - 1 - (s - 1 - j)]);
            }
        }
        assert(base@.take(p as int) + d.skip(32) + base@.skip(blen - s) =~= target@);
        // the emitted bytes are exactly diff_spec
        lemma_lcp_char(base@, target@, p as int);
        if s < max_s {
            assert(base@[blen - 1 - s] != target@[tlen - 1 - s]);
            lemma_lcs_char(base@, target@, s as int);
        } else {
            lemma_lcs_lower(base@, target@, s as int);
        }
        assert(d =~= diff_spec(base@, target@));
    }
    out
}

/// Applies a patch. Succeeds exactly when the patch is well framed and was
/// computed against this base; on success the result is the target that
/// the patch encodes.
pub fn patch(base: &[u8], d: &[u8]) -> (r: Result<Vec<u8>, PatchError>)
    ensures
        match r {
            Ok(v) => patch_spec(base@, d@) == Some(v@),
            Err(e) => patch_spec(base@, d@).is_none() && (e == PatchError::TooShort <==> d@.len()
                < PATCH_HEADER_BYTES),
        },
{
    proof {
        lemma_auto_spec_u64_to_from_le_bytes();
    }
    if d.len() < PATCH_HEADER_BYTES {
        return Err(PatchError::TooShort);
    }
    let base_len = read_u64(d, 0);
    let base_ck = read_u64(d, 8);
    let prefix = read_u64(d, 16);
    let suffix = read_u64(d, 24);
    if base_len != base.len() as u64 {
        return Err(PatchError::BaseMismatch);
    }
    if base_ck != byte_checksum(base) {
        return Err(PatchError::BaseMismatch);
    }
    if prefix > base.len() as u64 || suffix > base.len() as u64 - prefix {
        return Err(PatchError::CorruptHeader);
    }
    let p = prefix as usize;
    let s = suffix as usize;
    let mut out: Vec<u8> = Vec::new();
    let mut i: usize = 0;
    while i < p
        invariant
            i <= p,
            p <= base@.len(),
            out@ =~= base@.take(i as int),
        decreases p - i,
    {
        out.push(base[i]);
        i = i + 1;
    }
    let ghost pre = out@;
    let mut j: usize = PATCH_HEADER_BYTES;
    let dlen = d.len();
    while j < dlen
        invariant
            PATCH_HEADER_BYTES <= j <= dlen,
            dlen == d@.len(),
            out@ =~= pre + d@.subrange(PATCH_HEADER_BYTES as int, j as int),
        decreases dlen - j,
    {
        out.push(d[j]);
        j = j + 1;
    }
    let ghost mid = out@;
    let mut k: usize = base.len() - s;
    let blen = base.len();
    while k < blen
        invariant
            blen - s <= k <= blen,
            s <= blen,
            blen == base@.len(),
            out@ =~= mid + base@.subrange(blen - s, k as int),
        decreases blen - k,
    {
        out.push(base[k]);
        k = k + 1;
    }
    proof {
        assert(pre =~= base@.take(p as int));
        assert(d@.subrange(PATCH_HEADER_BYTES as int, dlen as int) =~= d@.skip(32));
        assert(base@.subrange(blen - s, blen as int) =~= base@.skip(blen - s));
        assert(out@ =~= base@.take(p as int) + d@.skip(32) + base@.skip(blen - s));
    }
    Ok(out)
}

/// Copies raw bytes into an owned buffer.
pub fn copy_bytes(v: &[u8]) -> (r: Vec<u8>)
    ensures
        r@ == v@,
{
    let n = v.len();
    let mut out: Vec<u8> = Vec::new();
    let mut i: usize = 0;
    while i < n
        invariant
            i <= n,
            n == v@.len(),
            out@ =~= v@.take(i as int),
        decreases n - i,
    {
        out.push(v[i]);
        i = i + 1;
    }
    proof {
        assert(v@.take(n as int) =~= v@);
    }
    out
}

/// What zstd's encoder emits for the given bytes at the default level.
pub uninterp spec fn zstd_frame_of(s: Seq<u8>) -> Seq<u8>;

/// Relies on zstd::stream::encode_all: compresses the bytes into a zstd
/// frame; the frame depends on the input bytes alone.
#[verifier::external_body]
fn zstd_compress(v: &[u8]) -> (r: Option<Vec<u8>>)
    ensures
        r.is_some() ==> r.unwrap()@ == zstd_frame_of(v@),
{
    zstd::stream::encode_all(v, 0).ok()
}

/// Relies on zstd::stream::decode_all: decompressing a frame that
/// zstd's encoder emitted for some bytes yields those bytes again.
#[verifier::external_body]
fn zstd_decompress(v: &[u8]) -> (r: Option<Vec<u8>>)
    ensures
        forall|s: Seq<u8>| v@ == #[trigger] zstd_frame_of(s) ==> r.is_some() && r.unwrap()@ == s,
{
    zstd::stream::decode_all(v).ok()
}

/// Compresses bytes into a zstd frame; used for the first record of a
/// demo chunk, where no prior record exists to diff against.
pub fn compress(v: &[u8]) -> (r: Option<Vec<u8>>)
    ensures
        r.is_some() ==> r.unwrap()@ == zstd_frame_of(v@),
{
    zstd_compress(v)
}

/// Decompresses a zstd frame; inverse of [`compress`] on every frame that
/// [`compress`] produced.
pub fn decompress(v: &[u8]) -> (r: Option<Vec<u8>>)
    ensures
        forall|s: Seq<u8>| v@ == #[trigger] zstd_frame_of(s) ==> r.is_some() && r.unwrap()@ == s,
{
    zstd_decompress(v)
}

} // verus!
