//! Approximate matching engine.
//!
//! The distance between two equal-length byte sequences counts every
//! position where the bytes differ, and additionally every position where
//! either byte is an ambiguous base (`N` or `n`): an ambiguous base never
//! matches anything, not even itself.  `is_umi_in_read` searches a read for
//! a window within a given distance of the UMI, using an exact scan when no
//! mismatches are allowed and a pigeonhole-pruned scan otherwise.

use vstd::prelude::*;

verus! {

/// An ambiguous base: `N` or `n` (a base that could not be called).
pub open spec fn is_ambiguous(c: u8) -> bool {
    c == 78u8 || c == 110u8
}

/// Two bytes mismatch when they differ or when either is an ambiguous base.
pub open spec fn is_mismatch(a: u8, b: u8) -> bool {
    a != b || is_ambiguous(a) || is_ambiguous(b)
}

/// Number of mismatching positions of `a` and `b` in the index range `[lo, hi)`.
pub open spec fn hdist_range(a: Seq<u8>, b: Seq<u8>, lo: int, hi: int) -> nat
    decreases hi - lo,
{
    if hi <= lo {
        0
    } else {
        hdist_range(a, b, lo, hi - 1) + if is_mismatch(a[hi - 1], b[hi - 1]) {
            1nat
        } else {
            0nat
        }
    }
}

/// The distance of two equal-length byte sequences: the number of positions
/// that mismatch, where an ambiguous base mismatches everything.
pub open spec fn hamming(a: Seq<u8>, b: Seq<u8>) -> nat
    recommends
        a.len() == b.len(),
{
    hdist_range(a, b, 0, a.len() as int)
}

/// Number of ambiguous bases of `a` in the index range `[lo, hi)`.
pub open spec fn ambig_range(a: Seq<u8>, lo: int, hi: int) -> nat
    decreases hi - lo,
{
    if hi <= lo {
        0
    } else {
        ambig_range(a, lo, hi - 1) + if is_ambiguous(a[hi - 1]) {
            1nat
        } else {
            0nat
        }
    }
}

/// Number of ambiguous bases in `a`.
pub open spec fn ambiguous_count(a: Seq<u8>) -> nat {
    ambig_range(a, 0, a.len() as int)
}

/// `umi` occurs verbatim in `read` at offset `i`.
pub open spec fn exact_at(umi: Seq<u8>, read: Seq<u8>, i: int) -> bool {
    forall|j: int| 0 <= j < umi.len() ==> read[i + j] == umi[j]
}

/// `read` contains `umi` as an exact contiguous substring.
pub open spec fn contains_exact(umi: Seq<u8>, read: Seq<u8>) -> bool {
    exists|i: int| 0 <= i <= read.len() - umi.len() && exact_at(umi, read, i)
}

/// Distance of `umi` to the window of `read` starting at offset `i`.
pub open spec fn dist_at(umi: Seq<u8>, read: Seq<u8>, i: int) -> nat {
    hamming(umi, read.subrange(i, i + umi.len() as int))
}

/// Some window of `read` is within distance `m` of `umi`.
pub open spec fn contains_within(umi: Seq<u8>, read: Seq<u8>, m: u32) -> bool {
    exists|i: int| 0 <= i <= read.len() - umi.len() && dist_at(umi, read, i) <= m
}

/// What `is_umi_in_read` decides: no window fits when the read is shorter
/// than the UMI; with tolerance zero the search is an exact byte-equality
/// scan; otherwise a window within the tolerated distance must exist.
pub open spec fn umi_in_read_spec(umi: Seq<u8>, read: Seq<u8>, m: u32) -> bool {
    if read.len() < umi.len() {
        false
    } else if m == 0 {
        contains_exact(umi, read)
    } else {
        contains_within(umi, read, m)
    }
}

/// The range count splits at any midpoint.
proof fn lemma_hdist_range_split(a: Seq<u8>, b: Seq<u8>, lo: int, mid: int, hi: int)
    requires
        lo <= mid <= hi,
    ensures
        hdist_range(a, b, lo, hi) == hdist_range(a, b, lo, mid) + hdist_range(a, b, mid, hi),
    decreases hi - mid,
{
    if hi > mid {
        lemma_hdist_range_split(a, b, lo, mid, hi - 1);
    }
}

/// A mismatching position inside the range makes the count positive.
proof fn lemma_hdist_range_positive(a: Seq<u8>, b: Seq<u8>, lo: int, hi: int, p: int)
    requires
        lo <= p < hi,
        is_mismatch(a[p], b[p]),
    ensures
        hdist_range(a, b, lo, hi) >= 1,
    decreases hi - p,
{
    if p < hi - 1 {
        lemma_hdist_range_positive(a, b, lo, hi - 1, p);
    }
}

/// Byte lane `i` of a 64-bit word, for `i < 8`.
pub open spec fn lane(x: u64, i: u64) -> u64 {
    (x >> (8 * i)) & 0xFF
}

/// How many of the eight byte lanes of `x` are non-zero.
pub open spec fn nonzero_lane_count(x: u64) -> int {
    (if lane(x, 0) != 0 {
        1int
    } else {
        0int
    }) + (if lane(x, 1) != 0 {
        1int
    } else {
        0int
    }) + (if lane(x, 2) != 0 {
        1int
    } else {
        0int
    }) + (if lane(x, 3) != 0 {
        1int
    } else {
        0int
    }) + (if lane(x, 4) != 0 {
        1int
    } else {
        0int
    }) + (if lane(x, 5) != 0 {
        1int
    } else {
        0int
    }) + (if lane(x, 6) != 0 {
        1int
    } else {
        0int
    }) + (if lane(x, 7) != 0 {
        1int
    } else {
        0int
    })
}

/// Count how many bytes within `x` are non-zero.
///
/// This works word-parallel, without loops: fold each byte's bits into its
/// lowest bit, mask to one flag bit per lane, and sum the eight flags into
/// the top byte with a multiply-and-shift.
fn count_nonzero_bytes(x: u64) -> (c: u32)
    ensures
        c == nonzero_lane_count(x),
{
    // 1. Accumulate bits: if any bit in a byte is set, set that byte's lowest bit.
    let y1: u64 = x | (x >> 4);
    let y2: u64 = y1 | (y1 >> 2);
    let y3: u64 = y2 | (y2 >> 1);

    // 2. Mask: clear all bits except the lowest of each byte.
    let m: u64 = y3 & 0x0101010101010101;

    // 3. Horizontal sum: multiply spreads the flags so their sum lands in the top byte.
    let prod: u128 = (m as u128) * 0x0101010101010101;
    let low: u64 = #[verifier::truncate] (prod as u64);
    let c64: u64 = low >> 56;
    proof {
        assert(c64 == nonzero_lane_count(x)) by (bit_vector)
            requires
                y1 == x | (x >> 4),
                y2 == y1 | (y1 >> 2),
                y3 == y2 | (y2 >> 1),
                m == y3 & 0x0101010101010101,
                low == ((m as u128) * 0x0101010101010101) as u64,
                c64 == low >> 56,
        ;
    }
    c64 as u32
}

/// Produce a mask with the high bit set in each byte lane of `x` that holds
/// the ASCII code of `N`, and zero in every other lane — the standard
/// bit-hack for finding bytes equal to a constant.  Lanes holding `n` are
/// found by first flipping the case bit of the word.
fn is_n_mask(x: u64) -> (r: u64)
    ensures
        forall|i: u64|
            i < 8 ==> lane(r, i) == (if lane(x, i) == 0x4E {
                0x80u64
            } else {
                0u64
            }),
{
    let diff: u64 = x ^ 0x4E4E4E4E4E4E4E4E;
    // For each lane of `diff`: the sum overflows into the high bit exactly
    // when the low seven bits are not all zero, and no lane's sum carries
    // into its neighbour, so the test is exact lane for lane.
    proof {
        assert((diff & 0x7F7F7F7F7F7F7F7F) <= 0x7F7F7F7F7F7F7F7F) by (bit_vector);
    }
    let t: u64 = (diff & 0x7F7F7F7F7F7F7F7F) + 0x7F7F7F7F7F7F7F7F;
    let r: u64 = !(t | diff) & 0x8080808080808080;
    proof {
        assert(forall|i: u64|
            i < 8 ==> lane(r, i) == (if lane(x, i) == 0x4E {
                0x80u64
            } else {
                0u64
            })) by (bit_vector)
            requires
                diff == x ^ 0x4E4E4E4E4E4E4E4E,
                t == (diff & 0x7F7F7F7F7F7F7F7F) + 0x7F7F7F7F7F7F7F7F,
                r == !(t | diff) & 0x8080808080808080,
        ;
    }
    r
}

/// `|` and `^` act lane by lane.
proof fn lemma_lane_ops(x: u64, y: u64)
    by (bit_vector)
    ensures
        forall|i: u64| i < 8 ==> #[trigger] lane(x | y, i) == lane(x, i) | lane(y, i),
        forall|i: u64| i < 8 ==> #[trigger] lane(x ^ y, i) == lane(x, i) ^ lane(y, i),
{
}

/// Every lane of the case-flipping mask is the ASCII case bit.
proof fn lemma_case_mask_lanes()
    by (bit_vector)
    ensures
        forall|i: u64| i < 8 ==> #[trigger] lane(0x2020202020202020, i) == 0x20u64,
{
}

/// Facts about single byte values held in 64-bit variables: an `or` is zero
/// exactly when both sides are, an `xor` is zero exactly on equal values,
/// and flipping the ASCII case bit of `n` gives `N`.
proof fn lemma_byte_value_ops(a: u64, b: u64)
    by (bit_vector)
    ensures
        (a | b == 0) <==> (a == 0 && b == 0),
        (a ^ b == 0) <==> (a == b),
        (a ^ 0x20 == 0x4E) <==> (a == 0x6E),
{
}

/// Produce a mask whose byte lanes are non-zero exactly where `x` holds an
/// ambiguous base, `N` or `n`: the `N` test is run on the word as it is and
/// once more with every lane's ASCII case bit flipped.
fn ambig_mask(x: u64) -> (r: u64)
    ensures
        forall|i: u64|
            i < 8 ==> (#[trigger] lane(r, i) != 0 <==> (lane(x, i) == 0x4E || lane(x, i)
                == 0x6E)),
{
    let n_upper = is_n_mask(x);
    let flipped = x ^ 0x2020202020202020;
    let n_lower = is_n_mask(flipped);
    let r = n_upper | n_lower;
    proof {
        lemma_lane_ops(n_upper, n_lower);
        lemma_lane_ops(x, 0x2020202020202020);
        lemma_case_mask_lanes();
        assert forall|i: u64| i < 8 implies (#[trigger] lane(r, i) != 0 <==> (lane(x, i) == 0x4E
            || lane(x, i) == 0x6E)) by {
            lemma_byte_value_ops(lane(n_upper, i), lane(n_lower, i));
            lemma_byte_value_ops(lane(x, i), 0);
        }
    }
    r
}

/// Load eight consecutive bytes of `s`, starting at `p`, into the eight
/// byte lanes of one word, lowest lane first.
fn load_word(s: &[u8], p: usize) -> (w: u64)
    requires
        p + 8 <= s@.len(),
    ensures
        forall|j: u64| j < 8 ==> #[trigger] lane(w, j) == s@[p + j] as u64,
{
    let b0 = s[p] as u64;
    let b1 = s[p + 1] as u64;
    let b2 = s[p + 2] as u64;
    let b3 = s[p + 3] as u64;
    let b4 = s[p + 4] as u64;
    let b5 = s[p + 5] as u64;
    let b6 = s[p + 6] as u64;
    let b7 = s[p + 7] as u64;
    let w = b0 | (b1 << 8) | (b2 << 16) | (b3 << 24) | (b4 << 32) | (b5 << 40) | (b6 << 48) | (
    b7 << 56);
    proof {
        assert(lane(w, 0) == b0 && lane(w, 1) == b1 && lane(w, 2) == b2 && lane(w, 3) == b3
            && lane(w, 4) == b4 && lane(w, 5) == b5 && lane(w, 6) == b6 && lane(w, 7) == b7)
            by (bit_vector)
            requires
                b0 < 256 && b1 < 256 && b2 < 256 && b3 < 256 && b4 < 256 && b5 < 256 && b6 < 256
                    && b7 < 256,
                w == b0 | (b1 << 8) | (b2 << 16) | (b3 << 24) | (b4 << 32) | (b5 << 40) | (b6
                    << 48) | (b7 << 56),
        ;
        assert forall|j: u64| j < 8 implies #[trigger] lane(w, j) == s@[p + j] as u64 by {
            assert(j == 0 || j == 1 || j == 2 || j == 3 || j == 4 || j == 5 || j == 6 || j == 7);
        }
    }
    w
}

/// The range count over eight positions, written out term by term.
proof fn lemma_hdist_range_unfold8(a: Seq<u8>, b: Seq<u8>, lo: int)
    ensures
        hdist_range(a, b, lo, lo + 8) == (if is_mismatch(a[lo], b[lo]) {
            1int
        } else {
            0int
        }) + (if is_mismatch(a[lo + 1], b[lo + 1]) {
            1int
        } else {
            0int
        }) + (if is_mismatch(a[lo + 2], b[lo + 2]) {
            1int
        } else {
            0int
        }) + (if is_mismatch(a[lo + 3], b[lo + 3]) {
            1int
        } else {
            0int
        }) + (if is_mismatch(a[lo + 4], b[lo + 4]) {
            1int
        } else {
            0int
        }) + (if is_mismatch(a[lo + 5], b[lo + 5]) {
            1int
        } else {
            0int
        }) + (if is_mismatch(a[lo + 6], b[lo + 6]) {
            1int
        } else {
            0int
        }) + (if is_mismatch(a[lo + 7], b[lo + 7]) {
            1int
        } else {
            0int
        }),
{
    assert(hdist_range(a, b, lo, lo) == 0);
    assert(hdist_range(a, b, lo, lo + 1) == hdist_range(a, b, lo, lo) + if is_mismatch(
        a[lo],
        b[lo],
    ) {
        1nat
    } else {
        0nat
    });
    assert(hdist_range(a, b, lo, lo + 2) == hdist_range(a, b, lo, lo + 1) + if is_mismatch(
        a[lo + 1],
        b[lo + 1],
    ) {
        1nat
    } else {
        0nat
    });
    assert(hdist_range(a, b, lo, lo + 3) == hdist_range(a, b, lo, lo + 2) + if is_mismatch(
        a[lo + 2],
        b[lo + 2],
    ) {
        1nat
    } else {
        0nat
    });
    assert(hdist_range(a, b, lo, lo + 4) == hdist_range(a, b, lo, lo + 3) + if is_mismatch(
        a[lo + 3],
        b[lo + 3],
    ) {
        1nat
    } else {
        0nat
    });
    assert(hdist_range(a, b, lo, lo + 5) == hdist_range(a, b, lo, lo + 4) + if is_mismatch(
        a[lo + 4],
        b[lo + 4],
    ) {
        1nat
    } else {
        0nat
    });
    assert(hdist_range(a, b, lo, lo + 6) == hdist_range(a, b, lo, lo + 5) + if is_mismatch(
        a[lo + 5],
        b[lo + 5],
    ) {
        1nat
    } else {
        0nat
    });
    assert(hdist_range(a, b, lo, lo + 7) == hdist_range(a, b, lo, lo + 6) + if is_mismatch(
        a[lo + 6],
        b[lo + 6],
    ) {
        1nat
    } else {
        0nat
    });
    assert(hdist_range(a, b, lo, lo + 8) == hdist_range(a, b, lo, lo + 7) + if is_mismatch(
        a[lo + 7],
        b[lo + 7],
    ) {
        1nat
    } else {
        0nat
    });
}

/// Compute the distance between `umi` and the equally long window of `read`
/// that starts at `off`: full 8-byte blocks are compared word-parallel, and
/// any trailing bytes one at a time with the same rule.
fn window_distance(umi: &[u8], read: &[u8], off: usize) -> (d: u32)
    requires
        off + umi@.len() <= read@.len(),
        umi@.len() <= u32::MAX,
    ensures
        d == dist_at(umi@, read@, off as int),
{
    let umi_len = umi.len();
    let read_len = read.len();
    let ghost win = read@.subrange(off as int, off as int + umi@.len() as int);
    let mut d: u32 = 0;
    let mut i: usize = 0;

    // Process 8-byte blocks word-parallel.
    while umi_len - i >= 8
        invariant
            i <= umi_len,
            umi_len == umi@.len(),
            umi_len <= u32::MAX,
            read_len == read@.len(),
            off + umi_len <= read_len,
            win == read@.subrange(off as int, off as int + umi_len as int),
            d == hdist_range(umi@, win, 0, i as int),
            d <= i,
        decreases umi_len - i,
    {
        let c1 = load_word(umi, i);
        let c2 = load_word(read, off + i);
        // XOR flags differing lanes; the ambiguity masks flag N/n lanes.
        let diff = c1 ^ c2;
        let a1 = ambig_mask(c1);
        let a2 = ambig_mask(c2);
        let word = diff | (a1 | a2);
        let cnt = count_nonzero_bytes(word);
        proof {
            lemma_lane_ops(c1, c2);
            lemma_lane_ops(a1, a2);
            lemma_lane_ops(diff, a1 | a2);
            assert forall|j: u64| j < 8 implies (#[trigger] lane(word, j) != 0 <==> is_mismatch(
                umi@[i + j],
                win[i + j],
            )) by {
                assert(lane(word, j) == lane(diff, j) | lane(a1 | a2, j));
                assert(lane(diff, j) == lane(c1, j) ^ lane(c2, j));
                assert(lane(a1 | a2, j) == lane(a1, j) | lane(a2, j));
                lemma_byte_value_ops(lane(diff, j), lane(a1 | a2, j));
                lemma_byte_value_ops(lane(c1, j), lane(c2, j));
                lemma_byte_value_ops(lane(a1, j), lane(a2, j));
                assert(win[i + j] == read@[off + i + j]);
            }
            lemma_hdist_range_unfold8(umi@, win, i as int);
            assert(cnt == hdist_range(umi@, win, i as int, i as int + 8));
            lemma_hdist_range_split(umi@, win, 0, i as int, i as int + 8);
        }
        d = d + cnt;
        i = i + 8;
    }

    // Compare any trailing bytes one at a time with the same rule.
    while i < umi_len
        invariant
            i <= umi_len,
            umi_len == umi@.len(),
            umi_len <= u32::MAX,
            read_len == read@.len(),
            off + umi_len <= read_len,
            win == read@.subrange(off as int, off as int + umi_len as int),
            d == hdist_range(umi@, win, 0, i as int),
            d <= i,
        decreases umi_len - i,
    {
        let a = umi[i];
        let b = read[off + i];
        assert(win[i as int] == b);
        if a != b || a == 78u8 || a == 110u8 || b == 78u8 || b == 110u8 {
            d = d + 1;
        }
        i = i + 1;
    }
    d
}

/// Compute the number of mismatching positions of two equal-length byte
/// sequences.  An ambiguous base (`N` or `n`) in either sequence counts as a
/// mismatch at its position, whatever stands opposite it.
pub fn hamming_distance(seq1: &[u8], seq2: &[u8]) -> (d: u32)
    requires
        seq1@.len() == seq2@.len(),
        seq1@.len() <= u32::MAX,
    ensures
        d == hamming(seq1@, seq2@),
{
    let d = window_distance(seq1, seq2, 0);
    proof {
        assert(seq2@.subrange(0, seq1@.len() as int) =~= seq2@);
    }
    d
}

/// Find a position in the index range `[s, e)` of the UMI where the UMI and
/// the window of `read` at `off` disagree, or report that the range agrees
/// byte for byte.
fn range_diff_pos(umi: &[u8], read: &[u8], off: usize, s: usize, e: usize) -> (res: Option<usize>)
    requires
        s <= e <= umi@.len(),
        off + umi@.len() <= read@.len(),
    ensures
        match res {
            Some(p) => s <= p < e && umi@[p as int] != read@[off + p],
            None => forall|j: int| s <= j < e ==> umi@[j] == read@[off + j],
        },
{
    let read_len = read.len();
    let mut i: usize = s;
    while i < e
        invariant
            s <= i <= e,
            e <= umi@.len(),
            read_len == read@.len(),
            off + umi@.len() <= read_len,
            forall|j: int| s <= j < i ==> umi@[j] == read@[off + j],
        decreases e - i,
    {
        if umi[i] != read[off + i] {
            return Some(i);
        }
        i = i + 1;
    }
    None
}

/// Start of chunk `j` when every chunk but the last is `cs` bytes wide.
pub open spec fn chunk_lo(cs: int, j: int) -> int {
    j * cs
}

/// End of chunk `j` out of `k` chunks of a `len`-byte UMI: the last chunk
/// absorbs the remainder of the division of `len` by `k`.
pub open spec fn chunk_hi(len: int, k: int, cs: int, j: int) -> int {
    if j == k - 1 {
        len
    } else {
        (j + 1) * cs
    }
}

/// Chunk `j` of `u` disagrees somewhere with the window of `read` at `off`.
spec fn chunk_differs(u: Seq<u8>, read: Seq<u8>, off: int, k: int, cs: int, j: int) -> bool {
    exists|p: int|
        chunk_lo(cs, j) <= p < chunk_hi(u.len() as int, k, cs, j) && u[p] != read[off + p]
}

/// Arithmetic facts about the chunk layout of a `len`-byte UMI split into
/// `k` chunks of width `cs == len / k`.
proof fn lemma_chunk_geometry(len: int, k: int, cs: int, j: int)
    requires
        1 <= k <= len,
        cs == len / k,
        0 <= j < k,
    ensures
        1 <= cs,
        k * cs <= len,
        chunk_lo(cs, j) == j * cs,
        0 <= chunk_lo(cs, j),
        chunk_lo(cs, j) + cs <= chunk_hi(len, k, cs, j) <= len,
        j < k - 1 ==> chunk_hi(len, k, cs, j) == j * cs + cs,
{
    vstd::arithmetic::div_mod::lemma_div_non_zero(len, k);
    vstd::arithmetic::div_mod::lemma_fundamental_div_mod(len, k);
    vstd::arithmetic::div_mod::lemma_mod_bound(len, k);
    vstd::arithmetic::mul::lemma_mul_inequality(j + 1, k, cs);
    vstd::arithmetic::mul::lemma_mul_inequality(0, j, cs);
    assert((j + 1) * cs == j * cs + cs) by (nonlinear_arith);
}

/// If, for `jj` up to `j`, every chunk of `u` disagrees somewhere with the
/// window of `read` at `off`, then the window's distance counted up to the
/// end of chunk `j` is at least `j + 1` — each chunk contributes a mismatch.
proof fn lemma_pigeonhole_step(u: Seq<u8>, read: Seq<u8>, off: int, k: int, cs: int, j: int)
    requires
        1 <= k <= u.len(),
        cs == u.len() as int / k,
        0 <= j < k,
        0 <= off,
        off + u.len() <= read.len(),
        forall|jj: int| 0 <= jj <= j ==> chunk_differs(u, read, off, k, cs, jj),
    ensures
        hdist_range(u, read.subrange(off, off + u.len() as int), 0, chunk_hi(
            u.len() as int,
            k,
            cs,
            j,
        )) >= j + 1,
    decreases j,
{
    let len = u.len() as int;
    let w = read.subrange(off, off + len);
    lemma_chunk_geometry(len, k, cs, j);
    let lo = chunk_lo(cs, j);
    let hi = chunk_hi(len, k, cs, j);
    assert(chunk_differs(u, read, off, k, cs, j));
    let p = choose|p: int| lo <= p < hi && u[p] != read[off + p];
    assert(w[p] == read[off + p]);
    lemma_hdist_range_positive(u, w, lo, hi, p);
    if j == 0 {
        lemma_hdist_range_split(u, w, 0, lo, hi);
    } else {
        lemma_pigeonhole_step(u, read, off, k, cs, j - 1);
        lemma_chunk_geometry(len, k, cs, j - 1);
        assert(chunk_hi(len, k, cs, j - 1) == lo);
        lemma_hdist_range_split(u, w, 0, lo, hi);
    }
}

/// The pigeonhole bound behind the pruned search: when every one of the `k`
/// chunks of `u` disagrees somewhere with the window of `read` at `off`, the
/// distance of the whole window is at least `k`.
proof fn lemma_pigeonhole(u: Seq<u8>, read: Seq<u8>, off: int, k: int, cs: int)
    requires
        1 <= k <= u.len(),
        cs == u.len() as int / k,
        0 <= off,
        off + u.len() <= read.len(),
        forall|j: int| 0 <= j < k ==> chunk_differs(u, read, off, k, cs, j),
    ensures
        dist_at(u, read, off) >= k,
{
    lemma_pigeonhole_step(u, read, off, k, cs, k - 1);
    assert(chunk_hi(u.len() as int, k, cs, k - 1) == u.len() as int);
}

/// Scan the chunks of the UMI against the window of `read` at `off`; report
/// whether some chunk matches its stretch of the window exactly.  When none
/// does, every chunk disagrees somewhere, which is what the pigeonhole bound
/// needs to rule the window out.
fn any_chunk_matches(umi: &[u8], read: &[u8], off: usize, k: usize, chunk_size: usize) -> (r: bool)
    requires
        off + umi@.len() <= read@.len(),
        1 <= k <= umi@.len(),
        chunk_size as int == umi@.len() as int / k as int,
    ensures
        !r ==> forall|j: int|
            0 <= j < k ==> chunk_differs(
                umi@,
                read@,
                off as int,
                k as int,
                chunk_size as int,
                j,
            ),
{
    let umi_len = umi.len();
    let mut j: usize = 0;
    while j < k
        invariant
            j <= k,
            1 <= k <= umi_len,
            umi_len == umi@.len(),
            off + umi_len <= read@.len(),
            chunk_size == umi_len / k,
            forall|jj: int|
                0 <= jj < j ==> chunk_differs(
                    umi@,
                    read@,
                    off as int,
                    k as int,
                    chunk_size as int,
                    jj,
                ),
        decreases k - j,
    {
        proof {
            lemma_chunk_geometry(umi_len as int, k as int, chunk_size as int, j as int);
        }
        let s = j * chunk_size;
        let e = if j == k - 1 {
            umi_len
        } else {
            (j + 1) * chunk_size
        };
        assert(s as int == chunk_lo(chunk_size as int, j as int));
        assert(e as int == chunk_hi(umi_len as int, k as int, chunk_size as int, j as int));
        match range_diff_pos(umi, read, off, s, e) {
            None => {
                return true;
            },
            Some(p) => {
                assert(chunk_differs(umi@, read@, off as int, k as int, chunk_size as int, j as int));
            },
        }
        j = j + 1;
    }
    false
}

/// Decide whether some window of `read`, as long as `umi`, lies within
/// `max_mismatches` of `umi`.  With tolerance zero this is an exact
/// substring search; otherwise windows are pruned by the pigeonhole rule —
/// the UMI is split into `max_mismatches + 1` chunks and a window is only
/// measured in full when one chunk matches it exactly — which never changes
/// the answer.
pub fn is_umi_in_read(umi: &[u8], read: &[u8], max_mismatches: u32) -> (r: bool)
    requires
        1 <= umi@.len() <= u32::MAX,
    ensures
        r == umi_in_read_spec(umi@, read@, max_mismatches),
{
    let umi_len = umi.len();
    let read_len = read.len();
    if read_len < umi_len {
        return false;
    }
    let n_windows = read_len - umi_len;  // the valid window offsets are 0 ..= n_windows

    if max_mismatches == 0 {
        let mut off: usize = 0;
        while off <= n_windows
            invariant
                off <= n_windows + 1,
                n_windows == read_len - umi_len,
                umi_len == umi@.len(),
                read_len == read@.len(),
                1 <= umi_len <= read_len,
                max_mismatches == 0,
                forall|i: int| 0 <= i < off ==> !exact_at(umi@, read@, i),
            decreases n_windows + 1 - off,
        {
            if range_diff_pos(umi, read, off, 0, umi_len).is_none() {
                assert(0 <= off as int <= read@.len() - umi@.len() && exact_at(
                    umi@,
                    read@,
                    off as int,
                ));
                assert(contains_exact(umi@, read@));
                return true;
            }
            assert(!exact_at(umi@, read@, off as int));
            off = off + 1;
        }
        return false;
    }

    // With the tolerance at least the UMI length, chunking cannot prune:
    // measure every window in full.
    if max_mismatches as usize >= umi_len {
        let mut off: usize = 0;
        while off <= n_windows
            invariant
                off <= n_windows + 1,
                n_windows == read_len - umi_len,
                umi_len == umi@.len(),
                read_len == read@.len(),
                1 <= umi_len <= read_len,
                umi_len <= u32::MAX,
                max_mismatches >= 1,
                forall|i: int| 0 <= i < off ==> dist_at(umi@, read@, i) > max_mismatches,
            decreases n_windows + 1 - off,
        {
            let d = window_distance(umi, read, off);
            if d <= max_mismatches {
                assert(0 <= off as int <= read@.len() - umi@.len() && dist_at(
                    umi@,
                    read@,
                    off as int,
                ) <= max_mismatches);
                assert(contains_within(umi@, read@, max_mismatches));
                return true;
            }
            off = off + 1;
        }
        return false;
    }

    // Pigeonhole search: split the UMI into one more chunk than there are
    // tolerated mismatches.  A window within tolerance must match some chunk
    // exactly, so a window that matches no chunk is skipped unmeasured.
    let k = max_mismatches as usize + 1;  // 2 <= k <= umi_len
    let chunk_size = umi_len / k;
    let mut off: usize = 0;
    while off <= n_windows
        invariant
            off <= n_windows + 1,
            n_windows == read_len - umi_len,
            umi_len == umi@.len(),
            read_len == read@.len(),
            1 <= umi_len <= read_len,
            umi_len <= u32::MAX,
            max_mismatches >= 1,
            k == max_mismatches as usize + 1,
            2 <= k <= umi_len,
            chunk_size == umi_len / k,
            forall|i: int| 0 <= i < off ==> dist_at(umi@, read@, i) > max_mismatches,
        decreases n_windows + 1 - off,
    {
        if any_chunk_matches(umi, read, off, k, chunk_size) {
            let d = window_distance(umi, read, off);
            if d <= max_mismatches {
                assert(0 <= off as int <= read@.len() - umi@.len() && dist_at(
                    umi@,
                    read@,
                    off as int,
                ) <= max_mismatches);
                assert(contains_within(umi@, read@, max_mismatches));
                return true;
            }
        } else {
            proof {
                lemma_pigeonhole(umi@, read@, off as int, k as int, chunk_size as int);
            }
        }
        assert(dist_at(umi@, read@, off as int) > max_mismatches);
        off = off + 1;
    }
    return false;
}

/// Swapping the two sequences does not change their range count.
proof fn lemma_hdist_range_symmetric(a: Seq<u8>, b: Seq<u8>, lo: int, hi: int)
    ensures
        hdist_range(a, b, lo, hi) == hdist_range(b, a, lo, hi),
    decreases hi - lo,
{
    if hi > lo {
        lemma_hdist_range_symmetric(a, b, lo, hi - 1);
    }
}

/// The distance is symmetric: each position mismatches in one order exactly
/// when it mismatches in the other.
pub proof fn lemma_hamming_symmetric(a: Seq<u8>, b: Seq<u8>)
    requires
        a.len() == b.len(),
    ensures
        hamming(a, b) == hamming(b, a),
{
    lemma_hdist_range_symmetric(a, b, 0, a.len() as int);
}

/// Against itself, a range counts exactly its ambiguous positions: a byte
/// equals itself, so only the ambiguity rule can fire.
proof fn lemma_hdist_range_self(a: Seq<u8>, lo: int, hi: int)
    ensures
        hdist_range(a, a, lo, hi) == ambig_range(a, lo, hi),
    decreases hi - lo,
{
    if hi > lo {
        lemma_hdist_range_self(a, lo, hi - 1);
    }
}

/// The distance of a sequence to itself is its count of ambiguous bases —
/// not necessarily zero, since an ambiguous base mismatches even itself.
pub proof fn lemma_hamming_self(a: Seq<u8>)
    ensures
        hamming(a, a) == ambiguous_count(a),
{
    lemma_hdist_range_self(a, 0, a.len() as int);
}

/// Up to any prefix length, `b`'s single substituted position contributes
/// one more mismatch against `a` than `a` counts against itself, once the
/// prefix covers that position.
proof fn lemma_substitution_range(a: Seq<u8>, b: Seq<u8>, i: int, n: int)
    requires
        a.len() == b.len(),
        0 <= i < a.len(),
        b[i] != a[i],
        !is_ambiguous(a[i]),
        !is_ambiguous(b[i]),
        forall|j: int| 0 <= j < a.len() && j != i ==> b[j] == a[j],
        n <= a.len(),
    ensures
        hdist_range(a, b, 0, n) == hdist_range(a, a, 0, n) + if i < n {
            1int
        } else {
            0int
        },
    decreases n,
{
    if n > 0 {
        lemma_substitution_range(a, b, i, n - 1);
    }
}

/// Replacing one non-ambiguous byte of `a` by a differing non-ambiguous
/// byte raises the distance by exactly one over the distance of `a` to
/// itself.
pub proof fn lemma_single_substitution(a: Seq<u8>, b: Seq<u8>, i: int)
    requires
        a.len() == b.len(),
        0 <= i < a.len(),
        b[i] != a[i],
        !is_ambiguous(a[i]),
        !is_ambiguous(b[i]),
        forall|j: int| 0 <= j < a.len() && j != i ==> b[j] == a[j],
    ensures
        hamming(a, b) == hamming(a, a) + 1,
{
    lemma_substitution_range(a, b, i, a.len() as int);
}

/// With tolerance zero the search is exactly the exact-substring test: when
/// the read is shorter than the UMI no window offset exists at all.
pub proof fn lemma_zero_tolerance_is_exact_search(umi: Seq<u8>, read: Seq<u8>)
    ensures
        umi_in_read_spec(umi, read, 0) == contains_exact(umi, read),
{
}

/// A read shorter than the UMI never contains it, whatever the tolerance.
pub proof fn lemma_short_read_never_matches(umi: Seq<u8>, read: Seq<u8>, m: u32)
    requires
        read.len() < umi.len(),
    ensures
        !umi_in_read_spec(umi, read, m),
{
}

/// Relaxing the tolerance never loses a match.  For a UMI with an ambiguous
/// base this can fail from tolerance zero — an exact byte-equality match of
/// such a UMI has positive distance, since the ambiguous position counts —
/// so from tolerance zero the UMI must be free of ambiguous bases.
pub proof fn lemma_umi_in_read_monotonic(umi: Seq<u8>, read: Seq<u8>, m1: u32, m2: u32)
    requires
        m1 <= m2,
        m1 >= 1 || ambiguous_count(umi) == 0,
        umi_in_read_spec(umi, read, m1),
    ensures
        umi_in_read_spec(umi, read, m2),
{
    if m1 == m2 {
    } else if m1 == 0 {
        let i = choose|i: int| 0 <= i <= read.len() - umi.len() && exact_at(umi, read, i);
        let w = read.subrange(i, i + umi.len() as int);
        assert(w =~= umi);
        lemma_hamming_self(umi);
        assert(dist_at(umi, read, i) == 0);
        assert(contains_within(umi, read, m2));
    } else {
        let i = choose|i: int| 0 <= i <= read.len() - umi.len() && dist_at(umi, read, i) <= m1;
        assert(dist_at(umi, read, i) <= m2);
        assert(contains_within(umi, read, m2));
    }
}

} // verus!
