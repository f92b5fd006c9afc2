//! Verified core of a UMI (unique molecular identifier) read filter.
//!
//! A sequencing read is *removed* when the UMI taken from its header occurs,
//! within a mismatch tolerance, somewhere in its base sequence; otherwise it
//! is *kept*.  This crate holds the approximate-matching engine, the header
//! UMI extraction, the batch pipeline that classifies and routes records,
//! and the pieces of command-line planning that are pure computation.

use vstd::prelude::*;

pub mod cli;
pub mod matcher;
pub mod pipeline;
pub mod records;

verus! {

/// An ASCII whitespace byte, as it delimits the first header token.
pub open spec fn is_space(c: u8) -> bool {
    c == 32u8 || c == 9u8 || c == 10u8 || c == 11u8 || c == 12u8 || c == 13u8
}

/// A byte that separates the UMI from the rest of the token: `:` or `_`.
pub open spec fn is_separator(c: u8) -> bool {
    c == 58u8 || c == 95u8
}

/// ASCII uppercasing of one byte.
pub open spec fn to_upper(c: u8) -> u8 {
    if 97 <= c <= 122 {
        (c - 32) as u8
    } else {
        c
    }
}

/// Index of the first non-whitespace byte of `h` at or after `i`, or the
/// length of `h` when only whitespace follows.
pub open spec fn token_start_from(h: Seq<u8>, i: int) -> int
    recommends
        0 <= i <= h.len(),
    decreases h.len() - i,
{
    if i >= h.len() || !is_space(h[i]) {
        i
    } else {
        token_start_from(h, i + 1)
    }
}

/// Index just past the first token of `h` when the token starts at `i`: the
/// first whitespace byte at or after `i`, or the length of `h`.
pub open spec fn token_end_from(h: Seq<u8>, i: int) -> int
    recommends
        0 <= i <= h.len(),
    decreases h.len() - i,
{
    if i >= h.len() || is_space(h[i]) {
        i
    } else {
        token_end_from(h, i + 1)
    }
}

/// Start of the UMI inside the token `[s, e)`: just past the last separator
/// byte, or `s` when the token holds no separator.
pub open spec fn umi_start_in(h: Seq<u8>, s: int, e: int) -> int
    recommends
        0 <= s <= e <= h.len(),
    decreases e - s,
{
    if e <= s {
        s
    } else if is_separator(h[e - 1]) {
        e
    } else {
        umi_start_in(h, s, e - 1)
    }
}

/// The UMI a header yields, if any: the part of the header's first
/// whitespace-delimited token after the last `:` or `_`, uppercased — but
/// only when that part is exactly `expected` bytes long.  A header of only
/// whitespace yields no token and no UMI; a part of the wrong length is
/// treated as "no UMI found" rather than an error.
pub open spec fn extracted_umi(h: Seq<u8>, expected: nat) -> Option<Seq<u8>> {
    let s = token_start_from(h, 0);
    if s >= h.len() {
        None
    } else {
        let e = token_end_from(h, s);
        let us = umi_start_in(h, s, e);
        if e - us == expected {
            Some(h.subrange(us, e).map_values(|c: u8| to_upper(c)))
        } else {
            None
        }
    }
}

/// Whether one byte is ASCII whitespace.
fn byte_is_space(c: u8) -> (r: bool)
    ensures
        r == is_space(c),
{
    c == 32u8 || c == 9u8 || c == 10u8 || c == 11u8 || c == 12u8 || c == 13u8
}

/// Extract the UMI from a read header.
///
/// The header's first whitespace-delimited token is expected to end in the
/// UMI, after a `:` or `_` (as in `READ_ID:UMI`); a token without separator
/// is taken whole.  The UMI is returned uppercased when it is exactly
/// `expected_length` bytes long.  A header with no token, or whose candidate
/// has another length, yields `None` — such a read is treated as "no UMI
/// found" rather than failing the run.
///
/// The header is deliberately read as raw bytes: tokens are delimited by
/// ASCII whitespace, and no UTF-8 validation is made, so extraction is
/// total over arbitrary byte strings.  A header that is not valid UTF-8,
/// or one whose token ends at a non-ASCII whitespace character, can
/// therefore yield a UMI where a string-based parser would not.
pub fn extract_umi_from_header(header: &[u8], expected_length: usize) -> (res: Option<Vec<u8>>)
    ensures
        match extracted_umi(header@, expected_length as nat) {
            Some(u) => res matches Some(v) && v@ == u,
            None => res is None,
        },
        res matches Some(v) ==> v@.len() == expected_length,
{
    let n = header.len();

    // Skip leading whitespace to the start of the first token.
    let mut s: usize = 0;
    while s < n && byte_is_space(header[s])
        invariant
            0 <= s <= n,
            n == header@.len(),
            token_start_from(header@, 0) == token_start_from(header@, s as int),
        decreases n - s,
    {
        s = s + 1;
    }
    if s >= n {
        return None;
    }

    // Find the end of the token.
    let mut e: usize = s;
    while e < n && !byte_is_space(header[e])
        invariant
            s <= e <= n,
            n == header@.len(),
            token_end_from(header@, s as int) == token_end_from(header@, e as int),
        decreases n - e,
    {
        e = e + 1;
    }

    // Walk back to just past the last separator inside the token.
    let mut us: usize = e;
    while us > s && !(header[us - 1] == 58u8 || header[us - 1] == 95u8)
        invariant
            s <= us <= e <= n,
            n == header@.len(),
            umi_start_in(header@, s as int, e as int) == umi_start_in(header@, s as int, us as int),
        decreases us,
    {
        us = us - 1;
    }

    if e - us != expected_length {
        return None;
    }

    // Copy the UMI out, uppercasing ASCII letters.
    let mut out: Vec<u8> = Vec::new();
    let mut i: usize = us;
    while i < e
        invariant
            us <= i <= e <= n,
            n == header@.len(),
            out@.len() == i - us,
            forall|j: int| 0 <= j < out@.len() ==> out@[j] == to_upper(header@[us + j]),
        decreases e - i,
    {
        let c = header[i];
        if 97u8 <= c && c <= 122u8 {
            out.push(c - 32u8);
        } else {
            out.push(c);
        }
        i = i + 1;
    }
    proof {
        assert(out@ =~= header@.subrange(us as int, e as int).map_values(|c: u8| to_upper(c)));
    }
    Some(out)
}

} // verus!
