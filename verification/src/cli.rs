//! Pure command-line planning: recognising the input format from the file
//! name, validating the mismatch bound, deriving the two output paths from
//! an output prefix, and formatting the summary line.

use vstd::prelude::*;

use crate::records::append_bytes;

verus! {

/// The input container formats the tool accepts, recognised by file name.
#[derive(Clone, Copy, PartialEq, Eq, Structural, Debug)]
pub enum FileType {
    Fastq,
    FastqGz,
    Bam,
    Sam,
}

/// Why a run cannot proceed as requested.
#[derive(Clone, Copy, PartialEq, Eq, Structural, Debug)]
pub enum RunError {
    /// The mismatch tolerance is above the supported bound of three.
    TooManyMismatches,
    /// The input file name carries none of the recognised suffixes.
    UnsupportedFileType,
}

impl RunError {
    /// A human-readable description of the error.
    pub fn message(&self) -> (s: &'static str)
        ensures
            *self is TooManyMismatches ==> s@ == "Maximum allowed mismatches is 3"@,
            *self is UnsupportedFileType ==> s@ == "Unsupported file type"@,
    {
        match self {
            RunError::TooManyMismatches => "Maximum allowed mismatches is 3",
            RunError::UnsupportedFileType => "Unsupported file type",
        }
    }
}

/// ASCII lowercasing of one byte.
pub open spec fn to_lower(c: u8) -> u8 {
    if 65 <= c <= 90 {
        (c + 32) as u8
    } else {
        c
    }
}

/// `name`, lowercased, ends in `suf` (`suf` is given lowercase).
pub open spec fn suffix_is_ci(name: Seq<u8>, suf: Seq<u8>) -> bool {
    name.len() >= suf.len() && forall|j: int|
        0 <= j < suf.len() ==> to_lower(name[name.len() - suf.len() + j]) == suf[j]
}

/// `s` ends in `suf`, byte for byte.
pub open spec fn suffix_is(s: Seq<u8>, suf: Seq<u8>) -> bool {
    s.len() >= suf.len() && forall|j: int| 0 <= j < suf.len() ==> s[s.len() - suf.len() + j]
        == suf[j]
}

/// The format a file name announces, judged case-insensitively by its
/// suffix; gzipped FASTQ is recognised before bare FASTQ so that `.fq.gz`
/// is not mistaken for `.fq`.
pub open spec fn file_type_of(name: Seq<u8>) -> Option<FileType> {
    if suffix_is_ci(name, seq![46u8, 102u8, 113u8, 46u8, 103u8, 122u8]) || suffix_is_ci(
        name,
        seq![46u8, 102u8, 97u8, 115u8, 116u8, 113u8, 46u8, 103u8, 122u8],
    ) {
        Some(FileType::FastqGz)
    } else if suffix_is_ci(name, seq![46u8, 102u8, 113u8]) || suffix_is_ci(
        name,
        seq![46u8, 102u8, 97u8, 115u8, 116u8, 113u8],
    ) {
        Some(FileType::Fastq)
    } else if suffix_is_ci(name, seq![46u8, 98u8, 97u8, 109u8]) {
        Some(FileType::Bam)
    } else if suffix_is_ci(name, seq![46u8, 115u8, 97u8, 109u8]) {
        Some(FileType::Sam)
    } else {
        None
    }
}

/// Whether `name`, lowercased, ends in `suf`.
fn has_suffix_ci(name: &[u8], suf: &Vec<u8>) -> (r: bool)
    ensures
        r == suffix_is_ci(name@, suf@),
{
    let n = name.len();
    let m = suf.len();
    if n < m {
        return false;
    }
    let mut j: usize = 0;
    while j < m
        invariant
            0 <= j <= m,
            m <= n,
            n == name@.len(),
            m == suf@.len(),
            forall|i: int| 0 <= i < j ==> to_lower(name@[n - m + i]) == suf@[i],
        decreases m - j,
    {
        let c = name[n - m + j];
        let lc = if 65u8 <= c && c <= 90u8 {
            c + 32
        } else {
            c
        };
        if lc != suf[j] {
            return false;
        }
        j = j + 1;
    }
    true
}

impl FileType {
    /// Recognise the input format from the file name's suffix.
    pub fn from_path(name: &[u8]) -> (r: Result<FileType, RunError>)
        ensures
            match file_type_of(name@) {
                Some(ft) => r == Result::<FileType, RunError>::Ok(ft),
                None => r == Result::<FileType, RunError>::Err(RunError::UnsupportedFileType),
            },
    {
        let fq_gz: Vec<u8> = vec![46u8, 102u8, 113u8, 46u8, 103u8, 122u8];
        let fastq_gz: Vec<u8> = vec![46u8, 102u8, 97u8, 115u8, 116u8, 113u8, 46u8, 103u8, 122u8];
        let fq: Vec<u8> = vec![46u8, 102u8, 113u8];
        let fastq: Vec<u8> = vec![46u8, 102u8, 97u8, 115u8, 116u8, 113u8];
        let bam: Vec<u8> = vec![46u8, 98u8, 97u8, 109u8];
        let sam: Vec<u8> = vec![46u8, 115u8, 97u8, 109u8];
        if has_suffix_ci(name, &fq_gz) || has_suffix_ci(name, &fastq_gz) {
            Ok(FileType::FastqGz)
        } else if has_suffix_ci(name, &fq) || has_suffix_ci(name, &fastq) {
            Ok(FileType::Fastq)
        } else if has_suffix_ci(name, &bam) {
            Ok(FileType::Bam)
        } else if has_suffix_ci(name, &sam) {
            Ok(FileType::Sam)
        } else {
            Err(RunError::UnsupportedFileType)
        }
    }
}

/// The canonical output suffix of a format, without the leading dot.
pub open spec fn canonical_suffix(ft: FileType) -> Seq<u8> {
    match ft {
        FileType::Fastq => seq![102u8, 113u8],
        FileType::FastqGz => seq![102u8, 113u8, 46u8, 103u8, 122u8],
        FileType::Bam => seq![98u8, 97u8, 109u8],
        FileType::Sam => seq![115u8, 97u8, 109u8],
    }
}

/// The suffix variants, with their leading dot, that an output prefix may
/// carry for a format and that are trimmed off before the canonical suffix
/// is appended.
pub open spec fn trim_candidates(ft: FileType) -> Seq<Seq<u8>> {
    match ft {
        FileType::Fastq => seq![
            seq![46u8, 102u8, 113u8],
            seq![46u8, 102u8, 97u8, 115u8, 116u8, 113u8],
        ],
        FileType::FastqGz => seq![
            seq![46u8, 102u8, 113u8, 46u8, 103u8, 122u8],
            seq![46u8, 102u8, 97u8, 115u8, 116u8, 113u8, 46u8, 103u8, 122u8],
        ],
        FileType::Bam => seq![seq![46u8, 98u8, 97u8, 109u8]],
        FileType::Sam => seq![seq![46u8, 115u8, 97u8, 109u8]],
    }
}

/// `s` with every trailing repetition of `suf` removed.
pub open spec fn strip_all(s: Seq<u8>, suf: Seq<u8>) -> Seq<u8>
    decreases s.len(),
{
    if suf.len() >= 1 && suffix_is(s, suf) {
        strip_all(s.take(s.len() - suf.len()), suf)
    } else {
        s
    }
}

/// The base of the output paths: the prefix, with the first trim candidate
/// it ends in (checked in the candidates' order) stripped off its tail
/// repeatedly; the prefix itself when it ends in none.
pub open spec fn base_of(prefix: Seq<u8>, ft: FileType) -> Seq<u8> {
    let cands = trim_candidates(ft);
    if suffix_is(prefix, cands[0]) {
        strip_all(prefix, cands[0])
    } else if cands.len() >= 2 && suffix_is(prefix, cands[1]) {
        strip_all(prefix, cands[1])
    } else {
        prefix
    }
}

/// The path of the kept output: `<base>.<suffix>`.
pub open spec fn matched_path_of(prefix: Seq<u8>, ft: FileType) -> Seq<u8> {
    base_of(prefix, ft) + seq![46u8] + canonical_suffix(ft)
}

/// The path of the removed output: `<base>.removed.<suffix>`.
pub open spec fn removed_path_of(prefix: Seq<u8>, ft: FileType) -> Seq<u8> {
    base_of(prefix, ft) + seq![
        46u8,
        114u8,
        101u8,
        109u8,
        111u8,
        118u8,
        101u8,
        100u8,
        46u8,
    ] + canonical_suffix(ft)
}

/// Whether `v` ends in `suf`, byte for byte.
fn vec_ends_with(v: &Vec<u8>, suf: &Vec<u8>) -> (r: bool)
    ensures
        r == suffix_is(v@, suf@),
{
    let n = v.len();
    let m = suf.len();
    if n < m {
        return false;
    }
    let mut j: usize = 0;
    while j < m
        invariant
            0 <= j <= m,
            m <= n,
            n == v@.len(),
            m == suf@.len(),
            forall|i: int| 0 <= i < j ==> v@[n - m + i] == suf@[i],
        decreases m - j,
    {
        if v[n - m + j] != suf[j] {
            return false;
        }
        j = j + 1;
    }
    true
}

/// Remove every trailing repetition of `suf` from `base`.
fn strip_all_trailing(base: &mut Vec<u8>, suf: &Vec<u8>)
    requires
        suf@.len() >= 1,
    ensures
        final(base)@ == strip_all(old(base)@, suf@),
{
    loop
        invariant
            suf@.len() >= 1,
            strip_all(old(base)@, suf@) == strip_all(base@, suf@),
        ensures
            !suffix_is(base@, suf@),
            strip_all(old(base)@, suf@) == strip_all(base@, suf@),
        decreases base@.len(),
    {
        if !vec_ends_with(base, suf) {
            break ;
        }
        let nl = base.len() - suf.len();
        base.truncate(nl);
    }
}

impl FileType {
    /// The canonical output suffix of this format, without the leading dot.
    pub fn suffix_info(&self) -> (suf: Vec<u8>)
        ensures
            suf@ == canonical_suffix(*self),
    {
        match self {
            FileType::Fastq => vec![102u8, 113u8],
            FileType::FastqGz => vec![102u8, 113u8, 46u8, 103u8, 122u8],
            FileType::Bam => vec![98u8, 97u8, 109u8],
            FileType::Sam => vec![115u8, 97u8, 109u8],
        }
    }

    /// Build the two output paths from an output prefix: the kept output
    /// `<base>.<suffix>` and the removed output `<base>.removed.<suffix>`,
    /// where the base is the prefix with a trailing suffix variant of this
    /// format trimmed off.
    pub fn build_output_paths(&self, out_prefix: &[u8]) -> (pair: (Vec<u8>, Vec<u8>))
        ensures
            pair.0@ == matched_path_of(out_prefix@, *self),
            pair.1@ == removed_path_of(out_prefix@, *self),
    {
        let mut base: Vec<u8> = vstd::slice::slice_to_vec(out_prefix);
        let c0: Vec<u8>;
        let c1: Option<Vec<u8>>;
        match self {
            FileType::Fastq => {
                c0 = vec![46u8, 102u8, 113u8];
                c1 = Some(vec![46u8, 102u8, 97u8, 115u8, 116u8, 113u8]);
            },
            FileType::FastqGz => {
                c0 = vec![46u8, 102u8, 113u8, 46u8, 103u8, 122u8];
                c1 = Some(vec![46u8, 102u8, 97u8, 115u8, 116u8, 113u8, 46u8, 103u8, 122u8]);
            },
            FileType::Bam => {
                c0 = vec![46u8, 98u8, 97u8, 109u8];
                c1 = None;
            },
            FileType::Sam => {
                c0 = vec![46u8, 115u8, 97u8, 109u8];
                c1 = None;
            },
        }
        proof {
            assert(c0@ == trim_candidates(*self)[0]);
        }
        if vec_ends_with(&base, &c0) {
            strip_all_trailing(&mut base, &c0);
        } else {
            match &c1 {
                Some(c) => {
                    proof {
                        assert(c@ == trim_candidates(*self)[1]);
                    }
                    if vec_ends_with(&base, c) {
                        strip_all_trailing(&mut base, c);
                    }
                },
                None => {},
            }
        }
        proof {
            assert(base@ == base_of(out_prefix@, *self));
        }
        let suffix = self.suffix_info();
        let mut matched: Vec<u8> = Vec::new();
        append_bytes(&mut matched, base.as_slice());
        matched.push(46u8);
        append_bytes(&mut matched, suffix.as_slice());
        let mut removed: Vec<u8> = Vec::new();
        append_bytes(&mut removed, base.as_slice());
        let tag: Vec<u8> = vec![46u8, 114u8, 101u8, 109u8, 111u8, 118u8, 101u8, 100u8, 46u8];
        append_bytes(&mut removed, tag.as_slice());
        append_bytes(&mut removed, suffix.as_slice());
        proof {
            assert(matched@ =~= matched_path_of(out_prefix@, *self));
            assert(removed@ =~= removed_path_of(out_prefix@, *self));
        }
        (matched, removed)
    }
}

/// Everything a validated invocation needs: the recognised input format
/// and, when an output prefix was given, the two output paths.
#[derive(Debug)]
pub struct RunPlan {
    pub file_type: FileType,
    pub matched_path: Option<Vec<u8>>,
    pub removed_path: Option<Vec<u8>>,
}

/// Validate an invocation and derive its plan: the mismatch tolerance must
/// be at most three, the input file name must carry a recognised suffix,
/// and the output paths exist exactly when an output prefix was given.
pub fn plan_run(input_name: &[u8], mismatches: u32, out_prefix: Option<&[u8]>) -> (r: Result<
    RunPlan,
    RunError,
>)
    ensures
        mismatches > 3 ==> (r matches Err(e) && e == RunError::TooManyMismatches),
        mismatches <= 3 && file_type_of(input_name@) is None ==> (r matches Err(e) && e
            == RunError::UnsupportedFileType),
        mismatches <= 3 ==> (match file_type_of(input_name@) {
            Some(ft) => r matches Ok(p) && p.file_type == ft && (match out_prefix {
                Some(pref) => (p.matched_path matches Some(mp) && (mp@ == matched_path_of(
                    pref@,
                    ft,
                ) && (p.removed_path matches Some(rp) && rp@ == removed_path_of(pref@, ft)))),
                None => p.matched_path is None && p.removed_path is None,
            }),
            None => true,
        }),
{
    if mismatches > 3 {
        return Err(RunError::TooManyMismatches);
    }
    let file_type = match FileType::from_path(input_name) {
        Ok(ft) => ft,
        Err(e) => {
            return Err(e);
        },
    };
    match out_prefix {
        Some(pref) => {
            let (matched, removed) = file_type.build_output_paths(pref);
            Ok(
                RunPlan {
                    file_type,
                    matched_path: Some(matched),
                    removed_path: Some(removed),
                },
            )
        },
        None => Ok(RunPlan { file_type, matched_path: None, removed_path: None }),
    }
}

/// The decimal digits of `n`, most significant first.
pub open spec fn dec_digits(n: nat) -> Seq<u8>
    decreases n,
{
    if n < 10 {
        seq![(48 + n) as u8]
    } else {
        dec_digits(n / 10).push((48 + n % 10) as u8)
    }
}

/// A ratio in hundredths of a percent, rounded to the nearest hundredth
/// with ties to even; zero when the denominator is zero.
pub open spec fn percent_hundredths(part: nat, total: nat) -> nat {
    if total == 0 {
        0
    } else {
        let q = (part * 10000) / total;
        let r = (part * 10000) % total;
        if 2 * r < total {
            q
        } else if 2 * r > total {
            (q + 1) as nat
        } else if q % 2 == 0 {
            q
        } else {
            (q + 1) as nat
        }
    }
}

/// The percentage `part` is of `total`, with two decimals: the whole
/// percents, a dot, and two digits of hundredths.
pub open spec fn percent_encoding(part: nat, total: nat) -> Seq<u8> {
    let p = percent_hundredths(part, total);
    dec_digits(p / 100) + seq![46u8, (48 + (p % 100) / 10) as u8, (48 + p % 10) as u8]
}

/// The tab-separated summary line: input name, total, kept count,
/// kept percentage, removed count, removed percentage.
pub open spec fn summary_encoding(name: Seq<u8>, total: nat, removed: nat, kept: nat) -> Seq<
    u8,
> {
    name + seq![9u8] + dec_digits(total) + seq![9u8] + dec_digits(kept) + seq![9u8]
        + percent_encoding(kept, total) + seq![9u8] + dec_digits(removed) + seq![9u8]
        + percent_encoding(removed, total)
}

/// Format a count in decimal.
pub fn format_u64(n: u64) -> (out: Vec<u8>)
    ensures
        out@ == dec_digits(n as nat),
{
    let mut rev: Vec<u8> = Vec::new();
    let mut x: u64 = n;
    while x >= 10
        invariant
            dec_digits(n as nat) == dec_digits(x as nat) + rev@.reverse(),
        decreases x,
    {
        let ghost rev_pre = rev@;
        let ghost x_pre = x as nat;
        let d = 48u8 + (x % 10) as u8;
        rev.push(d);
        x = x / 10;
        proof {
            assert(rev@.reverse() =~= seq![d] + rev_pre.reverse());
            assert(dec_digits(x_pre) == dec_digits(x_pre / 10).push(d));
            assert(dec_digits(x_pre / 10).push(d) + rev_pre.reverse() =~= dec_digits(x_pre / 10)
                + (seq![d] + rev_pre.reverse()));
        }
    }
    let ghost rev_pre = rev@;
    let d = 48u8 + x as u8;
    rev.push(d);
    proof {
        assert(dec_digits(x as nat) == seq![d]);
        assert(rev@.reverse() =~= seq![d] + rev_pre.reverse());
        assert(dec_digits(n as nat) =~= rev@.reverse());
    }
    let rn = rev.len();
    let mut out: Vec<u8> = Vec::new();
    let mut k: usize = 0;
    while k < rn
        invariant
            0 <= k <= rn,
            rn == rev@.len(),
            out@.len() == k,
            forall|i: int| 0 <= i < k ==> out@[i] == rev@[rn - 1 - i],
        decreases rn - k,
    {
        out.push(rev[rn - 1 - k]);
        k = k + 1;
    }
    proof {
        assert(out@ =~= rev@.reverse());
    }
    out
}

/// Format the percentage `part` is of `total` with two decimals, rounding
/// to the nearest hundredth with ties to even; `0.00` when `total` is zero.
pub fn format_percent(part: u64, total: u64) -> (out: Vec<u8>)
    requires
        part <= total,
    ensures
        out@ == percent_encoding(part as nat, total as nat),
{
    if total == 0 {
        let out: Vec<u8> = vec![48u8, 46u8, 48u8, 48u8];
        proof {
            assert(dec_digits(0) =~= seq![48u8]);
            assert(out@ =~= percent_encoding(part as nat, 0));
        }
        return out;
    }
    let num: u128 = (part as u128) * 10000;
    let den: u128 = total as u128;
    let q: u128 = num / den;
    let r: u128 = num % den;
    proof {
        vstd::arithmetic::div_mod::lemma_fundamental_div_mod(num as int, den as int);
        vstd::arithmetic::div_mod::lemma_mod_bound(num as int, den as int);
        assert(q <= 10000 && (q == 10000 ==> r == 0)) by (nonlinear_arith)
            requires
                den == total as int,
                1 <= total as int,
                part as int <= total as int,
                num == (part as int) * 10000,
                num == den * (q as int) + r as int,
                0 <= (r as int) < den,
        ;
    }
    let rounded: u128 = if 2 * r < den {
        q
    } else if 2 * r > den {
        q + 1
    } else if q % 2 == 0 {
        q
    } else {
        q + 1
    };
    let p = rounded as u64;
    let mut out = format_u64(p / 100);
    out.push(46u8);
    out.push(48u8 + ((p % 100) / 10) as u8);
    out.push(48u8 + (p % 10) as u8);
    proof {
        assert(p as nat == percent_hundredths(part as nat, total as nat));
        assert(out@ =~= percent_encoding(part as nat, total as nat));
    }
    out
}

/// Format the tab-separated summary line for one processed input: name,
/// total, kept count and percentage, removed count and percentage.
pub fn format_summary(input_name: &[u8], total: u64, removed: u64, kept: u64) -> (out: Vec<u8>)
    requires
        removed <= total,
        kept <= total,
    ensures
        out@ == summary_encoding(input_name@, total as nat, removed as nat, kept as nat),
{
    let mut out: Vec<u8> = Vec::new();
    append_bytes(&mut out, input_name);
    out.push(9u8);
    let t = format_u64(total);
    append_bytes(&mut out, t.as_slice());
    out.push(9u8);
    let k = format_u64(kept);
    append_bytes(&mut out, k.as_slice());
    out.push(9u8);
    let pk = format_percent(kept, total);
    append_bytes(&mut out, pk.as_slice());
    out.push(9u8);
    let r = format_u64(removed);
    append_bytes(&mut out, r.as_slice());
    out.push(9u8);
    let pr = format_percent(removed, total);
    append_bytes(&mut out, pr.as_slice());
    proof {
        assert(out@ =~= summary_encoding(
            input_name@,
            total as nat,
            removed as nat,
            kept as nat,
        ));
    }
    out
}

} // verus!
