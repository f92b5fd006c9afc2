//! In-memory sequencing records and their FASTQ encoding.

use vstd::prelude::*;

verus! {

/// A FASTQ-style in-memory record used for batching and processing: the
/// header (without the leading `@`), the base sequence, and the optional
/// quality string.
pub struct FastqRecord {
    pub head: Vec<u8>,
    pub seq: Vec<u8>,
    pub qual: Option<Vec<u8>>,
}

/// The mathematical content of a record: its three byte sequences.
pub struct RecordView {
    pub head: Seq<u8>,
    pub seq: Seq<u8>,
    pub qual: Option<Seq<u8>>,
}

impl View for FastqRecord {
    type V = RecordView;

    open spec fn view(&self) -> RecordView {
        RecordView {
            head: self.head@,
            seq: self.seq@,
            qual: match self.qual {
                Some(q) => Some(q@),
                None => None,
            },
        }
    }
}

/// The contents of a sequence of records.
pub open spec fn views_of(s: Seq<FastqRecord>) -> Seq<RecordView> {
    s.map_values(|r: FastqRecord| r@)
}

impl FastqRecord {
    /// The record's header bytes.
    pub fn header(&self) -> (h: &Vec<u8>)
        ensures
            h@ == self@.head,
    {
        &self.head
    }

    /// The record's base sequence.
    pub fn sequence(&self) -> (s: &Vec<u8>)
        ensures
            s@ == self@.seq,
    {
        &self.seq
    }
}

/// One record's four FASTQ lines: `@<header>`, the sequence, a bare `+`,
/// and the quality string (an empty line when the record has none).
pub open spec fn fastq_encoding(r: RecordView) -> Seq<u8> {
    seq![64u8] + r.head + seq![10u8] + r.seq + seq![10u8, 43u8, 10u8] + (match r.qual {
        Some(q) => q,
        None => Seq::<u8>::empty(),
    }) + seq![10u8]
}

/// Append all of `bytes` to `out`.
pub(crate) fn append_bytes(out: &mut Vec<u8>, bytes: &[u8])
    ensures
        final(out)@ == old(out)@ + bytes@,
{
    let n = bytes.len();
    let mut i: usize = 0;
    while i < n
        invariant
            i <= n,
            n == bytes@.len(),
            out@ == old(out)@ + bytes@.take(i as int),
        decreases n - i,
    {
        out.push(bytes[i]);
        proof {
            assert(bytes@.take(i + 1) =~= bytes@.take(i as int).push(bytes@[i as int]));
            assert(old(out)@ + bytes@.take(i + 1) =~= (old(out)@ + bytes@.take(i as int)).push(
                bytes@[i as int],
            ));
        }
        i = i + 1;
    }
    proof {
        assert(bytes@.take(n as int) =~= bytes@);
    }
}

/// Encode one record as its FASTQ entry.
pub fn encode_fastq(rec: &FastqRecord) -> (out: Vec<u8>)
    ensures
        out@ == fastq_encoding(rec@),
{
    let mut out: Vec<u8> = Vec::new();
    out.push(64u8);  // '@'
    append_bytes(&mut out, rec.head.as_slice());
    out.push(10u8);  // '\n'
    append_bytes(&mut out, rec.seq.as_slice());
    out.push(10u8);
    out.push(43u8);  // '+'
    out.push(10u8);
    match &rec.qual {
        Some(q) => {
            append_bytes(&mut out, q.as_slice());
        },
        None => {},
    }
    out.push(10u8);
    proof {
        assert(out@ =~= fastq_encoding(rec@));
    }
    out
}

} // verus!
