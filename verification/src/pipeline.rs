//! Batch pipeline: classify records against their header UMI in parallel,
//! route each to the kept or removed output in input order, and keep
//! running statistics.
//!
//! Records are gathered into batches of a configured size.  A full batch is
//! classified by a side-effect-free parallel map — one boolean per record,
//! index-aligned with the batch — and then routed serially, in the batch's
//! order, so that each output stream preserves the input order.  The
//! statistics and the routed streams do not depend on the batch size.

use vstd::prelude::*;

use rayon::iter::IntoParallelRefIterator;
use rayon::iter::ParallelIterator;

use crate::extract_umi_from_header;
use crate::extracted_umi;
use crate::matcher::is_umi_in_read;
use crate::matcher::umi_in_read_spec;
use crate::records::FastqRecord;
use crate::records::RecordView;
use crate::records::views_of;

verus! {

/// Whether a record is classified "matched": its header yields a UMI of the
/// expected length and that UMI occurs in the record's sequence within the
/// mismatch tolerance.  A record whose header yields no UMI is "not
/// matched" — it is kept, never an error.
pub open spec fn classify_spec(r: RecordView, m: u32, umi_len: nat) -> bool {
    match extracted_umi(r.head, umi_len) {
        Some(u) => umi_in_read_spec(u, r.seq, m),
        None => false,
    }
}

/// Classify one record: extract the UMI from its header and search the
/// sequence for it.
pub fn classify_record(rec: &FastqRecord, max_mismatches: u32, umi_len: usize) -> (b: bool)
    requires
        1 <= umi_len <= u32::MAX,
    ensures
        b == classify_spec(rec@, max_mismatches, umi_len as nat),
{
    match extract_umi_from_header(rec.head.as_slice(), umi_len) {
        Some(u) => is_umi_in_read(u.as_slice(), rec.seq.as_slice(), max_mismatches),
        None => false,
    }
}

/// Relies on rayon's `par_iter().map(..).collect()`: an indexed parallel
/// map over a vector collects one result per element, in the input's order;
/// the closure only calls the verified `classify_record`.
#[verifier::external_body]
fn par_classify(batch: &Vec<FastqRecord>, max_mismatches: u32, umi_len: usize) -> (flags: Vec<
    bool,
>)
    requires
        1 <= umi_len <= u32::MAX,
    ensures
        flags@.len() == batch@.len(),
        forall|i: int|
            0 <= i < batch@.len() ==> flags@[i] == classify_spec(
                batch@[i]@,
                max_mismatches,
                umi_len as nat,
            ),
{
    batch.par_iter().map(|rec| classify_record(rec, max_mismatches, umi_len)).collect()
}

/// Classify every record of a batch, in parallel, one boolean per record in
/// the batch's order.
pub fn classify_batch(batch: &Vec<FastqRecord>, max_mismatches: u32, umi_len: usize) -> (flags:
    Vec<bool>)
    requires
        1 <= umi_len <= u32::MAX,
    ensures
        flags@.len() == batch@.len(),
        forall|i: int|
            0 <= i < batch@.len() ==> flags@[i] == classify_spec(
                batch@[i]@,
                max_mismatches,
                umi_len as nat,
            ),
{
    par_classify(batch, max_mismatches, umi_len)
}

/// The records of `s` that are classified "matched", in their order in `s`:
/// the stream routed to the removed output.
pub open spec fn removed_of(s: Seq<RecordView>, m: u32, umi_len: nat) -> Seq<RecordView>
    decreases s.len(),
{
    if s.len() == 0 {
        Seq::empty()
    } else {
        removed_of(s.drop_last(), m, umi_len) + if classify_spec(s.last(), m, umi_len) {
            seq![s.last()]
        } else {
            Seq::<RecordView>::empty()
        }
    }
}

/// The records of `s` that are not classified "matched", in their order in
/// `s`: the stream routed to the kept output.
pub open spec fn kept_of(s: Seq<RecordView>, m: u32, umi_len: nat) -> Seq<RecordView>
    decreases s.len(),
{
    if s.len() == 0 {
        Seq::empty()
    } else {
        kept_of(s.drop_last(), m, umi_len) + if classify_spec(s.last(), m, umi_len) {
            Seq::<RecordView>::empty()
        } else {
            seq![s.last()]
        }
    }
}

/// Appending one record extends exactly one of the two routed streams.
proof fn lemma_route_push(s: Seq<RecordView>, r: RecordView, m: u32, umi_len: nat)
    ensures
        classify_spec(r, m, umi_len) ==> removed_of(s.push(r), m, umi_len) == removed_of(
            s,
            m,
            umi_len,
        ).push(r) && kept_of(s.push(r), m, umi_len) == kept_of(s, m, umi_len),
        !classify_spec(r, m, umi_len) ==> kept_of(s.push(r), m, umi_len) == kept_of(
            s,
            m,
            umi_len,
        ).push(r) && removed_of(s.push(r), m, umi_len) == removed_of(s, m, umi_len),
{
    assert(s.push(r).drop_last() =~= s);
    assert(s.push(r).last() == r);
    if classify_spec(r, m, umi_len) {
        assert(removed_of(s, m, umi_len) + seq![r] =~= removed_of(s, m, umi_len).push(r));
        assert(kept_of(s, m, umi_len) + Seq::<RecordView>::empty() =~= kept_of(s, m, umi_len));
    } else {
        assert(kept_of(s, m, umi_len) + seq![r] =~= kept_of(s, m, umi_len).push(r));
        assert(removed_of(s, m, umi_len) + Seq::<RecordView>::empty() =~= removed_of(
            s,
            m,
            umi_len,
        ));
    }
}

/// The two routed streams split every record of `s` between them.
proof fn lemma_route_lens(s: Seq<RecordView>, m: u32, umi_len: nat)
    ensures
        kept_of(s, m, umi_len).len() + removed_of(s, m, umi_len).len() == s.len(),
    decreases s.len(),
{
    if s.len() > 0 {
        lemma_route_lens(s.drop_last(), m, umi_len);
    }
}

/// Routing distributes over concatenation: the streams of `a + b` are the
/// streams of `a` followed by the streams of `b`.
proof fn lemma_route_concat(a: Seq<RecordView>, b: Seq<RecordView>, m: u32, umi_len: nat)
    ensures
        removed_of(a + b, m, umi_len) == removed_of(a, m, umi_len) + removed_of(b, m, umi_len),
        kept_of(a + b, m, umi_len) == kept_of(a, m, umi_len) + kept_of(b, m, umi_len),
    decreases b.len(),
{
    if b.len() == 0 {
        assert(a + b =~= a);
        assert(removed_of(a, m, umi_len) + removed_of(b, m, umi_len) =~= removed_of(
            a,
            m,
            umi_len,
        ));
        assert(kept_of(a, m, umi_len) + kept_of(b, m, umi_len) =~= kept_of(a, m, umi_len));
    } else {
        lemma_route_concat(a, b.drop_last(), m, umi_len);
        assert((a + b).drop_last() =~= a + b.drop_last());
        assert((a + b).last() == b.last());
        lemma_route_push(a + b.drop_last(), b.last(), m, umi_len);
        assert((a + b.drop_last()).push(b.last()) =~= a + b);
        assert(b.drop_last().push(b.last()) =~= b);
        lemma_route_push(b.drop_last(), b.last(), m, umi_len);
        if classify_spec(b.last(), m, umi_len) {
            assert(removed_of(a, m, umi_len) + removed_of(b.drop_last(), m, umi_len).push(
                b.last(),
            ) =~= (removed_of(a, m, umi_len) + removed_of(b.drop_last(), m, umi_len)).push(
                b.last(),
            ));
        } else {
            assert(kept_of(a, m, umi_len) + kept_of(b.drop_last(), m, umi_len).push(b.last())
                =~= (kept_of(a, m, umi_len) + kept_of(b.drop_last(), m, umi_len)).push(b.last()));
        }
    }
}

/// The batch pipeline: gathers records into batches, classifies a full
/// batch in parallel, routes it serially in input order, and accumulates
/// the running counts of records seen, kept and removed.
pub struct BatchPipeline {
    /// Mismatch tolerance handed to the matcher.
    pub max_mismatches: u32,
    /// Expected UMI length in bases.
    pub umi_len: usize,
    /// Number of records gathered before a batch is classified and routed.
    pub batch_size: usize,
    /// The current, not yet classified batch.
    pub pending: Vec<FastqRecord>,
    /// Records seen so far.
    pub total: u64,
    /// Records routed to the removed output so far.
    pub removed: u64,
    /// Records routed to the kept output so far.
    pub kept: u64,
    /// All records pushed so far.
    pub history: Ghost<Seq<RecordView>>,
    /// Concatenation of the kept batches handed back so far.
    pub emitted_kept: Ghost<Seq<RecordView>>,
    /// Concatenation of the removed batches handed back so far.
    pub emitted_removed: Ghost<Seq<RecordView>>,
}

impl BatchPipeline {
    /// The records already classified and routed: all pushed records but
    /// the pending ones.
    pub open spec fn flushed(self) -> Seq<RecordView> {
        self.history@.take(self.history@.len() - self.pending@.len())
    }

    /// Internal consistency, leaving open how full the pending batch is:
    /// the counts and the emitted streams are exactly those of the flushed
    /// records, and the pending records are the tail of the history.
    pub open spec fn wf_core(self) -> bool {
        &&& 1 <= self.batch_size
        &&& 1 <= self.umi_len <= u32::MAX
        &&& self.pending@.len() <= self.history@.len()
        &&& self.total == self.history@.len()
        &&& self.history@ == self.flushed() + views_of(self.pending@)
        &&& self.removed == removed_of(
            self.flushed(),
            self.max_mismatches,
            self.umi_len as nat,
        ).len()
        &&& self.kept == kept_of(self.flushed(), self.max_mismatches, self.umi_len as nat).len()
        &&& self.emitted_removed@ == removed_of(
            self.flushed(),
            self.max_mismatches,
            self.umi_len as nat,
        )
        &&& self.emitted_kept@ == kept_of(self.flushed(), self.max_mismatches, self.umi_len as nat)
    }

    /// A pipeline at rest between calls: consistent, with room in the
    /// pending batch.
    pub open spec fn wf(self) -> bool {
        self.wf_core() && self.pending@.len() < self.batch_size
    }

    /// A fresh pipeline with the given tolerance, UMI length and batch size.
    pub fn new(max_mismatches: u32, umi_len: usize, batch_size: usize) -> (p: Self)
        requires
            1 <= batch_size,
            1 <= umi_len <= u32::MAX,
        ensures
            p.wf(),
            p.max_mismatches == max_mismatches,
            p.umi_len == umi_len,
            p.batch_size == batch_size,
            p.total == 0,
            p.removed == 0,
            p.kept == 0,
            p.history@ == Seq::<RecordView>::empty(),
            p.emitted_kept@ == Seq::<RecordView>::empty(),
            p.emitted_removed@ == Seq::<RecordView>::empty(),
    {
        let p = BatchPipeline {
            max_mismatches,
            umi_len,
            batch_size,
            pending: Vec::new(),
            total: 0,
            removed: 0,
            kept: 0,
            history: Ghost(Seq::empty()),
            emitted_kept: Ghost(Seq::empty()),
            emitted_removed: Ghost(Seq::empty()),
        };
        proof {
            assert(views_of(p.pending@) =~= Seq::<RecordView>::empty());
            assert(p.flushed() =~= Seq::<RecordView>::empty());
            assert(p.history@ =~= p.flushed() + views_of(p.pending@));
        }
        p
    }

    /// Classify the pending batch in parallel and route it serially, in the
    /// batch's order, into a kept vector and a removed vector; update the
    /// counts and hand both vectors back.
    fn flush_batch(&mut self) -> (out: (Vec<FastqRecord>, Vec<FastqRecord>))
        requires
            old(self).wf_core(),
        ensures
            final(self).wf_core(),
            final(self).pending@.len() == 0,
            final(self).max_mismatches == old(self).max_mismatches,
            final(self).umi_len == old(self).umi_len,
            final(self).batch_size == old(self).batch_size,
            final(self).history@ == old(self).history@,
            final(self).total == old(self).total,
            views_of(out.0@) == kept_of(
                views_of(old(self).pending@),
                old(self).max_mismatches,
                old(self).umi_len as nat,
            ),
            views_of(out.1@) == removed_of(
                views_of(old(self).pending@),
                old(self).max_mismatches,
                old(self).umi_len as nat,
            ),
            final(self).emitted_kept@ == old(self).emitted_kept@ + views_of(out.0@),
            final(self).emitted_removed@ == old(self).emitted_removed@ + views_of(out.1@),
    {
        let ghost bviews = views_of(self.pending@);
        let ghost n = bviews.len();
        let ghost m = self.max_mismatches;
        let ghost lu = self.umi_len as nat;
        let ghost h0 = self.history@;
        let ghost t0 = self.total;
        let ghost rem0 = self.removed;
        let ghost kep0 = self.kept;
        let ghost ek0 = self.emitted_kept@;
        let ghost er0 = self.emitted_removed@;
        let ghost flushed0 = self.flushed();

        let pending_len = self.pending.len();
        let flags = par_classify(&self.pending, self.max_mismatches, self.umi_len);
        proof {
            assert(n == pending_len);
            assert(forall|i: int| 0 <= i < n ==> bviews[i] == self.pending@[i]@);
        }

        let mut kept_v: Vec<FastqRecord> = Vec::new();
        let mut removed_v: Vec<FastqRecord> = Vec::new();
        let mut idx: usize = 0;
        while self.pending.len() > 0
            invariant
                idx + self.pending@.len() == n,
                n <= usize::MAX,
                n == bviews.len(),
                flags@.len() == n,
                forall|i: int| 0 <= i < n ==> flags@[i] == classify_spec(bviews[i], m, lu),
                views_of(self.pending@) == bviews.skip(idx as int),
                views_of(kept_v@) == kept_of(bviews.take(idx as int), m, lu),
                views_of(removed_v@) == removed_of(bviews.take(idx as int), m, lu),
                self.max_mismatches == m,
                self.umi_len as nat == lu,
                self.batch_size == old(self).batch_size,
                self.history@ == h0,
                self.total == t0,
                self.removed == rem0,
                self.kept == kep0,
                self.emitted_kept@ == ek0,
                self.emitted_removed@ == er0,
            decreases self.pending@.len(),
        {
            let ghost pend_pre = self.pending@;
            let r = self.pending.remove(0);
            proof {
                assert(views_of(pend_pre)[0] == r@);
                assert(r@ == bviews[idx as int]);
                assert(views_of(self.pending@) =~= views_of(pend_pre).skip(1));
                assert(views_of(pend_pre).skip(1) =~= bviews.skip(idx as int + 1));
            }
            let f = flags[idx];
            let ghost kept_pre = kept_v@;
            let ghost removed_pre = removed_v@;
            if f {
                removed_v.push(r);
            } else {
                kept_v.push(r);
            }
            proof {
                assert(bviews.take(idx as int + 1) =~= bviews.take(idx as int).push(
                    bviews[idx as int],
                ));
                lemma_route_push(bviews.take(idx as int), bviews[idx as int], m, lu);
                if f {
                    assert(views_of(removed_v@) =~= views_of(removed_pre).push(r@));
                    assert(views_of(kept_v@) == views_of(kept_pre));
                } else {
                    assert(views_of(kept_v@) =~= views_of(kept_pre).push(r@));
                    assert(views_of(removed_v@) == views_of(removed_pre));
                }
            }
            idx = idx + 1;
        }
        proof {
            assert(bviews.take(n as int) =~= bviews);
            lemma_route_lens(bviews, m, lu);
            lemma_route_lens(flushed0, m, lu);
            lemma_route_concat(flushed0, bviews, m, lu);
        }
        self.removed = self.removed + removed_v.len() as u64;
        self.kept = self.kept + kept_v.len() as u64;
        proof {
            self.emitted_kept@ = ek0 + views_of(kept_v@);
            self.emitted_removed@ = er0 + views_of(removed_v@);
            assert(self.flushed() =~= self.history@);
            assert(self.history@ =~= flushed0 + bviews);
            assert(views_of(self.pending@) =~= Seq::<RecordView>::empty());
            assert(self.history@ =~= self.flushed() + views_of(self.pending@));
        }
        (kept_v, removed_v)
    }

    /// Take one record in.  When this fills the batch, the batch is
    /// classified and routed at once: the kept and the removed records are
    /// handed back, each vector in the batch's order.
    pub fn push(&mut self, rec: FastqRecord) -> (out: Option<(Vec<FastqRecord>, Vec<FastqRecord>)>)
        requires
            old(self).wf(),
            old(self).total < u64::MAX,
        ensures
            final(self).wf(),
            final(self).max_mismatches == old(self).max_mismatches,
            final(self).umi_len == old(self).umi_len,
            final(self).batch_size == old(self).batch_size,
            final(self).history@ == old(self).history@.push(rec@),
            final(self).total == old(self).total + 1,
            out is Some <==> old(self).pending@.len() + 1 == old(self).batch_size,
            final(self).emitted_kept@ == old(self).emitted_kept@ + (match out {
                Some(o) => views_of(o.0@),
                None => Seq::<RecordView>::empty(),
            }),
            final(self).emitted_removed@ == old(self).emitted_removed@ + (match out {
                Some(o) => views_of(o.1@),
                None => Seq::<RecordView>::empty(),
            }),
            match out {
                Some(o) => views_of(o.0@) == kept_of(
                    views_of(old(self).pending@).push(rec@),
                    old(self).max_mismatches,
                    old(self).umi_len as nat,
                ) && views_of(o.1@) == removed_of(
                    views_of(old(self).pending@).push(rec@),
                    old(self).max_mismatches,
                    old(self).umi_len as nat,
                ),
                None => true,
            },
    {
        let ghost rv = rec@;
        let ghost pend0 = self.pending@;
        self.pending.push(rec);
        proof {
            self.history@ = self.history@.push(rv);
            assert(views_of(self.pending@) =~= views_of(pend0).push(rv));
            assert(self.flushed() =~= self.history@.drop_last().take(
                self.history@.len() - 1 - pend0.len(),
            ));
            assert(self.history@.drop_last() =~= old(self).history@);
            assert(self.flushed() =~= old(self).flushed());
            assert(self.history@ =~= self.flushed() + views_of(self.pending@));
        }
        self.total = self.total + 1;
        if self.pending.len() == self.batch_size {
            proof {
                assert(self.wf_core());
            }
            let out = self.flush_batch();
            proof {
                assert(self.emitted_kept@ == old(self).emitted_kept@ + views_of(out.0@));
            }
            Some(out)
        } else {
            None
        }
    }

    /// Classify and route whatever is pending — the final, possibly partial
    /// or empty batch — and hand it back.  Afterwards every record seen has
    /// been routed, so the total count is exactly the kept count plus the
    /// removed count.
    pub fn finish(&mut self) -> (out: (Vec<FastqRecord>, Vec<FastqRecord>))
        requires
            old(self).wf(),
        ensures
            final(self).wf(),
            final(self).pending@.len() == 0,
            final(self).max_mismatches == old(self).max_mismatches,
            final(self).umi_len == old(self).umi_len,
            final(self).batch_size == old(self).batch_size,
            final(self).history@ == old(self).history@,
            final(self).total == old(self).total,
            final(self).total == final(self).kept + final(self).removed,
            final(self).emitted_kept@ == kept_of(
                final(self).history@,
                old(self).max_mismatches,
                old(self).umi_len as nat,
            ),
            final(self).emitted_removed@ == removed_of(
                final(self).history@,
                old(self).max_mismatches,
                old(self).umi_len as nat,
            ),
            final(self).kept == final(self).emitted_kept@.len(),
            final(self).removed == final(self).emitted_removed@.len(),
            final(self).emitted_kept@ == old(self).emitted_kept@ + views_of(out.0@),
            final(self).emitted_removed@ == old(self).emitted_removed@ + views_of(out.1@),
    {
        let out = self.flush_batch();
        proof {
            assert(self.flushed() =~= self.history@);
            lemma_route_lens(self.history@, self.max_mismatches, self.umi_len as nat);
        }
        out
    }
}

/// Batching is transparent: two pipelines that were fed the same records
/// with the same tolerance and UMI length and have routed everything agree
/// on all three counts and on both routed streams, whatever their batch
/// sizes were.
pub proof fn lemma_batching_transparent(p1: BatchPipeline, p2: BatchPipeline)
    requires
        p1.wf(),
        p2.wf(),
        p1.pending@.len() == 0,
        p2.pending@.len() == 0,
        p1.history@ == p2.history@,
        p1.max_mismatches == p2.max_mismatches,
        p1.umi_len == p2.umi_len,
    ensures
        p1.total == p2.total,
        p1.removed == p2.removed,
        p1.kept == p2.kept,
        p1.emitted_kept@ == p2.emitted_kept@,
        p1.emitted_removed@ == p2.emitted_removed@,
{
    assert(p1.flushed() =~= p1.history@);
    assert(p2.flushed() =~= p2.history@);
}

/// Feed a whole vector of records through the batch pipeline and gather
/// the outputs: the counts `(total, removed, kept)`, the kept records and
/// the removed records, both in input order.  None of the results depends
/// on the batch size.
pub fn process_records(
    records: Vec<FastqRecord>,
    max_mismatches: u32,
    umi_len: usize,
    batch_size: usize,
) -> (out: ((u64, u64, u64), Vec<FastqRecord>, Vec<FastqRecord>))
    requires
        1 <= umi_len <= u32::MAX,
        1 <= batch_size,
        records@.len() < u64::MAX,
    ensures
        out.0.0 == records@.len(),
        out.0.1 == removed_of(views_of(records@), max_mismatches, umi_len as nat).len(),
        out.0.2 == kept_of(views_of(records@), max_mismatches, umi_len as nat).len(),
        out.0.0 == out.0.1 + out.0.2,
        views_of(out.1@) == kept_of(views_of(records@), max_mismatches, umi_len as nat),
        views_of(out.2@) == removed_of(views_of(records@), max_mismatches, umi_len as nat),
{
    let ghost all = views_of(records@);
    let mut records = records;
    let n = records.len();
    proof {
        assert(n == all.len());
    }
    let mut pipe = BatchPipeline::new(max_mismatches, umi_len, batch_size);
    let mut kept_all: Vec<FastqRecord> = Vec::new();
    let mut removed_all: Vec<FastqRecord> = Vec::new();
    let mut i: usize = 0;
    proof {
        assert(all.take(0) =~= Seq::<RecordView>::empty());
        assert(views_of(kept_all@) =~= Seq::<RecordView>::empty());
        assert(views_of(removed_all@) =~= Seq::<RecordView>::empty());
        assert(views_of(records@) =~= all.skip(0));
    }
    while records.len() > 0
        invariant
            i + records@.len() == n,
            n == all.len(),
            n < u64::MAX,
            views_of(records@) == all.skip(i as int),
            pipe.wf(),
            pipe.max_mismatches == max_mismatches,
            pipe.umi_len == umi_len,
            pipe.batch_size == batch_size,
            pipe.history@ == all.take(i as int),
            pipe.total == i,
            views_of(kept_all@) == pipe.emitted_kept@,
            views_of(removed_all@) == pipe.emitted_removed@,
        decreases records@.len(),
    {
        let ghost recs_pre = records@;
        let r = records.remove(0);
        proof {
            assert(views_of(recs_pre)[0] == r@);
            assert(r@ == all[i as int]);
            assert(views_of(records@) =~= views_of(recs_pre).skip(1));
            assert(views_of(recs_pre).skip(1) =~= all.skip(i as int + 1));
            assert(all.take(i as int).push(all[i as int]) =~= all.take(i as int + 1));
        }
        let ghost kept_pre = kept_all@;
        let ghost removed_pre = removed_all@;
        match pipe.push(r) {
            Some(mut o) => {
                let ghost ko = o.0@;
                let ghost ro = o.1@;
                kept_all.append(&mut o.0);
                removed_all.append(&mut o.1);
                proof {
                    assert(views_of(kept_all@) =~= views_of(kept_pre) + views_of(ko));
                    assert(views_of(removed_all@) =~= views_of(removed_pre) + views_of(ro));
                }
            },
            None => {
                proof {
                    assert(views_of(kept_all@) =~= views_of(kept_pre) + Seq::<
                        RecordView,
                    >::empty());
                    assert(views_of(removed_all@) =~= views_of(removed_pre) + Seq::<
                        RecordView,
                    >::empty());
                }
            },
        }
        i = i + 1;
    }
    proof {
        assert(all.take(i as int) =~= all);
    }
    let ghost kept_pre = kept_all@;
    let ghost removed_pre = removed_all@;
    let mut last = pipe.finish();
    let ghost ko = last.0@;
    let ghost ro = last.1@;
    kept_all.append(&mut last.0);
    removed_all.append(&mut last.1);
    proof {
        assert(views_of(kept_all@) =~= views_of(kept_pre) + views_of(ko));
        assert(views_of(removed_all@) =~= views_of(removed_pre) + views_of(ro));
    }
    ((pipe.total, pipe.removed, pipe.kept), kept_all, removed_all)
}

} // verus!
