use umi_checker::pipeline::{classify_batch, classify_record, process_records, BatchPipeline};
use umi_checker::records::{encode_fastq, FastqRecord};

fn rec(head: &[u8], seq: &[u8]) -> FastqRecord {
    FastqRecord { head: head.to_vec(), seq: seq.to_vec(), qual: None }
}

fn heads(records: &[FastqRecord]) -> Vec<Vec<u8>> {
    records.iter().map(|r| r.head.clone()).collect()
}

#[test]
fn test_process_batch_fastq_routing() {
    let batch = vec![rec(b"r1:ACGT", b"XXXXACGTYYYY"), rec(b"r2:TTTT", b"AAAAAAAA")];

    let (stats, kept, removed) = process_records(batch, 0, 4, 10_000);
    let (_total, removed_n, kept_n) = stats;
    assert_eq!(removed_n, 1);
    assert_eq!(kept_n, 1);

    assert!(!kept.is_empty());
    assert!(!removed.is_empty());
    // the removed output holds the record whose UMI was found
    let encoded = String::from_utf8(encode_fastq(&removed[0])).unwrap();
    assert!(encoded.contains("@r1:ACGT"));
}

#[test]
fn test_classify_record_matched_and_not() {
    assert!(classify_record(&rec(b"r1:ACGT", b"XXXXACGTYYYY"), 0, 4));
    assert!(!classify_record(&rec(b"r2:TTTT", b"AAAAAAAA"), 0, 4));
    // a header that yields no UMI means "not matched"
    assert!(!classify_record(&rec(b"malformed", b"ACGTACGT"), 0, 4));
}

#[test]
fn test_classify_batch_flags_align_with_records() {
    let batch = vec![
        rec(b"r1:ACGT", b"XXXXACGTYYYY"),
        rec(b"r2:TTTT", b"AAAAAAAA"),
        rec(b"r3:AAAA", b"CCAAAACC"),
    ];
    let flags = classify_batch(&batch, 0, 4);
    assert_eq!(flags, vec![true, false, true]);
}

#[test]
fn test_stats_add_up() {
    let records = vec![
        rec(b"r1:ACGT", b"XXXXACGTYYYY"),
        rec(b"r2:TTTT", b"AAAAAAAA"),
        rec(b"r3:AAAA", b"CCAAAACC"),
        rec(b"r4:GGGG", b"CCCCCCCC"),
        rec(b"bad-header", b"ACGTACGT"),
    ];
    let (stats, kept, removed) = process_records(records, 0, 4, 2);
    let (total, removed_n, kept_n) = stats;
    assert_eq!(total, 5);
    assert_eq!(total, removed_n + kept_n);
    assert_eq!(kept.len() as u64, kept_n);
    assert_eq!(removed.len() as u64, removed_n);
}

#[test]
fn test_batching_is_transparent() {
    let make = || {
        vec![
            rec(b"r1:ACGT", b"XXXXACGTYYYY"),
            rec(b"r2:TTTT", b"AAAAAAAA"),
            rec(b"r3:AAAA", b"CCAAAACC"),
            rec(b"r4:GGGG", b"CCCCCCCC"),
            rec(b"r5:CCCC", b"TTCCCCTT"),
        ]
    };
    let (stats1, kept1, removed1) = process_records(make(), 1, 4, 1);
    let (stats2, kept2, removed2) = process_records(make(), 1, 4, 2);
    let (stats3, kept3, removed3) = process_records(make(), 1, 4, 3);
    let (stats4, kept4, removed4) = process_records(make(), 1, 4, 10_000);
    assert_eq!(stats1, stats2);
    assert_eq!(stats1, stats3);
    assert_eq!(stats1, stats4);
    assert_eq!(heads(&kept1), heads(&kept2));
    assert_eq!(heads(&kept1), heads(&kept3));
    assert_eq!(heads(&kept1), heads(&kept4));
    assert_eq!(heads(&removed1), heads(&removed2));
    assert_eq!(heads(&removed1), heads(&removed3));
    assert_eq!(heads(&removed1), heads(&removed4));
}

#[test]
fn test_routing_with_twelve_base_umi() {
    // a sequence with no window of UMI length is kept; one embedding the
    // UMI exactly is removed
    let records = vec![
        rec(b"k1:ACGTACGTACGT", b"AAAAAAAA"),
        rec(b"k2:ACGTACGTACGT", b"GGGGACGTACGTACGTGGGG"),
    ];
    let (stats, kept, removed) = process_records(records, 0, 12, 10_000);
    assert_eq!(stats, (2, 1, 1));
    assert_eq!(kept.len(), 1);
    assert_eq!(kept[0].head, b"k1:ACGTACGTACGT");
    assert_eq!(removed.len(), 1);
    assert_eq!(removed[0].head, b"k2:ACGTACGTACGT");
}

#[test]
fn test_empty_input_stream() {
    let (stats, kept, removed) = process_records(Vec::new(), 0, 12, 10_000);
    assert_eq!(stats, (0, 0, 0));
    assert!(kept.is_empty());
    assert!(removed.is_empty());
}

#[test]
fn test_pipeline_push_flushes_full_batches() {
    let mut pipe = BatchPipeline::new(0, 4, 2);
    assert!(pipe.push(rec(b"r1:ACGT", b"XXXXACGTYYYY")).is_none());
    let out = pipe.push(rec(b"r2:TTTT", b"AAAAAAAA"));
    let (kept, removed) = out.expect("a full batch is routed at once");
    assert_eq!(kept.len(), 1);
    assert_eq!(removed.len(), 1);
    assert_eq!(removed[0].head, b"r1:ACGT");
    assert_eq!(kept[0].head, b"r2:TTTT");
    // nothing pending: the final flush is empty
    let (kept_tail, removed_tail) = pipe.finish();
    assert!(kept_tail.is_empty());
    assert!(removed_tail.is_empty());
    assert_eq!((pipe.total, pipe.removed, pipe.kept), (2, 1, 1));
}

#[test]
fn test_pipeline_finish_routes_partial_batch() {
    let mut pipe = BatchPipeline::new(0, 4, 10_000);
    assert!(pipe.push(rec(b"r1:ACGT", b"XXXXACGTYYYY")).is_none());
    assert!(pipe.push(rec(b"r2:TTTT", b"AAAAAAAA")).is_none());
    let (kept, removed) = pipe.finish();
    assert_eq!(kept.len(), 1);
    assert_eq!(removed.len(), 1);
    assert_eq!(pipe.total, pipe.kept + pipe.removed);
}

#[test]
fn test_encode_fastq_with_and_without_quality() {
    let with_qual = FastqRecord {
        head: b"r1".to_vec(),
        seq: b"ACGT".to_vec(),
        qual: Some(b"IIII".to_vec()),
    };
    assert_eq!(encode_fastq(&with_qual), b"@r1\nACGT\n+\nIIII\n");
    let without_qual = rec(b"r2", b"ACGT");
    assert_eq!(encode_fastq(&without_qual), b"@r2\nACGT\n+\n\n");
}

#[test]
fn test_record_accessors() {
    let r = rec(b"r1:ACGT", b"ACGTACGT");
    assert_eq!(r.header(), &b"r1:ACGT".to_vec());
    assert_eq!(r.sequence(), &b"ACGTACGT".to_vec());
}
