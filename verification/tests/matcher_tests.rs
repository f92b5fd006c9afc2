use umi_checker::matcher::{hamming_distance, is_umi_in_read};

#[test]
fn test_hamming_distance_exact() {
    let a = b"ACGTACGT";
    let b = b"ACGTACGT";
    assert_eq!(hamming_distance(a, b), 0);
}

#[test]
fn test_hamming_distance_with_n_and_tail() {
    let a = b"ACGTNACGTA";
    let b = b"ACGTAACGTT";
    // 'N' counts as mismatch; expect two mismatches
    assert_eq!(hamming_distance(a, b), 2);
}

#[test]
fn test_is_umi_in_read_exact_and_mismatch() {
    let umi = b"ACGTACGTACGT"; // 12
    let read = b"GGGGACGTACGTACGTGGGG";
    assert!(is_umi_in_read(umi, read, 0));

    let read2 = b"GGGGACGTACGAACGTGGGG"; // 1 mismatch in the middle
    assert!(is_umi_in_read(umi, read2, 1));
    assert!(!is_umi_in_read(umi, read2, 0));
}

#[test]
fn test_hamming_distance_symmetric() {
    let a = b"ACGTNACGTA";
    let b = b"ACGTAACGTT";
    assert_eq!(hamming_distance(a, b), hamming_distance(b, a));
}

#[test]
fn test_hamming_distance_self_counts_ambiguous() {
    // a sequence against itself scores its count of N/n bases
    let a = b"ACGTNACGTN";
    assert_eq!(hamming_distance(a, a), 2);
    let b = b"ACGTnACGT";
    assert_eq!(hamming_distance(b, b), 1);
    let c = b"ACGTACGT";
    assert_eq!(hamming_distance(c, c), 0);
}

#[test]
fn test_hamming_distance_single_substitution() {
    // replacing one non-ambiguous byte by a differing non-ambiguous byte
    // raises the distance by exactly one over the self-distance
    let a = b"ACGTNACGTA";
    let mut b = a.to_vec();
    b[2] = b'T'; // 'G' -> 'T'
    assert_eq!(hamming_distance(a, &b), hamming_distance(a, a) + 1);
}

#[test]
fn test_hamming_distance_lowercase_n_is_ambiguous() {
    assert_eq!(hamming_distance(b"n", b"n"), 1);
    assert_eq!(hamming_distance(b"N", b"N"), 1);
    assert_eq!(hamming_distance(b"a", b"a"), 0);
}

#[test]
fn test_is_umi_in_read_monotonic_in_tolerance() {
    let umi = b"ACGTACGTACGT";
    let read = b"GGGGACGTACGAACGTGGGG";
    // found at tolerance 1, so found at every higher tolerance
    assert!(is_umi_in_read(umi, read, 1));
    assert!(is_umi_in_read(umi, read, 2));
    assert!(is_umi_in_read(umi, read, 3));
}

#[test]
fn test_is_umi_in_read_short_read_is_false() {
    let umi = b"ACGTACGTACGT";
    let read = b"ACGTACGT"; // shorter than the UMI
    assert!(!is_umi_in_read(umi, read, 0));
    assert!(!is_umi_in_read(umi, read, 3));
    assert!(!is_umi_in_read(umi, read, 100));
}

#[test]
fn test_is_umi_in_read_two_mismatches() {
    let umi = b"ACGTACGTACGT";
    let read = b"GGGGACGAACGAACGTGGGG"; // two substitutions inside the window
    assert!(!is_umi_in_read(umi, read, 1));
    assert!(is_umi_in_read(umi, read, 2));
}

#[test]
fn test_is_umi_in_read_high_tolerance_short_umi() {
    // tolerance at least the UMI length: every window qualifies
    let umi = b"AC";
    let read = b"GGGG";
    assert!(is_umi_in_read(umi, read, 2));
    assert!(!is_umi_in_read(umi, read, 1));
}

#[test]
fn test_is_umi_in_read_match_at_edges() {
    let umi = b"ACGT";
    assert!(is_umi_in_read(umi, b"ACGTGGGG", 0)); // leftmost window
    assert!(is_umi_in_read(umi, b"GGGGACGT", 0)); // rightmost window
    assert!(is_umi_in_read(umi, b"ACGT", 0)); // the only window
}

#[test]
fn test_is_umi_in_read_ambiguous_window_not_exact() {
    // at tolerance zero the search is byte equality: 'N' matches 'N'
    assert!(is_umi_in_read(b"ACNT", b"GGACNTGG", 0));
    // but an 'N' position spends tolerance when mismatches are allowed
    assert!(!is_umi_in_read(b"ACNT", b"GGACGTGG", 0));
    assert!(is_umi_in_read(b"ACNT", b"GGACGTGG", 1));
}
