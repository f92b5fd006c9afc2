use umi_checker::extract_umi_from_header;

#[test]
fn test_extract_umi_from_header() {
    let header = b"READ_12345:ACGTACGTACGT";
    let umi = extract_umi_from_header(header, 12);
    assert_eq!(umi.unwrap(), b"ACGTACGTACGT");
}

#[test]
fn test_extract_umi_underscore_separator() {
    let header = b"READ12345_ACGTACGTACGT";
    let umi = extract_umi_from_header(header, 12);
    assert_eq!(umi.unwrap(), b"ACGTACGTACGT");
}

#[test]
fn test_extract_umi_is_uppercased() {
    let header = b"read:acgtacgtacgt";
    let umi = extract_umi_from_header(header, 12);
    assert_eq!(umi.unwrap(), b"ACGTACGTACGT");
}

#[test]
fn test_extract_umi_stops_at_whitespace() {
    // only the first whitespace-delimited token is considered
    let header = b"READ:ACGT extra:CCCCCCCC";
    let umi = extract_umi_from_header(header, 4);
    assert_eq!(umi.unwrap(), b"ACGT");
}

#[test]
fn test_extract_umi_takes_last_separator() {
    let header = b"A:B:ACGT";
    let umi = extract_umi_from_header(header, 4);
    assert_eq!(umi.unwrap(), b"ACGT");
}

#[test]
fn test_extract_umi_whole_token_without_separator() {
    let header = b"ACGTACGT";
    let umi = extract_umi_from_header(header, 8);
    assert_eq!(umi.unwrap(), b"ACGTACGT");
}

#[test]
fn test_extract_umi_wrong_length_is_none() {
    // a candidate of the wrong length means "no UMI found"
    assert!(extract_umi_from_header(b"READ:ACGT", 12).is_none());
    assert!(extract_umi_from_header(b"READ:ACGTACGTACGTACGT", 12).is_none());
}

#[test]
fn test_extract_umi_empty_or_blank_header_is_none() {
    assert!(extract_umi_from_header(b"", 12).is_none());
    assert!(extract_umi_from_header(b"   \t  ", 12).is_none());
}

#[test]
fn test_extract_umi_skips_leading_whitespace() {
    let header = b"  READ:ACGT";
    let umi = extract_umi_from_header(header, 4);
    assert_eq!(umi.unwrap(), b"ACGT");
}
