use umi_checker::cli::{format_percent, format_summary, format_u64, plan_run, FileType, RunError};

#[test]
fn test_file_type_from_path() {
    assert_eq!(FileType::from_path(b"test.fastq").unwrap(), FileType::Fastq);
    assert_eq!(FileType::from_path(b"test.fq").unwrap(), FileType::Fastq);
    assert_eq!(FileType::from_path(b"test.fastq.gz").unwrap(), FileType::FastqGz);
    assert_eq!(FileType::from_path(b"test.fq.gz").unwrap(), FileType::FastqGz);
    assert_eq!(FileType::from_path(b"test.bam").unwrap(), FileType::Bam);
    assert_eq!(FileType::from_path(b"test.sam").unwrap(), FileType::Sam);
    assert!(FileType::from_path(b"test.txt").is_err());
}

#[test]
fn test_file_type_is_case_insensitive() {
    assert_eq!(FileType::from_path(b"TEST.FASTQ").unwrap(), FileType::Fastq);
    assert_eq!(FileType::from_path(b"Test.Fq.Gz").unwrap(), FileType::FastqGz);
    assert_eq!(FileType::from_path(b"TEST.BAM").unwrap(), FileType::Bam);
}

#[test]
fn test_build_output_paths_fastq() {
    let ft = FileType::Fastq;
    let (matched, removed) = ft.build_output_paths(b"output");
    assert_eq!(matched, b"output.fq");
    assert_eq!(removed, b"output.removed.fq");
}

#[test]
fn test_build_output_paths_with_suffix() {
    let ft = FileType::Fastq;
    let (matched, removed) = ft.build_output_paths(b"output.fastq");
    assert_eq!(matched, b"output.fq");
    assert_eq!(removed, b"output.removed.fq");
}

#[test]
fn test_build_output_paths_bam() {
    let ft = FileType::Bam;
    let (matched, removed) = ft.build_output_paths(b"output");
    assert_eq!(matched, b"output.bam");
    assert_eq!(removed, b"output.removed.bam");
}

#[test]
fn test_run_validates_mismatches() {
    let result = plan_run(b"test.fastq", 4, None);
    assert!(result.is_err());
    assert!(result.unwrap_err().message().contains("Maximum allowed mismatches is 3"));
}

#[test]
fn test_run_invalid_file_type() {
    let result = plan_run(b"test.txt", 1, None);
    assert!(result.is_err());
    assert!(result.unwrap_err().message().contains("Unsupported file type"));
}

#[test]
fn test_plan_run_builds_paths_when_prefix_given() {
    let plan = plan_run(b"reads.fq.gz", 2, Some(b"out")).unwrap();
    assert_eq!(plan.file_type, FileType::FastqGz);
    assert_eq!(plan.matched_path.unwrap(), b"out.fq.gz");
    assert_eq!(plan.removed_path.unwrap(), b"out.removed.fq.gz");

    let plan = plan_run(b"reads.sam", 0, None).unwrap();
    assert_eq!(plan.file_type, FileType::Sam);
    assert!(plan.matched_path.is_none());
    assert!(plan.removed_path.is_none());
}

#[test]
fn test_plan_run_error_precedence() {
    // the mismatch bound is checked before the file type
    let result = plan_run(b"test.txt", 4, None);
    assert_eq!(result.unwrap_err(), RunError::TooManyMismatches);
}

#[test]
fn test_format_u64_digits() {
    assert_eq!(format_u64(0), b"0");
    assert_eq!(format_u64(7), b"7");
    assert_eq!(format_u64(10), b"10");
    assert_eq!(format_u64(17619), b"17619");
}

#[test]
fn test_format_percent_two_decimals() {
    assert_eq!(format_percent(0, 0), b"0.00");
    assert_eq!(format_percent(0, 5), b"0.00");
    assert_eq!(format_percent(5, 5), b"100.00");
    assert_eq!(format_percent(2, 3), b"66.67");
    assert_eq!(format_percent(1, 3), b"33.33");
    assert_eq!(format_percent(1, 8), b"12.50");
}

#[test]
fn test_format_percent_ties_to_even() {
    // 1/800 is exactly 0.125%: the tie goes down to the even hundredth
    assert_eq!(format_percent(1, 800), b"0.12");
    // 3/800 is exactly 0.375%: the tie goes up to the even hundredth
    assert_eq!(format_percent(3, 800), b"0.38");
}

#[test]
fn test_format_summary_line() {
    // kept count and percentage come before the removed pair
    let line = format_summary(b"example.fastq", 3, 2, 1);
    assert_eq!(
        String::from_utf8(line).unwrap(),
        "example.fastq\t3\t1\t33.33\t2\t66.67"
    );
}

#[test]
fn test_format_summary_empty_input() {
    let line = format_summary(b"empty.fq", 0, 0, 0);
    assert_eq!(String::from_utf8(line).unwrap(), "empty.fq\t0\t0\t0.00\t0\t0.00");
}
