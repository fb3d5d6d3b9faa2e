//! The day-count argument parser and the file-age report.

use fsdiag::bytes::{contains_bytes, ends_with_bytes};
use fsdiag::days::{age_of, parse_days, recent_files};
use fsdiag::fstree::FsFile;

fn aged(path: &str, ctime: i64) -> FsFile {
    FsFile { path: path.as_bytes().to_vec(), content: Vec::new(), ctime }
}

#[test]
fn parse_days_accepts_plain_numbers() {
    assert_eq!(parse_days(&b"7".to_vec()), Some(7));
    assert_eq!(parse_days(&b"0".to_vec()), Some(0));
    assert_eq!(parse_days(&b"00".to_vec()), Some(0));
    assert_eq!(parse_days(&b"365".to_vec()), Some(365));
}

#[test]
fn parse_days_accepts_signs() {
    assert_eq!(parse_days(&b"-3".to_vec()), Some(-3));
    assert_eq!(parse_days(&b"+12".to_vec()), Some(12));
    assert_eq!(parse_days(&b"-0".to_vec()), Some(0));
}

#[test]
fn parse_days_rejects_bad_input() {
    assert_eq!(parse_days(&b"".to_vec()), None);
    assert_eq!(parse_days(&b"-".to_vec()), None);
    assert_eq!(parse_days(&b"abc".to_vec()), None);
    assert_eq!(parse_days(&b"1a".to_vec()), None);
    assert_eq!(parse_days(&b"1 ".to_vec()), None);
    assert_eq!(parse_days(&b"1.5".to_vec()), None);
}

#[test]
fn parse_days_respects_the_64_bit_range() {
    assert_eq!(parse_days(&b"9223372036854775807".to_vec()), Some(i64::MAX));
    assert_eq!(parse_days(&b"9223372036854775808".to_vec()), None);
    assert_eq!(parse_days(&b"-9223372036854775808".to_vec()), Some(i64::MIN));
    assert_eq!(parse_days(&b"-9223372036854775809".to_vec()), None);
    assert_eq!(parse_days(&b"99999999999999999999".to_vec()), None);
}

#[test]
fn age_is_whole_days_truncated() {
    assert_eq!(age_of(100, 100), 0);
    assert_eq!(age_of(86399, 0), 0);
    assert_eq!(age_of(86400, 0), 1);
    assert_eq!(age_of(5 * 86400 + 100, 100), 5);
    // a creation time in the future gives a negative age
    assert_eq!(age_of(0, 86401), -1);
}

#[test]
fn zero_days_reports_only_files_created_today() {
    let now: i64 = 1_000_000_000;
    let files = vec![
        aged("/r/today", now - 100),
        aged("/r/yesterday", now - 86400 - 100),
        aged("/r/old", now - 10 * 86400),
    ];
    let paths = recent_files(&files, now, 0);
    assert_eq!(paths, vec![b"/r/today".to_vec()]);
}

#[test]
fn larger_day_threshold_reports_older_files_too() {
    let now: i64 = 1_000_000_000;
    let files = vec![
        aged("/r/today", now - 100),
        aged("/r/yesterday", now - 86400 - 100),
        aged("/r/old", now - 10 * 86400),
    ];
    let paths = recent_files(&files, now, 1);
    assert_eq!(paths, vec![b"/r/today".to_vec(), b"/r/yesterday".to_vec()]);
}

#[test]
fn suffix_test_matches_exact_suffixes() {
    assert!(ends_with_bytes(&b"/r/a.txt".to_vec(), &b"txt".to_vec()));
    assert!(ends_with_bytes(&b"/r/mytxt".to_vec(), &b"txt".to_vec()));
    assert!(!ends_with_bytes(&b"/r/a.log".to_vec(), &b"txt".to_vec()));
    assert!(!ends_with_bytes(&b"xt".to_vec(), &b"txt".to_vec()));
}

#[test]
fn substring_test_finds_runs_anywhere() {
    assert!(contains_bytes(&b"/a/bc/file".to_vec(), &b"/a/b".to_vec()));
    assert!(contains_bytes(&b"abc".to_vec(), &b"".to_vec()));
    assert!(!contains_bytes(&b"abc".to_vec(), &b"cd".to_vec()));
}
