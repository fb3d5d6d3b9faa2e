//! End-to-end behaviour of the scan, manifest, and compare pipeline.

use fsdiag::compare::{judge, load_records, summary, CompareError, Status, Summary};
use fsdiag::digest::digest_hex;
use fsdiag::fstree::{filter_by_suffix, walk, FsEntry, FsFile};
use fsdiag::manifest::{parse_manifest, render_manifest, Record};
use fsdiag::scan::{scan_manifest, ScanError};

fn file(path: &str, content: &[u8]) -> FsEntry {
    FsEntry::File(FsFile { path: path.as_bytes().to_vec(), content: content.to_vec(), ctime: 0 })
}

#[test]
fn digest_is_deterministic() {
    let a = b"some file content".to_vec();
    let b = b"some file content".to_vec();
    assert_eq!(digest_hex(&a), digest_hex(&b));
}

#[test]
fn digest_of_empty_is_known_value() {
    let empty: Vec<u8> = Vec::new();
    assert_eq!(digest_hex(&empty), b"d41d8cd98f00b204e9800998ecf8427e".to_vec());
}

#[test]
fn digest_changes_when_one_byte_changes() {
    let a = b"some file content".to_vec();
    let b = b"some file contenu".to_vec();
    assert_ne!(digest_hex(&a), digest_hex(&b));
}

#[test]
fn empty_directory_scan_is_an_error() {
    let root = FsEntry::Dir(vec![]);
    assert_eq!(scan_manifest(&root, None), Err(ScanError::NoFilesFound));
}

#[test]
fn walk_lists_each_file_once_and_skips_symlinks() {
    let root = FsEntry::Dir(vec![
        file("/r/a.txt", b"aa"),
        FsEntry::Symlink,
        FsEntry::Dir(vec![file("/r/sub/b.log", b"bb")]),
        file("/r/c.txt", b"cc"),
    ]);
    let mut files: Vec<FsFile> = Vec::new();
    walk(&root, &mut files);
    let paths: Vec<Vec<u8>> = files.iter().map(|f| f.path.clone()).collect();
    assert_eq!(
        paths,
        vec![b"/r/a.txt".to_vec(), b"/r/sub/b.log".to_vec(), b"/r/c.txt".to_vec()]
    );
}

#[test]
fn manifest_line_count_equals_file_count() {
    let root = FsEntry::Dir(vec![
        file("/r/a.txt", b"aa"),
        FsEntry::Symlink,
        FsEntry::Dir(vec![file("/r/sub/b.log", b"bb")]),
        file("/r/c.txt", b"cc"),
    ]);
    let m = scan_manifest(&root, None).unwrap();
    let records = parse_manifest(&m).unwrap();
    assert_eq!(records.len(), 3);
    assert_eq!(records[0].path, b"/r/a.txt".to_vec());
    assert_eq!(records[1].path, b"/r/sub/b.log".to_vec());
    assert_eq!(records[2].path, b"/r/c.txt".to_vec());
}

#[test]
fn extension_filter_keeps_only_matching_files() {
    let root = FsEntry::Dir(vec![file("/r/a.txt", b"aa"), file("/r/b.log", b"bb")]);
    let mut files: Vec<FsFile> = Vec::new();
    walk(&root, &mut files);
    let ext = b"txt".to_vec();
    let kept = filter_by_suffix(files, &ext);
    assert_eq!(kept.len(), 1);
    assert_eq!(kept[0].path, b"/r/a.txt".to_vec());
}

#[test]
fn suffix_filter_is_a_plain_suffix_match() {
    // a filter of `txt` also matches a file literally named `mytxt`
    let root = FsEntry::Dir(vec![file("/r/mytxt", b"aa"), file("/r/b.log", b"bb")]);
    let mut files: Vec<FsFile> = Vec::new();
    walk(&root, &mut files);
    let ext = b"txt".to_vec();
    let kept = filter_by_suffix(files, &ext);
    assert_eq!(kept.len(), 1);
    assert_eq!(kept[0].path, b"/r/mytxt".to_vec());
}

#[test]
fn scan_then_compare_reports_nothing_changed() {
    let root = FsEntry::Dir(vec![
        file("/r/a.txt", b"alpha"),
        FsEntry::Dir(vec![file("/r/sub/b.log", b"beta")]),
    ]);
    let m = scan_manifest(&root, None).unwrap();
    let prefix = b"/r".to_vec();
    let records = load_records(&m, &prefix).unwrap();
    assert_eq!(records.len(), 2);
    let contents: Vec<Option<Vec<u8>>> = vec![Some(b"alpha".to_vec()), Some(b"beta".to_vec())];
    let (statuses, changed) = judge(&records, &contents);
    assert_eq!(statuses, vec![Status::Unchanged, Status::Unchanged]);
    assert_eq!(changed, 0);
    assert_eq!(summary(changed), Summary::NoneModified);
}

#[test]
fn scanning_twice_writes_identical_manifests() {
    let root = FsEntry::Dir(vec![file("/r/a.txt", b"alpha"), file("/r/b.txt", b"beta")]);
    let first = scan_manifest(&root, None).unwrap();
    let second = scan_manifest(&root, None).unwrap();
    assert_eq!(first, second);
}

#[test]
fn removed_file_is_counted_and_summary_is_the_nonzero_branch() {
    let m = b"/root/a.txt[=]d41d8cd98f00b204e9800998ecf8427e\n".to_vec();
    let prefix = b"/root".to_vec();
    let records = load_records(&m, &prefix).unwrap();
    assert_eq!(records.len(), 1);
    assert_eq!(records[0].path, b"/root/a.txt".to_vec());
    let contents: Vec<Option<Vec<u8>>> = vec![None];
    let (statuses, changed) = judge(&records, &contents);
    assert_eq!(statuses, vec![Status::Removed]);
    assert_eq!(changed, 1);
    assert_ne!(summary(changed), Summary::NoneModified);
    assert_eq!(summary(changed), Summary::OthersUnchanged);
}

#[test]
fn modified_file_is_reported() {
    let m = b"/root/a.txt[=]d41d8cd98f00b204e9800998ecf8427e\n".to_vec();
    let prefix = b"/root".to_vec();
    let records = load_records(&m, &prefix).unwrap();
    let contents: Vec<Option<Vec<u8>>> = vec![Some(b"now nonempty".to_vec())];
    let (statuses, changed) = judge(&records, &contents);
    assert_eq!(statuses, vec![Status::Modified]);
    assert_eq!(changed, 1);
}

#[test]
fn malformed_manifest_line_is_an_error() {
    let m = b"no delimiter here\n".to_vec();
    let prefix = b"".to_vec();
    assert_eq!(load_records(&m, &prefix), Err(CompareError::MalformedLine));
}

#[test]
fn root_filter_matching_nothing_is_an_error() {
    let m = b"/a/b.txt[=]d41d8cd98f00b204e9800998ecf8427e\n".to_vec();
    let prefix = b"/zzz".to_vec();
    assert_eq!(load_records(&m, &prefix), Err(CompareError::NoFilesFound));
}

#[test]
fn root_filter_is_a_substring_match_not_a_prefix_match() {
    // a root of `/a/b` also matches a sibling path like `/a/bc/file`
    let m = b"/a/bc/file[=]d41d8cd98f00b204e9800998ecf8427e\n".to_vec();
    let prefix = b"/a/b".to_vec();
    let records = load_records(&m, &prefix).unwrap();
    assert_eq!(records.len(), 1);
}

#[test]
fn render_then_parse_gives_back_the_records() {
    let records = vec![
        Record { path: b"/r/a.txt".to_vec(), hash: b"0123456789abcdef0123456789abcdef".to_vec() },
        Record { path: b"/r/b.txt".to_vec(), hash: b"fedcba9876543210fedcba9876543210".to_vec() },
    ];
    let m = render_manifest(&records);
    let back = parse_manifest(&m).unwrap();
    assert_eq!(back.len(), 2);
    assert_eq!(back[0].path, records[0].path);
    assert_eq!(back[0].hash, records[0].hash);
    assert_eq!(back[1].path, records[1].path);
    assert_eq!(back[1].hash, records[1].hash);
}

#[test]
fn manifest_renders_one_line_per_record() {
    let records = vec![Record {
        path: b"/r/a.txt".to_vec(),
        hash: b"d41d8cd98f00b204e9800998ecf8427e".to_vec(),
    }];
    let m = render_manifest(&records);
    assert_eq!(m, b"/r/a.txt[=]d41d8cd98f00b204e9800998ecf8427e\n".to_vec());
}
