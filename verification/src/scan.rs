//! The scan operation: collect every regular file under a root, filter by an
//! optional extension suffix, digest each file's content, and render the
//! manifest — together with the laws that tie a scan to a later comparison.

use vstd::prelude::*;
use crate::bytes::contains_sub;
use crate::compare::{
    classify_spec, count_changed, filter_contains, load_spec, statuses_spec, Status,
};
use crate::digest::{digest_hex, hash_wf, lemma_hash_wf_no_newline, md5_hex_of};
use crate::fstree::{
    clone_bytes, files_of, filter_by_suffix, filter_suffix, models, walk, FileModel, FsEntry,
    FsFile,
};
use crate::manifest::{
    lemma_parse_render, parse_spec, path_wf, rec_models, rec_wf, render_manifest, render_spec,
    Record, RecordModel,
};

verus! {

/// Why a scan writes no manifest.
#[derive(Clone, Copy, Debug, PartialEq, Eq, Structural)]
pub enum ScanError {
    /// No file matched the criteria; no manifest is written.
    NoFilesFound,
}

/// The optional extension filter as a byte string.
pub open spec fn ext_view(o: Option<&Vec<u8>>) -> Option<Seq<u8>> {
    match o {
        Option::Some(x) => Some(x@),
        Option::None => None,
    }
}

/// The files a scan selects: every regular file under the root in traversal
/// order, kept only when its path ends with the extension filter, if any.
pub open spec fn scan_files(e: FsEntry, ext: Option<Seq<u8>>) -> Seq<FileModel> {
    match ext {
        Option::None => files_of(e),
        Option::Some(x) => filter_suffix(files_of(e), x),
    }
}

/// The manifest record for each file: its path, and its content's digest.
pub open spec fn records_of(fs: Seq<FileModel>) -> Seq<RecordModel> {
    Seq::new(fs.len(), |i: int| RecordModel { path: fs[i].path, hash: md5_hex_of(fs[i].content) })
}

/// What a scan writes: the selected files' records rendered as a manifest,
/// or an error when nothing was selected.
pub open spec fn scan_spec(e: FsEntry, ext: Option<Seq<u8>>) -> Result<Seq<u8>, ScanError> {
    let fs = scan_files(e, ext);
    if fs.len() == 0 {
        Err(ScanError::NoFilesFound)
    } else {
        Ok(render_spec(records_of(fs)))
    }
}

/// Digest every file's content into its manifest record, in order.
pub fn make_records(files: &Vec<FsFile>) -> (r: Vec<Record>)
    ensures
        rec_models(r@) == records_of(models(files@)),
        forall|i: int| 0 <= i < r@.len() ==> hash_wf(#[trigger] r@[i]@.hash),
{
    let ghost fms = models(files@);
    let mut r: Vec<Record> = Vec::new();
    let mut i: usize = 0;
    while i < files.len()
        invariant
            fms == models(files@),
            0 <= i <= files@.len(),
            r@.len() == i,
            forall|j: int| 0 <= j < i ==> #[trigger] r@[j]@ == records_of(fms)[j],
            forall|j: int| 0 <= j < r@.len() ==> hash_wf(#[trigger] r@[j]@.hash),
        decreases files@.len() - i,
    {
        let path = clone_bytes(&files[i].path);
        let hash = digest_hex(&files[i].content);
        proof {
            assert(fms[i as int] == files@[i as int]@);
        }
        let rec = Record { path, hash };
        proof {
            assert(rec@ == records_of(fms)[i as int]);
        }
        r.push(rec);
        i += 1;
    }
    assert(rec_models(r@) =~= records_of(fms));
    r
}

/// Scan a tree: collect its regular files in traversal order, keep those
/// matching the extension filter when one is given, digest each content, and
/// render the manifest. An empty selection is an error and writes nothing.
pub fn scan_manifest(root: &FsEntry, ext: Option<&Vec<u8>>) -> (r: Result<Vec<u8>, ScanError>)
    ensures
        match r {
            Result::Ok(m) => scan_spec(*root, ext_view(ext)) == Ok::<_, ScanError>(m@),
            Result::Err(e) => scan_spec(*root, ext_view(ext)) == Err::<Seq<u8>, _>(e),
        },
{
    let mut files: Vec<FsFile> = Vec::new();
    walk(root, &mut files);
    proof {
        assert(models(files@) =~= files_of(*root));
    }
    let selected = match ext {
        Option::Some(x) => filter_by_suffix(files, x),
        Option::None => files,
    };
    assert(models(selected@) == scan_files(*root, ext_view(ext)));
    if selected.len() == 0 {
        assert(scan_files(*root, ext_view(ext)).len() == 0);
        return Err(ScanError::NoFilesFound);
    }
    let records = make_records(&selected);
    let m = render_manifest(&records);
    Ok(m)
}

/// A filter that keeps every record keeps them unchanged.
proof fn lemma_filter_contains_all(rs: Seq<RecordModel>, root: Seq<u8>)
    requires
        forall|i: int| 0 <= i < rs.len() ==> contains_sub(#[trigger] rs[i].path, root),
    ensures
        filter_contains(rs, root) == rs,
    decreases rs.len(),
{
    if rs.len() > 0 {
        lemma_filter_contains_all(rs.drop_last(), root);
        assert(filter_contains(rs, root) =~= rs);
    } else {
        assert(filter_contains(rs, root) =~= rs);
    }
}

/// A run of unchanged statuses counts no change.
proof fn lemma_count_unchanged(sts: Seq<Status>)
    requires
        forall|i: int| 0 <= i < sts.len() ==> sts[i] is Unchanged,
    ensures
        count_changed(sts) == 0,
    decreases sts.len(),
{
    if sts.len() > 0 {
        lemma_count_unchanged(sts.drop_last());
    }
}

/// The records of a scan are well formed for the manifest format, given
/// well-formed paths: every digest is 32 hexadecimal digits.
proof fn lemma_scan_records_wf(fs: Seq<FileModel>)
    requires
        forall|i: int| 0 <= i < fs.len() ==> path_wf(#[trigger] fs[i].path),
        forall|i: int| 0 <= i < fs.len() ==> hash_wf(md5_hex_of(#[trigger] fs[i].content)),
    ensures
        forall|i: int| 0 <= i < records_of(fs).len() ==> rec_wf(#[trigger] records_of(fs)[i]),
{
    assert forall|i: int| 0 <= i < records_of(fs).len() implies rec_wf(
        #[trigger] records_of(fs)[i],
    ) by {
        lemma_hash_wf_no_newline(md5_hex_of(fs[i].content));
    }
}

/// Every regular file a filterless scan selects appears exactly once in the
/// written manifest, in traversal order, and the manifest's record count
/// equals the discovered file count: parsing the manifest back gives one
/// record per file, carrying that file's path.
pub proof fn lemma_manifest_covers_files(e: FsEntry)
    requires
        forall|i: int| 0 <= i < files_of(e).len() ==> path_wf(#[trigger] files_of(e)[i].path),
        forall|i: int|
            0 <= i < files_of(e).len() ==> hash_wf(md5_hex_of(#[trigger] files_of(e)[i].content)),
    ensures
        ({
            let fs = files_of(e);
            let rs = records_of(fs);
            &&& parse_spec(render_spec(rs)) == Some(rs)
            &&& rs.len() == fs.len()
            &&& forall|i: int| 0 <= i < rs.len() ==> #[trigger] rs[i].path == fs[i].path
        }),
{
    lemma_scan_records_wf(files_of(e));
    lemma_parse_render(records_of(files_of(e)));
}

/// Round trip: scanning a tree and then comparing the written manifest
/// against the same, unchanged contents loads every record and reports zero
/// modified or removed files.
pub proof fn lemma_scan_compare_round_trip(e: FsEntry, ext: Option<Seq<u8>>, root: Seq<u8>)
    requires
        scan_files(e, ext).len() > 0,
        forall|i: int| 0 <= i < scan_files(e, ext).len() ==> path_wf(#[trigger] scan_files(e, ext)[i].path),
        forall|i: int|
            0 <= i < scan_files(e, ext).len() ==> hash_wf(
                md5_hex_of(#[trigger] scan_files(e, ext)[i].content),
            ),
        forall|i: int|
            0 <= i < scan_files(e, ext).len() ==> contains_sub(
                #[trigger] scan_files(e, ext)[i].path,
                root,
            ),
    ensures
        ({
            let fs = scan_files(e, ext);
            let rs = records_of(fs);
            let current = Seq::new(fs.len(), |i: int| Some(fs[i].content));
            &&& scan_spec(e, ext) == Ok::<_, ScanError>(render_spec(rs))
            &&& load_spec(render_spec(rs), root) == Ok::<_, crate::compare::CompareError>(rs)
            &&& forall|i: int| 0 <= i < rs.len() ==> statuses_spec(rs, current)[i] is Unchanged
            &&& count_changed(statuses_spec(rs, current)) == 0
        }),
{
    let fs = scan_files(e, ext);
    let rs = records_of(fs);
    let current = Seq::new(fs.len(), |i: int| Some(fs[i].content));
    lemma_scan_records_wf(fs);
    lemma_parse_render(rs);
    assert forall|i: int| 0 <= i < rs.len() implies contains_sub(#[trigger] rs[i].path, root) by {
        assert(rs[i].path == fs[i].path);
    }
    lemma_filter_contains_all(rs, root);
    assert forall|i: int| 0 <= i < rs.len() implies statuses_spec(rs, current)[i] is Unchanged by {
        assert(classify_spec(rs[i], current[i]) is Unchanged);
    }
    lemma_count_unchanged(statuses_spec(rs, current));
}

/// Idempotence: a scan is a function of the tree and the filter alone, so
/// two scans of an unchanged tree write identical manifests.
pub proof fn lemma_scan_idempotent(e1: FsEntry, e2: FsEntry, ext: Option<Seq<u8>>)
    requires
        e1 == e2,
    ensures
        scan_spec(e1, ext) == scan_spec(e2, ext),
        records_of(scan_files(e1, ext)) == records_of(scan_files(e2, ext)),
{
}

} // verus!
