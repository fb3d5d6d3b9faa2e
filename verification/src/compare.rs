//! Validating recorded files against current content: filter the manifest's
//! records by the root path, recompute each surviving file's digest, and
//! classify every record as unchanged, modified, or removed.

use vstd::prelude::*;
use crate::bytes::contains_sub;
use crate::digest::md5_hex_of;
use crate::manifest::{parse_spec, rec_models, Record, RecordModel};

verus! {

/// Why a comparison run stops before any file is checked.
#[derive(Clone, Copy, Debug, PartialEq, Eq, Structural)]
pub enum CompareError {
    /// A manifest line held no `[=]` delimiter.
    MalformedLine,
    /// No recorded path held the given root path as a substring.
    NoFilesFound,
}

/// The outcome for one record.
#[derive(Clone, Copy, Debug, PartialEq, Eq, Structural)]
pub enum Status {
    /// The file opened and its digest matches the recorded one.
    Unchanged,
    /// The file opened but its digest differs from the recorded one.
    Modified,
    /// The file could not be opened at its recorded path.
    Removed,
}

/// The closing line of a comparison run.
#[derive(Clone, Copy, Debug, PartialEq, Eq, Structural)]
pub enum Summary {
    /// No record was modified or removed: "no files were modified".
    NoneModified,
    /// At least one record was modified or removed; the closing line still
    /// reads "all other files were not changed".
    OthersUnchanged,
}

/// The records whose recorded path holds `root` as a substring, in order.
pub open spec fn filter_contains(rs: Seq<RecordModel>, root: Seq<u8>) -> Seq<RecordModel>
    decreases rs,
{
    if rs.len() == 0 {
        Seq::empty()
    } else {
        let rest = filter_contains(rs.drop_last(), root);
        if contains_sub(rs.last().path, root) {
            rest + seq![rs.last()]
        } else {
            rest
        }
    }
}

/// What loading a manifest against a root path yields: its records filtered
/// to those whose path holds the root, a malformed-line error, or an error
/// when nothing survives the filter.
pub open spec fn load_spec(m: Seq<u8>, root: Seq<u8>) -> Result<Seq<RecordModel>, CompareError> {
    match parse_spec(m) {
        Option::None => Err(CompareError::MalformedLine),
        Option::Some(rs) => {
            let kept = filter_contains(rs, root);
            if kept.len() == 0 {
                Err(CompareError::NoFilesFound)
            } else {
                Ok(kept)
            }
        },
    }
}

/// Keep only the records whose recorded path holds the bytes of `root`.
pub fn filter_records(rs: Vec<Record>, root: &Vec<u8>) -> (r: Vec<Record>)
    ensures
        rec_models(r@) == filter_contains(rec_models(rs@), root@),
{
    let mut r: Vec<Record> = Vec::new();
    let n = rs.len();
    let ghost all = rs@;
    let mut rest = rs;
    let mut i: usize = 0;
    while i < n
        invariant
            n == all.len(),
            0 <= i <= n,
            rest@ =~= all.skip(i as int),
            rec_models(r@) == filter_contains(rec_models(all.take(i as int)), root@),
        decreases n - i,
    {
        let rec = rest.remove(0);
        assert(rec == all[i as int]);
        let keep = crate::bytes::contains_bytes(&rec.path, root);
        proof {
            let t1 = rec_models(all.take(i + 1));
            assert(t1.drop_last() =~= rec_models(all.take(i as int)));
            assert(t1.last() == all[i as int]@);
        }
        if keep {
            r.push(rec);
            assert(rec_models(r@) =~= filter_contains(rec_models(all.take(i + 1)), root@));
        } else {
            assert(rec_models(r@) =~= filter_contains(rec_models(all.take(i + 1)), root@));
        }
        proof {
            assert(rest@ =~= all.skip(i + 1));
        }
        i += 1;
    }
    assert(all.take(n as int) =~= all);
    r
}

/// Load a manifest's records and keep those whose path holds `root`; a line
/// without the delimiter, or an empty result, is an error.
pub fn load_records(m: &Vec<u8>, root: &Vec<u8>) -> (r: Result<Vec<Record>, CompareError>)
    ensures
        match r {
            Result::Ok(recs) => load_spec(m@, root@) == Ok::<_, CompareError>(rec_models(recs@))
                && recs@.len() > 0,
            Result::Err(e) => load_spec(m@, root@) == Err::<Seq<RecordModel>, _>(e),
        },
{
    match crate::manifest::parse_manifest(m) {
        Option::None => Err(CompareError::MalformedLine),
        Option::Some(recs) => {
            let kept = filter_records(recs, root);
            if kept.len() == 0 {
                Err(CompareError::NoFilesFound)
            } else {
                Ok(kept)
            }
        },
    }
}

/// The current content of a recorded path, if the file opened at all.
pub open spec fn content_view(o: Option<&Vec<u8>>) -> Option<Seq<u8>> {
    match o {
        Option::Some(c) => Some(c@),
        Option::None => None,
    }
}

/// The views of a sequence of optional contents.
pub open spec fn content_models(s: Seq<Option<Vec<u8>>>) -> Seq<Option<Seq<u8>>> {
    Seq::new(
        s.len(),
        |i: int|
            match s[i] {
                Option::Some(c) => Some(c@),
                Option::None => None,
            },
    )
}

/// How one record compares against the content now at its path: absent means
/// removed or renamed; a digest mismatch means modified.
pub open spec fn classify_spec(rec: RecordModel, cur: Option<Seq<u8>>) -> Status {
    match cur {
        Option::None => Status::Removed,
        Option::Some(c) => if md5_hex_of(c) == rec.hash {
            Status::Unchanged
        } else {
            Status::Modified
        },
    }
}

/// Compare one record against the content found at its path now.
pub fn classify(rec: &Record, current: Option<&Vec<u8>>) -> (r: Status)
    ensures
        r == classify_spec(rec@, content_view(current)),
{
    match current {
        Option::None => Status::Removed,
        Option::Some(c) => {
            let d = crate::digest::digest_hex(c);
            if crate::bytes::bytes_eq(&d, &rec.hash) {
                Status::Unchanged
            } else {
                Status::Modified
            }
        },
    }
}

/// The classification of every record against its current content.
pub open spec fn statuses_spec(rs: Seq<RecordModel>, cs: Seq<Option<Seq<u8>>>) -> Seq<Status> {
    Seq::new(rs.len(), |i: int| classify_spec(rs[i], cs[i]))
}

/// How many statuses report a change (modified or removed).
pub open spec fn count_changed(sts: Seq<Status>) -> int
    decreases sts,
{
    if sts.len() == 0 {
        0
    } else {
        count_changed(sts.drop_last()) + if sts.last() is Unchanged {
            0int
        } else {
            1int
        }
    }
}

/// Classify every record against the content now at its path, in order, and
/// count the records that changed.
pub fn judge(records: &Vec<Record>, contents: &Vec<Option<Vec<u8>>>) -> (r: (Vec<Status>, usize))
    requires
        contents@.len() == records@.len(),
    ensures
        r.0@ == statuses_spec(rec_models(records@), content_models(contents@)),
        r.1 == count_changed(r.0@),
{
    let ghost rms = rec_models(records@);
    let ghost cms = content_models(contents@);
    let mut sts: Vec<Status> = Vec::new();
    let mut changed: usize = 0;
    let n = records.len();
    let mut i: usize = 0;
    while i < n
        invariant
            n == records@.len() == contents@.len(),
            rms == rec_models(records@),
            cms == content_models(contents@),
            0 <= i <= n,
            sts@ =~= statuses_spec(rms, cms).take(i as int),
            changed == count_changed(sts@),
            changed <= i,
        decreases n - i,
    {
        let ghost pre = sts@;
        let st = classify(&records[i], contents[i].as_ref());
        sts.push(st);
        proof {
            assert(sts@.drop_last() =~= pre);
            assert(sts@ =~= statuses_spec(rms, cms).take(i + 1));
        }
        if !matches!(st, Status::Unchanged) {
            changed = changed + 1;
        }
        i += 1;
    }
    assert(statuses_spec(rms, cms).take(n as int) =~= statuses_spec(rms, cms));
    (sts, changed)
}

/// The closing line of a comparison run, chosen from the changed count
/// alone; even when files were reported changed above, the nonzero branch
/// speaks only of the others.
pub fn summary(changed: usize) -> (r: Summary)
    ensures
        r == (if changed == 0 {
            Summary::NoneModified
        } else {
            Summary::OthersUnchanged
        }),
{
    if changed == 0 {
        Summary::NoneModified
    } else {
        Summary::OthersUnchanged
    }
}

} // verus!
