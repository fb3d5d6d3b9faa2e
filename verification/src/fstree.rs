//! An in-memory image of a directory tree, and the traversal that collects
//! its regular files in order, skipping symbolic links.

use vstd::prelude::*;
use crate::bytes::has_suffix;

verus! {

/// Spec-level image of one regular file.
#[verifier::ext_equal]
pub struct FileModel {
    pub path: Seq<u8>,
    pub content: Seq<u8>,
    pub ctime: int,
}

/// One regular file: its path, its content bytes, and its creation time
/// in seconds since the epoch.
pub struct FsFile {
    pub path: Vec<u8>,
    pub content: Vec<u8>,
    pub ctime: i64,
}

impl View for FsFile {
    type V = FileModel;

    open spec fn view(&self) -> FileModel {
        FileModel { path: self.path@, content: self.content@, ctime: self.ctime as int }
    }
}

/// One entry of a directory tree: a regular file, a directory with its
/// entries in enumeration order, or a symbolic link.
pub enum FsEntry {
    File(FsFile),
    Dir(Vec<FsEntry>),
    Symlink,
}

/// The views of a sequence of files.
pub open spec fn models(s: Seq<FsFile>) -> Seq<FileModel> {
    Seq::new(s.len(), |i: int| s[i]@)
}

/// The regular files under an entry, in traversal order; symbolic links
/// are skipped, neither followed nor reported.
pub open spec fn files_of(e: FsEntry) -> Seq<FileModel>
    decreases e,
{
    match e {
        FsEntry::File(f) => seq![f@],
        FsEntry::Dir(children) => files_of_seq(children@),
        FsEntry::Symlink => Seq::empty(),
    }
}

/// The regular files under a run of sibling entries, in order.
pub open spec fn files_of_seq(cs: Seq<FsEntry>) -> Seq<FileModel>
    decreases cs,
{
    if cs.len() == 0 {
        Seq::empty()
    } else {
        files_of_seq(cs.drop_last()) + files_of(cs.last())
    }
}

/// A fresh copy of a byte string.
pub fn clone_bytes(v: &Vec<u8>) -> (r: Vec<u8>)
    ensures
        r@ == v@,
{
    let mut r: Vec<u8> = Vec::new();
    let mut i: usize = 0;
    while i < v.len()
        invariant
            0 <= i <= v.len(),
            r@ =~= v@.take(i as int),
        decreases v.len() - i,
    {
        r.push(v[i]);
        i += 1;
    }
    assert(r@ =~= v@);
    r
}

/// Append every regular file under `e` to `out`, in traversal order.
pub fn walk(e: &FsEntry, out: &mut Vec<FsFile>)
    ensures
        models(final(out)@) == models(old(out)@) + files_of(*e),
    decreases *e,
{
    match e {
        FsEntry::File(f) => {
            let file = FsFile {
                path: clone_bytes(&f.path),
                content: clone_bytes(&f.content),
                ctime: f.ctime,
            };
            assert(file@ == f@);
            out.push(file);
            assert(models(out@) =~= models(old(out)@) + files_of(*e));
        },
        FsEntry::Dir(children) => {
            let ghost pre = out@;
            let n = children.len();
            let mut i: usize = 0;
            while i < n
                invariant
                    *e is Dir,
                    *children == e->Dir_0,
                    n == children.len(),
                    0 <= i <= n,
                    models(out@) == models(pre) + files_of_seq(children@.take(i as int)),
            decreases n - i,
            {
                proof {
                    assert(*children == e->Dir_0);
                    assert(decreases_to!(*e => e->Dir_0));
                    assert(decreases_to!(e->Dir_0 => e->Dir_0@));
                    assert(decreases_to!(e->Dir_0@ => e->Dir_0@[i as int]));
                }
                walk(&children[i], out);
                proof {
                    let t1 = children@.take(i + 1);
                    assert(t1.drop_last() =~= children@.take(i as int));
                    assert(t1.last() == children@[i as int]);
                    assert(models(out@) =~= models(pre) + files_of_seq(t1));
                }
                i += 1;
            }
            assert(children@.take(n as int) =~= children@);
        },
        FsEntry::Symlink => {
            assert(models(out@) =~= models(old(out)@) + files_of(*e));
        },
    }
}

/// The files whose path ends with `ext`, in order.
pub open spec fn filter_suffix(fs: Seq<FileModel>, ext: Seq<u8>) -> Seq<FileModel>
    decreases fs,
{
    if fs.len() == 0 {
        Seq::empty()
    } else {
        let rest = filter_suffix(fs.drop_last(), ext);
        if has_suffix(fs.last().path, ext) {
            rest + seq![fs.last()]
        } else {
            rest
        }
    }
}

/// Keep only the files whose path ends with the bytes of `ext`.
pub fn filter_by_suffix(files: Vec<FsFile>, ext: &Vec<u8>) -> (r: Vec<FsFile>)
    ensures
        models(r@) == filter_suffix(models(files@), ext@),
{
    let mut r: Vec<FsFile> = Vec::new();
    let n = files.len();
    let ghost all = files@;
    let mut rest = files;
    let mut i: usize = 0;
    // consume from the front so each kept file is moved, not cloned
    while i < n
        invariant
            n == all.len(),
            0 <= i <= n,
            rest@ =~= all.skip(i as int),
            models(r@) == filter_suffix(models(all.take(i as int)), ext@),
        decreases n - i,
    {
        let f = rest.remove(0);
        assert(f == all[i as int]);
        let keep = crate::bytes::ends_with_bytes(&f.path, ext);
        proof {
            let t1 = models(all.take(i + 1));
            assert(t1.drop_last() =~= models(all.take(i as int)));
            assert(t1.last() == all[i as int]@);
        }
        if keep {
            r.push(f);
            assert(models(r@) =~= filter_suffix(models(all.take(i + 1)), ext@));
        } else {
            assert(models(r@) =~= filter_suffix(models(all.take(i + 1)), ext@));
        }
        proof {
            assert(rest@ =~= all.skip(i + 1));
        }
        i += 1;
    }
    assert(all.take(n as int) =~= all);
    r
}

} // verus!
