//! The manifest format: one record per line, `path[=]hash` terminated by a
//! newline. Rendering and parsing are verified against spec-level codecs,
//! and parsing a rendered manifest gives back exactly the records written.

use vstd::prelude::*;
use crate::bytes::{contains_sub, find_sub, is_match_at, lemma_find_sub};

verus! {

/// The reserved delimiter `[=]`, which must not occur in a recorded path.
pub open spec fn delim() -> Seq<u8> {
    seq![91u8, 61u8, 93u8]
}

/// The line terminator.
pub open spec fn nl() -> Seq<u8> {
    seq![10u8]
}

/// Spec-level image of one manifest record.
#[verifier::ext_equal]
pub struct RecordModel {
    pub path: Seq<u8>,
    pub hash: Seq<u8>,
}

/// One manifest record: a recorded path and its recorded digest.
#[derive(Debug, PartialEq, Eq)]
pub struct Record {
    pub path: Vec<u8>,
    pub hash: Vec<u8>,
}

impl View for Record {
    type V = RecordModel;

    open spec fn view(&self) -> RecordModel {
        RecordModel { path: self.path@, hash: self.hash@ }
    }
}

/// The views of a sequence of records.
pub open spec fn rec_models(s: Seq<Record>) -> Seq<RecordModel> {
    Seq::new(s.len(), |i: int| s[i]@)
}

/// A path that the manifest format can carry: it holds neither the reserved
/// delimiter nor a line terminator.
pub open spec fn path_wf(p: Seq<u8>) -> bool {
    &&& !contains_sub(p, delim())
    &&& !p.contains(10u8)
}

/// A record the format can carry faithfully: a well-formed path, and a hash
/// free of line terminators.
pub open spec fn rec_wf(r: RecordModel) -> bool {
    &&& path_wf(r.path)
    &&& !r.hash.contains(10u8)
}

/// The bytes of one manifest line, terminator included.
pub open spec fn line_of(r: RecordModel) -> Seq<u8> {
    r.path + delim() + r.hash + nl()
}

/// The bytes of a whole manifest: the records' lines in order.
pub open spec fn render_spec(rs: Seq<RecordModel>) -> Seq<u8>
    decreases rs,
{
    if rs.len() == 0 {
        Seq::empty()
    } else {
        render_spec(rs.drop_last()) + line_of(rs.last())
    }
}

/// Index just past the first line of `m`: the first line terminator, or the
/// end of `m` when none remains.
pub open spec fn line_end(m: Seq<u8>) -> int {
    let r = find_sub(m, nl());
    if 0 <= r <= m.len() {
        r
    } else {
        m.len() as int
    }
}

/// Split one line on the first occurrence of the delimiter; a line without
/// the delimiter is malformed.
pub open spec fn parse_line(line: Seq<u8>) -> Option<RecordModel> {
    let i = find_sub(line, delim());
    if i < 0 {
        None
    } else {
        Some(RecordModel { path: line.take(i), hash: line.skip(i + 3) })
    }
}

/// Parse a manifest line by line; any malformed line spoils the whole parse.
pub open spec fn parse_spec(m: Seq<u8>) -> Option<Seq<RecordModel>>
    decreases m.len(),
{
    if m.len() == 0 {
        Some(Seq::empty())
    } else {
        let le = line_end(m);
        let rest = if le == m.len() {
            Seq::<u8>::empty()
        } else {
            m.skip(le + 1)
        };
        match parse_line(m.take(le)) {
            Option::None => None,
            Option::Some(rec) => match parse_spec(rest) {
                Option::None => None,
                Option::Some(rs) => Some(seq![rec] + rs),
            },
        }
    }
}

/// Prefix the records of a successful parse.
pub open spec fn opt_prepend(pre: Seq<RecordModel>, o: Option<Seq<RecordModel>>) -> Option<
    Seq<RecordModel>,
> {
    match o {
        Option::None => None,
        Option::Some(s) => Some(pre + s),
    }
}

/// A one-byte needle matches exactly at the positions holding that byte.
proof fn lemma_byte_match(s: Seq<u8>, d: int)
    ensures
        is_match_at(s, nl(), d) <==> (0 <= d < s.len() && s[d] == 10),
{
    if is_match_at(s, nl(), d) {
        assert(s.subrange(d, d + 1)[0] == s[d]);
    }
    if 0 <= d < s.len() && s[d] == 10 {
        assert(s.subrange(d, d + 1) =~= nl());
    }
}

/// A match with nothing before it is the first match.
proof fn lemma_find_sub_is(hay: Seq<u8>, needle: Seq<u8>, i: int)
    requires
        is_match_at(hay, needle, i),
        forall|j: int| 0 <= j < i ==> !is_match_at(hay, needle, j),
    ensures
        find_sub(hay, needle) == i,
{
    lemma_find_sub(hay, needle);
}

/// Rendering distributes over concatenation of record sequences.
proof fn lemma_render_concat(a: Seq<RecordModel>, b: Seq<RecordModel>)
    ensures
        render_spec(a + b) == render_spec(a) + render_spec(b),
    decreases b.len(),
{
    if b.len() == 0 {
        assert(a + b =~= a);
        assert(render_spec(a) + render_spec(b) =~= render_spec(a));
    } else {
        lemma_render_concat(a, b.drop_last());
        assert((a + b).drop_last() =~= a + b.drop_last());
        assert((a + b).last() == b.last());
        assert(render_spec(a) + render_spec(b.drop_last()) + line_of(b.last()) =~= render_spec(a)
            + render_spec(b));
    }
}

/// A manifest starts with its first record's line.
proof fn lemma_render_head(rs: Seq<RecordModel>)
    requires
        rs.len() > 0,
    ensures
        render_spec(rs) == line_of(rs[0]) + render_spec(rs.drop_first()),
{
    lemma_render_concat(seq![rs[0]], rs.drop_first());
    assert(seq![rs[0]] + rs.drop_first() =~= rs);
    assert(seq![rs[0]].drop_last() =~= Seq::<RecordModel>::empty());
    assert(render_spec(Seq::<RecordModel>::empty()) == Seq::<u8>::empty());
    assert(Seq::<u8>::empty() + line_of(rs[0]) =~= line_of(rs[0]));
    assert(render_spec(seq![rs[0]]) =~= line_of(rs[0]));
}

/// Parsing inverts rendering: a manifest rendered from records whose paths
/// hold neither the delimiter nor a line terminator, and whose hashes hold
/// no line terminator, parses back to exactly those records.
pub proof fn lemma_parse_render(rs: Seq<RecordModel>)
    requires
        forall|i: int| 0 <= i < rs.len() ==> rec_wf(#[trigger] rs[i]),
    ensures
        parse_spec(render_spec(rs)) == Some(rs),
    decreases rs.len(),
{
    if rs.len() == 0 {
        assert(rs =~= Seq::<RecordModel>::empty());
    } else {
        let r0 = rs[0];
        let tail = rs.drop_first();
        lemma_render_head(rs);
        let m = render_spec(rs);
        let lin = line_of(r0);
        let rest = render_spec(tail);
        let p = r0.path.len() as int;
        let h = r0.hash.len() as int;
        let il = p + 3 + h;
        assert(lin.len() == il + 1);
        assert(m == lin + rest);
        // the first line terminator of `m` stands at `il`
        assert(m[il] == 10);
        assert forall|k: int| 0 <= k < il implies m[k] != 10 by {
            assert(m[k] == lin[k]);
            if k < p {
                assert(lin[k] == r0.path[k]);
            } else if k < p + 3 {
                assert(lin[k] == delim()[k - p]);
            } else {
                assert(lin[k] == r0.hash[k - p - 3]);
            }
        }
        lemma_byte_match(m, il);
        assert forall|j: int| 0 <= j < il implies !is_match_at(m, nl(), j) by {
            lemma_byte_match(m, j);
        }
        lemma_find_sub_is(m, nl(), il);
        assert(line_end(m) == il);
        let line = m.take(il);
        assert(line =~= r0.path + delim() + r0.hash);
        assert(m.skip(il + 1) =~= rest);
        // the first delimiter of the line stands right after the path
        assert(line.subrange(p, p + 3) =~= delim());
        assert(is_match_at(line, delim(), p));
        assert forall|j: int| 0 <= j < p implies !is_match_at(line, delim(), j) by {
            if is_match_at(line, delim(), j) {
                assert(line.subrange(j, j + 3)[0] == line[j]);
                assert(line.subrange(j, j + 3)[1] == line[j + 1]);
                assert(line.subrange(j, j + 3)[2] == line[j + 2]);
                if j + 3 <= p {
                    assert(r0.path.subrange(j, j + 3) =~= line.subrange(j, j + 3));
                    assert(is_match_at(r0.path, delim(), j));
                    assert(contains_sub(r0.path, delim()));
                } else if j == p - 2 {
                    assert(line[p] == delim()[0]);
                    assert(line[j + 2] == 93);
                } else {
                    assert(j == p - 1);
                    assert(line[p] == delim()[0]);
                    assert(line[j + 1] == 61);
                }
            }
        }
        lemma_find_sub_is(line, delim(), p);
        let rec = RecordModel { path: line.take(p), hash: line.skip(p + 3) };
        assert(parse_line(line) == Some(rec));
        assert(rec.path =~= r0.path);
        assert(rec.hash =~= r0.hash);
        assert(rec =~= r0);
        assert forall|i: int| 0 <= i < tail.len() implies rec_wf(#[trigger] tail[i]) by {
            assert(tail[i] == rs[i + 1]);
        }
        lemma_parse_render(tail);
        assert(seq![r0] + tail =~= rs);
    }
}

/// Copy the bytes of `v` between `a` and `b`.
fn copy_range(v: &Vec<u8>, a: usize, b: usize) -> (r: Vec<u8>)
    requires
        a <= b <= v.len(),
    ensures
        r@ == v@.subrange(a as int, b as int),
{
    let mut r: Vec<u8> = Vec::new();
    let mut i: usize = a;
    while i < b
        invariant
            a <= i <= b <= v.len(),
            r@ =~= v@.subrange(a as int, i as int),
        decreases b - i,
    {
        r.push(v[i]);
        assert(r@ =~= v@.subrange(a as int, i + 1));
        i += 1;
    }
    assert(r@ =~= v@.subrange(a as int, b as int));
    r
}

/// Append the bytes of `s` to `out`.
fn append_bytes(out: &mut Vec<u8>, s: &Vec<u8>)
    ensures
        final(out)@ == old(out)@ + s@,
{
    let mut i: usize = 0;
    while i < s.len()
        invariant
            0 <= i <= s.len(),
            out@ =~= old(out)@ + s@.take(i as int),
        decreases s.len() - i,
    {
        out.push(s[i]);
        assert(out@ =~= old(out)@ + s@.take(i + 1));
        i += 1;
    }
    assert(out@ =~= old(out)@ + s@);
}

/// Render the records as manifest bytes, one line per record, in order.
pub fn render_manifest(records: &Vec<Record>) -> (r: Vec<u8>)
    ensures
        r@ == render_spec(rec_models(records@)),
{
    let ghost rms = rec_models(records@);
    let mut out: Vec<u8> = Vec::new();
    let mut i: usize = 0;
    while i < records.len()
        invariant
            rms == rec_models(records@),
            0 <= i <= records.len(),
            out@ == render_spec(rms.take(i as int)),
        decreases records.len() - i,
    {
        append_bytes(&mut out, &records[i].path);
        out.push(91);
        out.push(61);
        out.push(93);
        append_bytes(&mut out, &records[i].hash);
        out.push(10);
        proof {
            let t1 = rms.take(i + 1);
            assert(t1.drop_last() =~= rms.take(i as int));
            assert(t1.last() == records@[i as int]@);
            assert(out@ =~= render_spec(rms.take(i as int)) + line_of(records@[i as int]@));
        }
        i += 1;
    }
    assert(rms.take(records@.len() as int) =~= rms);
    out
}

/// Split one line on the first occurrence of the reserved delimiter.
pub fn split_line(line: &Vec<u8>) -> (r: Option<Record>)
    ensures
        match r {
            Option::Some(rec) => parse_line(line@) == Some(rec@),
            Option::None => parse_line(line@) is None,
        },
{
    let mut d: Vec<u8> = Vec::new();
    d.push(91);
    d.push(61);
    d.push(93);
    assert(d@ =~= delim());
    match crate::bytes::find_first(line, &d) {
        Option::Some(i) => {
            let n = line.len();
            proof {
                assert(delim().len() == 3);
                assert(i + 3 <= n);
            }
            let path = copy_range(line, 0, i);
            let hash = copy_range(line, i + 3, n);
            let rec = Record { path, hash };
            proof {
                let fi = find_sub(line@, delim());
                assert(rec@.path =~= line@.take(fi));
                assert(rec@.hash =~= line@.skip(fi + 3));
            }
            Some(rec)
        },
        Option::None => None,
    }
}

/// Parse manifest bytes into records; `None` on the first malformed line.
pub fn parse_manifest(m: &Vec<u8>) -> (r: Option<Vec<Record>>)
    ensures
        match r {
            Option::Some(rs) => parse_spec(m@) == Some(rec_models(rs@)),
            Option::None => parse_spec(m@) is None,
        },
{
    let mut recs: Vec<Record> = Vec::new();
    let mut pos: usize = 0;
    proof {
        assert(m@.skip(0) =~= m@);
        assert(rec_models(recs@) =~= Seq::<RecordModel>::empty());
    }
    while pos < m.len()
        invariant
            0 <= pos <= m.len(),
            parse_spec(m@) == opt_prepend(rec_models(recs@), parse_spec(m@.skip(pos as int))),
        decreases m.len() - pos,
    {
        let mut j: usize = pos;
        while j < m.len() && *m.get(j).unwrap() != 10
            invariant
                pos <= j <= m.len(),
                forall|k: int| pos <= k < j ==> m@[k] != 10,
            decreases m.len() - j,
        {
            j += 1;
        }
        let ghost s = m@.skip(pos as int);
        proof {
            lemma_find_sub(s, nl());
            let le = line_end(s);
            if j < m.len() {
                lemma_byte_match(s, j - pos);
                assert(is_match_at(s, nl(), j - pos));
                assert forall|q: int| 0 <= q < j - pos implies !is_match_at(s, nl(), q) by {
                    lemma_byte_match(s, q);
                }
                assert(find_sub(s, nl()) == j - pos);
            } else {
                assert forall|q: int| !is_match_at(s, nl(), q) by {
                    lemma_byte_match(s, q);
                }
                assert(find_sub(s, nl()) == -1);
            }
            assert(le == j - pos);
        }
        let line = copy_range(m, pos, j);
        proof {
            assert(line@ =~= s.take(j - pos));
        }
        match split_line(&line) {
            Option::None => {
                proof {
                    assert(parse_spec(s) is None);
                }
                return None;
            },
            Option::Some(rec) => {
                let ghost rms_old = rec_models(recs@);
                let ghost rv = rec@;
                recs.push(rec);
                proof {
                    assert(rec_models(recs@) =~= rms_old.push(rv));
                }
                let next = if j < m.len() {
                    j + 1
                } else {
                    j
                };
                proof {
                    let rest = if j < m.len() {
                        s.skip((j - pos) + 1)
                    } else {
                        Seq::<u8>::empty()
                    };
                    if j < m.len() {
                        assert(rest =~= m@.skip(next as int));
                    } else {
                        assert(m@.skip(next as int) =~= rest);
                    }
                    assert(parse_spec(s) == opt_prepend(seq![rv], parse_spec(rest)));
                    match parse_spec(m@.skip(next as int)) {
                        Option::None => {
                            assert(parse_spec(m@) is None);
                        },
                        Option::Some(tail) => {
                            assert(rms_old + (seq![rv] + tail) =~= rms_old.push(rv) + tail);
                        },
                    }
                }
                pos = next;
            },
        }
    }
    proof {
        assert(m@.skip(pos as int) =~= Seq::<u8>::empty());
        assert(parse_spec(m@.skip(pos as int)) == Some(Seq::<RecordModel>::empty()));
        assert(rec_models(recs@) + Seq::<RecordModel>::empty() =~= rec_models(recs@));
    }
    Some(recs)
}

} // verus!
