//! Byte-string utilities: equality, suffix test, and first-occurrence
//! substring search, each proved against a spec-level definition.

use vstd::prelude::*;

verus! {

/// `needle` occurs in `hay` starting at index `i`.
pub open spec fn is_match_at(hay: Seq<u8>, needle: Seq<u8>, i: int) -> bool {
    &&& 0 <= i
    &&& i + needle.len() <= hay.len()
    &&& hay.subrange(i, i + needle.len() as int) == needle
}

/// `needle` occurs somewhere in `hay`.
pub open spec fn contains_sub(hay: Seq<u8>, needle: Seq<u8>) -> bool {
    exists|i: int| is_match_at(hay, needle, i)
}

/// `suffix` is a suffix of `s`.
pub open spec fn has_suffix(s: Seq<u8>, suffix: Seq<u8>) -> bool {
    &&& suffix.len() <= s.len()
    &&& s.subrange(s.len() - suffix.len(), s.len() as int) == suffix
}

/// Index of the first occurrence of `needle` in `hay`, or -1 if none.
pub open spec fn find_sub(hay: Seq<u8>, needle: Seq<u8>) -> int
    decreases hay.len(),
{
    if hay.len() < needle.len() {
        -1
    } else if needle.len() == 0 {
        0
    } else if hay.subrange(0, needle.len() as int) == needle {
        0
    } else {
        let r = find_sub(hay.drop_first(), needle);
        if r < 0 {
            -1
        } else {
            r + 1
        }
    }
}

/// A match inside the tail of `hay` is a shifted match in `hay`, and back.
proof fn lemma_match_shift(hay: Seq<u8>, needle: Seq<u8>, i: int)
    requires
        hay.len() >= 1,
        1 <= i,
    ensures
        is_match_at(hay, needle, i) <==> is_match_at(hay.drop_first(), needle, i - 1),
{
    if is_match_at(hay, needle, i) {
        assert(hay.drop_first().subrange(i - 1, i - 1 + needle.len()) =~= hay.subrange(
            i,
            i + needle.len(),
        ));
    }
    if is_match_at(hay.drop_first(), needle, i - 1) {
        assert(hay.subrange(i, i + needle.len()) =~= hay.drop_first().subrange(
            i - 1,
            i - 1 + needle.len(),
        ));
    }
}

/// `find_sub` returns the first occurrence: a nonnegative result is a match
/// preceded by no match, and -1 means there is no match at all.
pub proof fn lemma_find_sub(hay: Seq<u8>, needle: Seq<u8>)
    ensures
        find_sub(hay, needle) >= 0 ==> is_match_at(hay, needle, find_sub(hay, needle)),
        find_sub(hay, needle) >= 0 ==> forall|j: int|
            0 <= j < find_sub(hay, needle) ==> !is_match_at(hay, needle, j),
        find_sub(hay, needle) == -1 ==> forall|j: int| !is_match_at(hay, needle, j),
    decreases hay.len(),
{
    if hay.len() < needle.len() {
        assert forall|j: int| !is_match_at(hay, needle, j) by {}
    } else if needle.len() == 0 {
        assert(hay.subrange(0, 0) =~= needle);
        assert(is_match_at(hay, needle, 0));
    } else if hay.subrange(0, needle.len() as int) == needle {
        assert(is_match_at(hay, needle, 0));
    } else {
        lemma_find_sub(hay.drop_first(), needle);
        let r = find_sub(hay.drop_first(), needle);
        assert(!is_match_at(hay, needle, 0));
        if r >= 0 {
            lemma_match_shift(hay, needle, r + 1);
            assert forall|j: int| 0 <= j < r + 1 implies !is_match_at(hay, needle, j) by {
                if j >= 1 {
                    lemma_match_shift(hay, needle, j);
                }
            }
        } else {
            assert forall|j: int| !is_match_at(hay, needle, j) by {
                if j >= 1 {
                    lemma_match_shift(hay, needle, j);
                }
            }
        }
    }
}

/// The two byte strings hold the same bytes.
pub fn bytes_eq(a: &Vec<u8>, b: &Vec<u8>) -> (r: bool)
    ensures
        r <==> a@ == b@,
{
    if a.len() != b.len() {
        assert(a@ != b@);
        return false;
    }
    let n = a.len();
    let mut i: usize = 0;
    while i < n
        invariant
            n == a.len() == b.len(),
            0 <= i <= n,
            forall|j: int| 0 <= j < i ==> a@[j] == b@[j],
        decreases n - i,
    {
        if a[i] != b[i] {
            return false;
        }
        i += 1;
    }
    assert(a@ =~= b@);
    true
}

/// `s` ends with the bytes of `suffix`.
pub fn ends_with_bytes(s: &Vec<u8>, suffix: &Vec<u8>) -> (r: bool)
    ensures
        r <==> has_suffix(s@, suffix@),
{
    let m = suffix.len();
    let n = s.len();
    if m > n {
        return false;
    }
    let mut i: usize = 0;
    while i < m
        invariant
            m == suffix.len() <= n == s.len(),
            0 <= i <= m,
            forall|j: int| 0 <= j < i ==> s@[n - m + j] == suffix@[j],
        decreases m - i,
    {
        if s[n - m + i] != suffix[i] {
            assert(s@.subrange(n - m, n as int)[i as int] != suffix@[i as int]);
            return false;
        }
        i += 1;
    }
    assert(s@.subrange(n - m, n as int) =~= suffix@);
    true
}

/// First index at which `needle` occurs in `hay`, if it occurs at all.
pub fn find_first(hay: &Vec<u8>, needle: &Vec<u8>) -> (r: Option<usize>)
    ensures
        match r {
            Some(i) => i == find_sub(hay@, needle@) && is_match_at(hay@, needle@, i as int),
            None => find_sub(hay@, needle@) == -1 && !contains_sub(hay@, needle@),
        },
{
    proof {
        lemma_find_sub(hay@, needle@);
    }
    let m = needle.len();
    let n = hay.len();
    if m > n {
        return None;
    }
    if m == 0 {
        assert(hay@.subrange(0, 0) =~= needle@);
        return Some(0);
    }
    let mut i: usize = 0;
    while i <= n - m
        invariant
            1 <= m == needle.len() <= n == hay.len(),
            0 <= i <= n - m + 1,
            forall|j: int| 0 <= j < i ==> !is_match_at(hay@, needle@, j),
        decreases n - m + 1 - i,
    {
        let mut k: usize = 0;
        let mut hit = true;
        while k < m
            invariant
                m == needle.len() <= n == hay.len(),
                0 <= i <= n - m,
                0 <= k <= m,
                hit ==> forall|j: int| 0 <= j < k ==> hay@[i + j] == needle@[j],
                !hit ==> !is_match_at(hay@, needle@, i as int),
            decreases m - k,
        {
            if hay[i + k] != needle[k] {
                proof {
                    if is_match_at(hay@, needle@, i as int) {
                        assert(hay@.subrange(i as int, i + m)[k as int] == needle@[k as int]);
                    }
                }
                hit = false;
                k = m;
            } else {
                k += 1;
            }
        }
        if hit {
            assert(hay@.subrange(i as int, i + m) =~= needle@);
            assert(is_match_at(hay@, needle@, i as int));
            proof {
                lemma_find_sub(hay@, needle@);
            }
            return Some(i);
        }
        i += 1;
    }
    assert forall|j: int| !is_match_at(hay@, needle@, j) by {}
    None
}

/// `needle` occurs somewhere in `hay` as a contiguous run of bytes.
pub fn contains_bytes(hay: &Vec<u8>, needle: &Vec<u8>) -> (r: bool)
    ensures
        r <==> contains_sub(hay@, needle@),
{
    match find_first(hay, needle) {
        Some(_) => true,
        None => false,
    }
}

} // verus!
