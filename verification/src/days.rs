//! The report-new operation: the age of a file in whole days, the files
//! created within a given number of days, and the parser for the day-count
//! argument, all verified.

use vstd::prelude::*;
use crate::fstree::{clone_bytes, models, FileModel, FsFile};

verus! {

/// Seconds in one day.
pub open spec fn day_seconds() -> int {
    86400
}

/// Whole days elapsed from `ctime` to `now`, truncated toward zero as the
/// machine's signed division truncates.
pub open spec fn age_days(now: int, ctime: int) -> int {
    let diff = now - ctime;
    if diff >= 0 {
        diff / day_seconds()
    } else {
        -((-diff) / day_seconds())
    }
}

/// The paths of the files created within `days` days of `now`: those whose
/// age in whole days is at most `days`, in traversal order.
pub open spec fn recent_spec(fs: Seq<FileModel>, now: int, days: int) -> Seq<Seq<u8>>
    decreases fs,
{
    if fs.len() == 0 {
        Seq::empty()
    } else {
        let rest = recent_spec(fs.drop_last(), now, days);
        if days >= age_days(now, fs.last().ctime) {
            rest + seq![fs.last().path]
        } else {
            rest
        }
    }
}

/// The views of a sequence of paths.
pub open spec fn path_views(s: Seq<Vec<u8>>) -> Seq<Seq<u8>> {
    Seq::new(s.len(), |i: int| s[i]@)
}

/// Age of one file in whole days, truncated toward zero.
pub fn age_of(now: i64, ctime: i64) -> (r: i64)
    requires
        i64::MIN <= now - ctime <= i64::MAX,
    ensures
        r == age_days(now as int, ctime as int),
{
    let diff: i64 = now - ctime;
    if diff >= 0 {
        let q: u64 = (diff as u64) / 86400;
        proof {
            assert(q <= diff as u64) by (nonlinear_arith)
                requires
                    q == (diff as u64) / 86400,
            ;
        }
        q as i64
    } else {
        // magnitude of diff, computed without overflowing at the minimum
        let mag: u64 = ((-(diff + 1)) as u64) + 1;
        assert(mag == -(diff as int));
        let q: u64 = mag / 86400;
        proof {
            assert(q <= mag / 2) by (nonlinear_arith)
                requires
                    q == mag / 86400,
            ;
        }
        -(q as i64)
    }
}

/// Report the files created within `days` days of `now`: every file whose
/// age in whole days is at most `days`, in traversal order.
pub fn recent_files(files: &Vec<FsFile>, now: i64, days: i64) -> (r: Vec<Vec<u8>>)
    requires
        forall|i: int|
            0 <= i < files@.len() ==> i64::MIN <= now - (#[trigger] files@[i]).ctime <= i64::MAX,
    ensures
        path_views(r@) == recent_spec(models(files@), now as int, days as int),
{
    let ghost fms = models(files@);
    let mut r: Vec<Vec<u8>> = Vec::new();
    let mut i: usize = 0;
    while i < files.len()
        invariant
            fms == models(files@),
            0 <= i <= files@.len(),
            forall|j: int|
                0 <= j < files@.len() ==> i64::MIN <= now - (#[trigger] files@[j]).ctime
                    <= i64::MAX,
            path_views(r@) == recent_spec(fms.take(i as int), now as int, days as int),
        decreases files@.len() - i,
    {
        let age = age_of(now, files[i].ctime);
        proof {
            let t1 = fms.take(i + 1);
            assert(t1.drop_last() =~= fms.take(i as int));
            assert(t1.last() == files@[i as int]@);
        }
        if days >= age {
            let p = clone_bytes(&files[i].path);
            r.push(p);
            assert(path_views(r@) =~= recent_spec(fms.take(i + 1), now as int, days as int));
        } else {
            assert(path_views(r@) =~= recent_spec(fms.take(i + 1), now as int, days as int));
        }
        i += 1;
    }
    assert(fms.take(files@.len() as int) =~= fms);
    r
}

/// All bytes are ASCII decimal digits.
pub open spec fn all_digits(s: Seq<u8>) -> bool {
    forall|i: int| 0 <= i < s.len() ==> 48 <= #[trigger] s[i] <= 57
}

/// The number a digit string denotes.
pub open spec fn digits_val(s: Seq<u8>) -> int
    decreases s,
{
    if s.len() == 0 {
        0
    } else {
        digits_val(s.drop_last()) * 10 + (s.last() - 48)
    }
}

/// The sign the argument carries: -1 after a leading minus, else 1.
pub open spec fn sign_of(s: Seq<u8>) -> int {
    if s.len() > 0 && s[0] == 45 {
        -1
    } else {
        1
    }
}

/// The digits of the argument: everything after a leading sign, if any.
pub open spec fn digits_of(s: Seq<u8>) -> Seq<u8> {
    if s.len() > 0 && (s[0] == 43 || s[0] == 45) {
        s.drop_first()
    } else {
        s
    }
}

/// What the day-count argument parses to: an optional `+` or `-` sign, then
/// at least one decimal digit and nothing else, denoting a value that fits a
/// 64-bit signed integer; anything else is a bad argument.
pub open spec fn parse_i64_spec(s: Seq<u8>) -> Option<int> {
    let ds = digits_of(s);
    if ds.len() == 0 || !all_digits(ds) {
        None
    } else {
        let v = sign_of(s) * digits_val(ds);
        if i64::MIN <= v <= i64::MAX {
            Some(v)
        } else {
            None
        }
    }
}

/// Ten to the `n`.
pub open spec fn pow10(n: nat) -> int
    decreases n,
{
    if n == 0 {
        1
    } else {
        10 * pow10((n - 1) as nat)
    }
}

proof fn lemma_pow10_mono(a: nat, b: nat)
    requires
        a <= b,
    ensures
        pow10(a) <= pow10(b),
        pow10(a) >= 1,
    decreases b,
{
    if a < b {
        lemma_pow10_mono(a, (b - 1) as nat);
        assert(pow10(b) == 10 * pow10((b - 1) as nat));
    } else if a == b && a > 0 {
        lemma_pow10_mono((a - 1) as nat, (b - 1) as nat);
    }
}

/// A digit string's value lies below ten to its length.
proof fn lemma_digits_val_upper(s: Seq<u8>)
    requires
        all_digits(s),
    ensures
        0 <= digits_val(s) < pow10(s.len()),
    decreases s.len(),
{
    if s.len() == 0 {
    } else {
        lemma_digits_val_upper(s.drop_last());
        assert(pow10(s.len()) == 10 * pow10((s.len() - 1) as nat));
    }
}

/// A digit string with a nonzero first digit is at least ten to one less
/// than its length.
proof fn lemma_digits_val_lower(s: Seq<u8>)
    requires
        all_digits(s),
        s.len() > 0,
        s[0] != 48,
    ensures
        digits_val(s) >= pow10((s.len() - 1) as nat),
    decreases s.len(),
{
    if s.len() == 1 {
        assert(digits_val(s) == digits_val(s.drop_last()) * 10 + (s[0] - 48));
    } else {
        lemma_digits_val_lower(s.drop_last());
        assert(pow10((s.len() - 1) as nat) == 10 * pow10((s.len() - 2) as nat));
        assert(digits_val(s.drop_last()) * 10 >= pow10((s.len() - 2) as nat) * 10) by (
        nonlinear_arith)
            requires
                digits_val(s.drop_last()) >= pow10((s.len() - 2) as nat),
        ;
    }
}

/// Multiplying by a sign of one or minus one keeps or negates the value.
proof fn lemma_sign_mul(s: int, v: int)
    requires
        s == 1 || s == -1,
    ensures
        s == 1 ==> s * v == v,
        s == -1 ==> s * v == -v,
{
    if s == 1 {
        assert(s * v == v) by (nonlinear_arith)
            requires
                s == 1,
        ;
    } else {
        assert(s * v == -v) by (nonlinear_arith)
            requires
                s == -1,
        ;
    }
}

/// A leading zero does not change a digit string's value.
proof fn lemma_strip_zero(s: Seq<u8>)
    requires
        s.len() >= 1,
        s[0] == 48,
    ensures
        digits_val(s) == digits_val(s.drop_first()),
    decreases s.len(),
{
    if s.len() == 1 {
        assert(s.drop_first() =~= Seq::<u8>::empty());
        assert(s.drop_last() =~= Seq::<u8>::empty());
    } else {
        lemma_strip_zero(s.drop_last());
        assert(s.drop_last().drop_first() =~= s.drop_first().drop_last());
        assert(s.drop_first().last() == s.last());
        assert(digits_val(s) == digits_val(s.drop_last()) * 10 + (s.last() - 48));
        assert(digits_val(s.drop_first()) == digits_val(s.drop_first().drop_last()) * 10 + (
        s.drop_first().last() - 48));
        assert(digits_val(s.drop_last()) == digits_val(s.drop_first().drop_last()));
    }
}

/// Parse the day-count argument: an optional sign and decimal digits.
/// Anything else, and any value outside the 64-bit signed range, is refused.
pub fn parse_days(s: &Vec<u8>) -> (r: Option<i64>)
    ensures
        match r {
            Option::Some(v) => parse_i64_spec(s@) == Some(v as int),
            Option::None => parse_i64_spec(s@) is None,
        },
{
    let n = s.len();
    let mut start: usize = 0;
    let mut neg = false;
    if n > 0 && (s[0] == 43 || s[0] == 45) {
        start = 1;
        neg = s[0] == 45;
    }
    let ghost ds = digits_of(s@);
    proof {
        assert(ds =~= s@.skip(start as int));
    }
    if start == n {
        assert(ds.len() == 0);
        return None;
    }
    // every remaining byte must be a digit
    let mut i: usize = start;
    while i < n
        invariant
            start <= i <= n == s@.len(),
            ds == digits_of(s@),
            ds == s@.skip(start as int),
            forall|k: int| start <= k < i ==> 48 <= #[trigger] s@[k] <= 57,
        decreases n - i,
    {
        let b = s[i];
        if b < 48 || b > 57 {
            assert(!all_digits(ds)) by {
                assert(ds[i - start] == s@[i as int]);
            }
            assert(parse_i64_spec(s@) is None);
            return None;
        }
        i += 1;
    }
    assert(all_digits(ds)) by {
        assert forall|k: int| 0 <= k < ds.len() implies 48 <= #[trigger] ds[k] <= 57 by {
            assert(ds[k] == s@[k + start]);
        }
    }
    // skip leading zeros; they do not change the value
    let mut z: usize = start;
    while z < n && *s.get(z).unwrap() == 48
        invariant
            start <= z <= n == s@.len(),
            ds == digits_of(s@),
            ds == s@.skip(start as int),
            all_digits(ds),
            digits_val(ds) == digits_val(s@.skip(z as int)),
        decreases n - z,
    {
        proof {
            let cur = s@.skip(z as int);
            assert(cur[0] == s@[z as int]);
            lemma_strip_zero(cur);
            assert(cur.drop_first() =~= s@.skip(z + 1));
        }
        z += 1;
    }
    let ghost rem = s@.skip(z as int);
    proof {
        assert(all_digits(rem)) by {
            assert forall|k: int| 0 <= k < rem.len() implies 48 <= #[trigger] rem[k] <= 57 by {
                assert(rem[k] == ds[k + z - start]);
            }
        }
    }
    if z == n {
        // all zeros: the value is zero
        proof {
            assert(rem.len() == 0);
            assert(rem =~= Seq::<u8>::empty());
            assert(digits_val(rem) == 0);
            lemma_sign_mul(sign_of(s@), digits_val(ds));
        }
        return Some(0);
    }
    let k = n - z;
    proof {
        assert(rem.len() == k);
        assert(rem[0] == s@[z as int]);
        assert(rem[0] != 48);
    }
    if k > 19 {
        // at least ten to the nineteenth, beyond the 64-bit signed range
        proof {
            lemma_digits_val_lower(rem);
            lemma_pow10_mono(19, (k - 1) as nat);
            assert(pow10(19) == 10000000000000000000) by {
                reveal_with_fuel(pow10, 20);
            }
            assert(digits_val(ds) >= 10000000000000000000);
            lemma_sign_mul(sign_of(s@), digits_val(ds));
        }
        return None;
    }
    proof {
        lemma_digits_val_upper(rem);
        lemma_pow10_mono(rem.len(), 19);
        assert(pow10(19) == 10000000000000000000) by {
                reveal_with_fuel(pow10, 20);
            }
    }
    let mut acc: u64 = 0;
    let mut j: usize = z;
    while j < n
        invariant
            z <= j <= n == s@.len(),
            n - z <= 19,
            ds == digits_of(s@),
            ds == s@.skip(start as int),
            start <= z,
            neg == (s@.len() > 0 && s@[0] == 45),
            digits_val(ds) == digits_val(rem),
            rem == s@.skip(z as int),
            all_digits(rem),
            acc == digits_val(s@.skip(z as int).take(j - z)),
            acc < pow10((j - z) as nat),
            pow10((j - z) as nat) <= pow10(19) == 10000000000000000000,
        decreases n - j,
    {
        let d = s[j];
        proof {
            assert(rem[j - z] == s@[j as int]);
            assert(48 <= d <= 57);
            assert(acc * 10 <= (pow10((j - z) as nat) - 1) * 10) by (nonlinear_arith)
                requires
                    acc < pow10((j - z) as nat),
                    pow10((j - z) as nat) >= 1,
            ;
            lemma_pow10_mono((j + 1 - z) as nat, 19);
            assert(pow10((j + 1 - z) as nat) == 10 * pow10((j - z) as nat));
        }
        let acc2: u64 = acc * 10 + ((d - 48) as u64);
        proof {
            let pre = s@.skip(z as int).take(j - z);
            let cur = s@.skip(z as int).take(j + 1 - z);
            assert(cur.drop_last() =~= pre);
            assert(cur.last() == s@[j as int]);
        }
        acc = acc2;
        j += 1;
    }
    proof {
        assert(s@.skip(z as int).take(n - z) =~= rem);
        assert(digits_val(ds) == digits_val(rem));
        assert(sign_of(s@) == if neg { -1int } else { 1int });
        lemma_sign_mul(sign_of(s@), digits_val(ds));
    }
    if neg {
        if acc > 9223372036854775808 {
            assert(sign_of(s@) * digits_val(ds) < i64::MIN);
            return None;
        }
        if acc == 9223372036854775808 {
            Some(i64::MIN)
        } else {
            Some(-(acc as i64))
        }
    } else {
        if acc > 9223372036854775807 {
            proof {
                assert(sign_of(s@) * digits_val(ds) > i64::MAX);
            }
            return None;
        }
        Some(acc as i64)
    }
}

} // verus!
