//! Parsing of counter-source records.
//!
//! A counter record is a line of whitespace-separated fields; the fields at
//! zero-based offsets 13 and 14 hold the accumulated user-mode and
//! kernel-mode tick counters.  A thread listing is a set of directory entry
//! names, each the decimal thread id.  Both are parsed here, against a
//! sequence-level description of splitting and of decimal values.

use vstd::prelude::*;

use crate::errors::SampleError;
use crate::sample::ProcessTimes;

verus! {

/// The byte the records separate their fields with.
pub const FIELD_SEP: u8 = 32;

/// Index of the first separator byte in `s`, or `s.len()` if there is none.
pub open spec fn first_sep(s: Seq<u8>) -> nat
    decreases s.len(),
{
    if s.len() == 0 {
        0
    } else if s[0] == FIELD_SEP {
        0
    } else {
        1 + first_sep(s.drop_first())
    }
}

proof fn lemma_first_sep(s: Seq<u8>)
    ensures
        first_sep(s) <= s.len(),
        first_sep(s) < s.len() ==> s[first_sep(s) as int] == FIELD_SEP,
        forall|i: int| 0 <= i < first_sep(s) ==> s[i] != FIELD_SEP,
    decreases s.len(),
{
    if s.len() > 0 && s[0] != FIELD_SEP {
        lemma_first_sep(s.drop_first());
        assert forall|i: int| 0 <= i < first_sep(s) implies s[i] != FIELD_SEP by {
            if i > 0 {
                assert(s.drop_first()[i - 1] == s[i]);
            }
        }
    }
}

/// The position `j` at which the scan stops is the first separator.
proof fn lemma_first_sep_at(s: Seq<u8>, j: int)
    requires
        0 <= j <= s.len(),
        forall|i: int| 0 <= i < j ==> s[i] != FIELD_SEP,
        j == s.len() || s[j] == FIELD_SEP,
    ensures
        first_sep(s) == j,
    decreases j,
{
    if j > 0 {
        assert(s[0] != FIELD_SEP);
        assert(forall|i: int| 0 <= i < j - 1 ==> s.drop_first()[i] == s[i + 1]);
        if j < s.len() {
            assert(s.drop_first()[j - 1] == s[j]);
        }
        lemma_first_sep_at(s.drop_first(), j - 1);
    }
}

/// The fields of a record: the byte runs between the separators, in order.
/// Splitting at every single separator, so two adjacent separators enclose
/// an empty field, and the empty record has one empty field.
pub open spec fn fields(s: Seq<u8>) -> Seq<Seq<u8>>
    decreases s.len(),
{
    let i = first_sep(s);
    if i >= s.len() {
        seq![s]
    } else {
        seq![s.take(i as int)] + fields(s.skip(i as int + 1))
    }
}

proof fn lemma_fields_len(s: Seq<u8>)
    ensures
        fields(s).len() >= 1,
    decreases s.len(),
{
    if first_sep(s) < s.len() {
        lemma_fields_len(s.skip(first_sep(s) as int + 1));
    }
}

/// Whether `f` is a plain decimal number: one or more ASCII digits.
pub open spec fn is_digits(f: Seq<u8>) -> bool {
    f.len() > 0 && forall|i: int| 0 <= i < f.len() ==> 48 <= #[trigger] f[i] <= 57
}

/// The value the digit string `f` denotes, read most significant first.
pub open spec fn digits_val(f: Seq<u8>) -> int
    decreases f.len(),
{
    if f.len() == 0 {
        0
    } else {
        10 * digits_val(f.drop_last()) + (f.last() - 48)
    }
}

/// Once a prefix of a digit string exceeds a bound of at least 6, the whole
/// string does: appending any byte at most multiplies by ten and takes 48.
proof fn lemma_digits_val_grows(f: Seq<u8>, k: int, bound: int)
    requires
        0 <= k <= f.len(),
        bound >= 6,
        digits_val(f.take(k)) > bound,
    ensures
        digits_val(f) > bound,
    decreases f.len() - k,
{
    if k < f.len() {
        let g = f.take(k + 1);
        assert(g.drop_last() =~= f.take(k));
        assert(digits_val(g) == 10 * digits_val(f.take(k)) + (f[k] - 48));
        lemma_digits_val_grows(f, k + 1, bound);
    } else {
        assert(f.take(k) =~= f);
    }
}

/// Whether `f` is a well-formed counter field: a decimal number that fits
/// the counter type.
pub open spec fn counter_ok(f: Seq<u8>) -> bool {
    is_digits(f) && digits_val(f) <= i64::MAX
}

/// Whether the record `s` is well formed: it has at least 15 fields and the
/// two counter fields are decimal numbers in range.
pub open spec fn stat_ok(s: Seq<u8>) -> bool {
    &&& fields(s).len() >= 15
    &&& counter_ok(fields(s)[13])
    &&& counter_ok(fields(s)[14])
}

/// The user-mode counter a well-formed record holds.
pub open spec fn stat_utime(s: Seq<u8>) -> int {
    digits_val(fields(s)[13])
}

/// The kernel-mode counter a well-formed record holds.
pub open spec fn stat_stime(s: Seq<u8>) -> int {
    digits_val(fields(s)[14])
}

/// First position at or after `from` holding a separator, or the length.
fn find_sep(s: &[u8], from: usize) -> (r: usize)
    requires
        from <= s@.len(),
    ensures
        from <= r <= s@.len(),
        r - from == first_sep(s@.skip(from as int)),
{
    let n: usize = s.len();
    let mut j: usize = from;
    while j < n && s[j] != FIELD_SEP
        invariant
            from <= j <= n,
            n == s@.len(),
            forall|i: int| from <= i < j ==> s@[i] != FIELD_SEP,
        decreases n - j,
    {
        j = j + 1;
    }
    proof {
        let t = s@.skip(from as int);
        assert(forall|i: int| 0 <= i < j - from ==> t[i] == s@[i + from]);
        if j < n {
            assert(t[j - from] == s@[j as int]);
        }
        lemma_first_sep_at(t, j - from);
    }
    j
}

/// Parse the decimal counter in `s[lo..hi]`.
fn parse_counter(s: &[u8], lo: usize, hi: usize) -> (r: Result<i64, SampleError>)
    requires
        lo <= hi <= s@.len(),
    ensures
        r is Ok <==> counter_ok(s@.subrange(lo as int, hi as int)),
        match r {
            Ok(v) => 0 <= v == digits_val(s@.subrange(lo as int, hi as int)),
            Err(e) => e == SampleError::MalformedSource,
        },
{
    let ghost f = s@.subrange(lo as int, hi as int);
    if lo == hi {
        return Err(SampleError::MalformedSource);
    }
    let mut acc: i64 = 0;
    let mut i: usize = lo;
    while i < hi
        invariant
            lo <= i <= hi <= s@.len(),
            f == s@.subrange(lo as int, hi as int),
            forall|k: int| 0 <= k < i - lo ==> 48 <= #[trigger] f[k] <= 57,
            acc == digits_val(f.take(i - lo)),
            0 <= acc,
        decreases hi - i,
    {
        let b = s[i];
        assert(b == f[i - lo]);
        if b < 48 || b > 57 {
            assert(!is_digits(f));
            return Err(SampleError::MalformedSource);
        }
        let d: i64 = (b - 48) as i64;
        proof {
            assert(f.take(i - lo + 1).drop_last() =~= f.take(i - lo));
            assert(digits_val(f.take(i - lo + 1)) == 10 * acc + d);
        }
        if acc > (i64::MAX - d) / 10 {
            proof {
                assert(10 * acc + d > i64::MAX) by (nonlinear_arith)
                    requires
                        acc > (i64::MAX - d) / 10,
                        0 <= d <= 9,
                        acc >= 0,
                ;
                lemma_digits_val_grows(f, i - lo + 1, i64::MAX as int);
            }
            return Err(SampleError::MalformedSource);
        }
        assert(10 * acc + d <= i64::MAX) by (nonlinear_arith)
            requires
                acc <= (i64::MAX - d) / 10,
                0 <= d <= 9,
                acc >= 0,
        ;
        acc = acc * 10 + d;
        i = i + 1;
    }
    proof {
        assert(f.take(hi - lo) =~= f);
    }
    Ok(acc)
}

/// Extract the user and system time counters from a counter record.
///
/// Succeeds exactly when the record has at least 15 separator-delimited
/// fields and the fields at offsets 13 and 14 are decimal numbers that fit
/// the counter type; both counters are then non-negative.
pub fn read_user_sys_time(stat: &[u8]) -> (r: Result<ProcessTimes, SampleError>)
    ensures
        r is Ok <==> stat_ok(stat@),
        match r {
            Ok(t) => {
                &&& 0 <= t.utime == stat_utime(stat@)
                &&& 0 <= t.stime == stat_stime(stat@)
            },
            Err(e) => e == SampleError::MalformedSource,
        },
{
    let ghost s = stat@;
    proof {
        assert(s.skip(0) =~= s);
        assert(fields(s).skip(0) =~= fields(s));
    }
    let n: usize = stat.len();
    let mut pos: usize = 0;
    let mut k: usize = 0;
    while k < 13
        invariant
            k <= 13,
            pos <= n,
            n == s.len(),
            s == stat@,
            fields(s).skip(k as int) =~= fields(s.skip(pos as int)),
            fields(s).len() == k + fields(s.skip(pos as int)).len(),
        decreases 13 - k,
    {
        let sp = find_sep(stat, pos);
        proof {
            let t = s.skip(pos as int);
            lemma_fields_len(t);
            if sp == n {
                assert(first_sep(t) >= t.len());
                assert(fields(t) =~= seq![t]);
                assert(fields(s).len() == k + 1);
            } else {
                assert(first_sep(t) < t.len());
                assert(fields(t) == seq![t.take(first_sep(t) as int)] + fields(
                    t.skip(first_sep(t) as int + 1),
                ));
                assert(t.skip(first_sep(t) as int + 1) =~= s.skip(sp + 1));
                assert(fields(s).skip(k + 1) =~= fields(s.skip(sp + 1))) by {
                    assert(fields(s).skip(k as int).drop_first() =~= fields(s).skip(k + 1));
                    assert(fields(t).drop_first() =~= fields(s.skip(sp + 1)));
                }
            }
        }
        if sp == n {
            // the remaining bytes are the last field, so there are only
            // k + 1 fields in all: too few
            return Err(SampleError::MalformedSource);
        }
        pos = sp + 1;
        k = k + 1;
    }
    // `pos` is the start of field 13
    let sp13 = find_sep(stat, pos);
    proof {
        let t = s.skip(pos as int);
        lemma_fields_len(t);
        lemma_first_sep(t);
        if sp13 == n {
            assert(fields(t) =~= seq![t]);
            assert(fields(s).len() == 14);
        } else {
            assert(fields(t) == seq![t.take(first_sep(t) as int)] + fields(
                t.skip(first_sep(t) as int + 1),
            ));
            assert(fields(s).skip(13) == fields(t));
            assert(fields(s)[13] == fields(s).skip(13)[0]);
            assert(fields(s)[13] == t.take(first_sep(t) as int));
            assert(t.take(first_sep(t) as int) =~= s.subrange(pos as int, sp13 as int));
        }
    }
    if sp13 == n {
        // field 14 is missing
        return Err(SampleError::MalformedSource);
    }
    let utime = match parse_counter(stat, pos, sp13) {
        Ok(v) => v,
        Err(e) => {
            return Err(e);
        },
    };
    // field 14 starts right after the separator that closed field 13
    let pos14 = sp13 + 1;
    let sp14 = find_sep(stat, pos14);
    proof {
        let t = s.skip(pos as int);
        let u = s.skip(pos14 as int);
        lemma_fields_len(u);
        lemma_first_sep(u);
        assert(t.skip(first_sep(t) as int + 1) =~= u);
        assert(fields(s).skip(14) =~= fields(u)) by {
            assert(fields(s).skip(13).drop_first() =~= fields(s).skip(14));
            assert(fields(t).drop_first() =~= fields(u));
        }
        assert(fields(s).len() == 14 + fields(u).len());
        assert(fields(s)[14] == fields(u)[0]);
        if first_sep(u) >= u.len() {
            assert(fields(u) =~= seq![u]);
            assert(u =~= s.subrange(pos14 as int, sp14 as int));
        } else {
            assert(fields(u) == seq![u.take(first_sep(u) as int)] + fields(
                u.skip(first_sep(u) as int + 1),
            ));
            assert(u.take(first_sep(u) as int) =~= s.subrange(pos14 as int, sp14 as int));
        }
        assert(fields(s).len() >= 15);
    }
    let stime = match parse_counter(stat, pos14, sp14) {
        Ok(v) => v,
        Err(e) => {
            return Err(e);
        },
    };
    Ok(ProcessTimes { utime, stime })
}

/// Whether `e` is a decimal entry name denoting a value that fits `usize`.
pub open spec fn entry_ok(e: Seq<u8>) -> bool {
    is_digits(e) && digits_val(e) <= usize::MAX
}

/// Parse a directory entry name as a thread id.
pub fn parse_entry(e: &[u8]) -> (r: Option<usize>)
    ensures
        r is Some <==> entry_ok(e@),
        r matches Some(v) ==> v == digits_val(e@),
{
    if e.len() == 0 {
        return None;
    }
    let ghost f = e@;
    let mut acc: usize = 0;
    let mut i: usize = 0;
    while i < e.len()
        invariant
            i <= f.len(),
            f == e@,
            forall|k: int| 0 <= k < i ==> 48 <= #[trigger] f[k] <= 57,
            acc == digits_val(f.take(i as int)),
            0 <= acc,
        decreases f.len() - i,
    {
        let b = e[i];
        if b < 48 || b > 57 {
            assert(!is_digits(f));
            return None;
        }
        let d: usize = (b - 48) as usize;
        proof {
            assert(f.take(i + 1).drop_last() =~= f.take(i as int));
            assert(digits_val(f.take(i + 1)) == 10 * acc + d);
        }
        if acc > (usize::MAX - d) / 10 {
            proof {
                assert(10 * acc + d > usize::MAX) by (nonlinear_arith)
                    requires
                        acc > (usize::MAX - d) / 10,
                        0 <= d <= 9,
                        acc >= 0,
                ;
                lemma_digits_val_grows(f, i + 1, usize::MAX as int);
            }
            return None;
        }
        assert(10 * acc + d <= usize::MAX) by (nonlinear_arith)
            requires
                acc <= (usize::MAX - d) / 10,
                0 <= d <= 9,
                acc >= 0,
        ;
        acc = acc * 10 + d;
        i = i + 1;
    }
    proof {
        assert(f.take(f.len() as int) =~= f);
    }
    Some(acc)
}

/// Whether some listing entry denotes the id `v`.
pub open spec fn is_listed_tid(entries: Seq<Vec<u8>>, v: usize) -> bool {
    exists|k: int|
        0 <= k < entries.len() && entry_ok(#[trigger] entries[k]@) && digits_val(entries[k]@) == v
}

/// The thread ids a task directory listing names, the process itself left
/// out and each id kept once.
pub fn thread_ids_from_entries(pid: usize, entries: &Vec<Vec<u8>>) -> (r: Vec<usize>)
    ensures
        forall|a: int, b: int| 0 <= a < b < r@.len() ==> r@[a] != r@[b],
        forall|a: int|
            0 <= a < r@.len() ==> r@[a] != pid && is_listed_tid(entries@, #[trigger] r@[a]),
        forall|k: int|
            0 <= k < entries@.len() && entry_ok(#[trigger] entries@[k]@) && digits_val(
                entries@[k]@,
            ) != pid ==> r@.contains(digits_val(entries@[k]@) as usize),
{
    let mut r: Vec<usize> = Vec::new();
    let n = entries.len();
    let mut k: usize = 0;
    while k < n
        invariant
            k <= n,
            n == entries@.len(),
            forall|a: int, b: int| 0 <= a < b < r@.len() ==> r@[a] != r@[b],
            forall|a: int|
                0 <= a < r@.len() ==> r@[a] != pid && is_listed_tid(entries@, #[trigger] r@[a]),
            forall|j: int|
                0 <= j < k && entry_ok(#[trigger] entries@[j]@) && digits_val(entries@[j]@) != pid
                    ==> r@.contains(digits_val(entries@[j]@) as usize),
        decreases n - k,
    {
        match parse_entry(entries[k].as_slice()) {
            Some(tid) => {
                proof {
                    assert(entry_ok(entries@[k as int]@));
                    assert(digits_val(entries@[k as int]@) == tid);
                    assert(is_listed_tid(entries@, tid));
                }
                if tid != pid && !contains_usize(&r, tid) {
                    let ghost r_old = r@;
                    r.push(tid);
                    proof {
                        assert(r@ == r_old.push(tid));
                        assert(r@[r@.len() - 1] == tid);
                        assert forall|a: int| 0 <= a < r_old.len() implies r@[a] == r_old[a]
                            && r_old[a] != tid by {
                            if r_old[a] == tid {
                                assert(r_old.contains(tid));
                            }
                        }
                        assert forall|x: usize| r_old.contains(x) implies r@.contains(x) by {
                            let i = choose|i: int| 0 <= i < r_old.len() && r_old[i] == x;
                            assert(r@[i] == x);
                        }
                        assert(r@.contains(tid));
                    }
                }
                assert(tid == pid || r@.contains(tid));
            },
            None => {},
        }
        k = k + 1;
    }
    r
}

/// Whether the vector holds the value.
pub fn contains_usize(v: &Vec<usize>, x: usize) -> (r: bool)
    ensures
        r == v@.contains(x),
{
    let n = v.len();
    let mut i: usize = 0;
    while i < n
        invariant
            i <= n,
            n == v@.len(),
            forall|j: int| 0 <= j < i ==> v@[j] != x,
        decreases n - i,
    {
        if v[i] == x {
            return true;
        }
        i = i + 1;
    }
    false
}

} // verus!
