//! Mathematical model shared by the reshape engine's contracts: aggregates
//! over sequences, mass-to-charge bucketing, and the stable-sort and
//! bucket-grouping specifications.

use vstd::prelude::*;

verus! {

// ---------------------------------------------------------------------------
// Fixed-point mass-to-charge values.
//
// A mass-to-charge value is stored as an integer count of thousandths of one
// m/z unit, so `50.1` is stored as `50100`.  Bucketing for the
// grouped-by-mass-to-charge view rounds to the nearest whole unit, half away
// from zero.
// ---------------------------------------------------------------------------

/// Fixed-point steps per whole mass-to-charge unit.
pub const MASS_SCALE: u64 = 1000;

/// Half of [`MASS_SCALE`]: the rounding threshold.
pub const MASS_HALF_SCALE: u64 = 500;

/// The grouping bucket of a fixed-point mass-to-charge value: the nearest
/// whole unit, rounding halves up.
pub open spec fn bucket_of(mz: int) -> int {
    mz / (MASS_SCALE as int) + if mz % (MASS_SCALE as int) >= (MASS_HALF_SCALE as int) {
        1int
    } else {
        0int
    }
}

/// Rounds a fixed-point mass-to-charge value to its grouping bucket, in
/// whole mass-to-charge units.
pub fn round_to_bucket(mz: u64) -> (r: u64)
    ensures
        r as int == bucket_of(mz as int),
{
    let d = mz / MASS_SCALE;
    let m = mz % MASS_SCALE;
    proof {
        assert(d <= mz) by (nonlinear_arith)
            requires
                d == mz / 1000,
        ;
    }
    if m >= MASS_HALF_SCALE {
        d + 1
    } else {
        d
    }
}

/// Bucketing is idempotent: a bucket value, re-expressed in fixed-point
/// steps and rounded again, is unchanged.
pub proof fn lemma_bucket_idempotent(mz: int)
    requires
        mz >= 0,
    ensures
        bucket_of(bucket_of(mz) * (MASS_SCALE as int)) == bucket_of(mz),
{
    let b = bucket_of(mz);
    assert((b * 1000) / 1000 == b && (b * 1000) % 1000 == 0) by (nonlinear_arith);
}

// ---------------------------------------------------------------------------
// Small sequence facts used by every loop below.
// ---------------------------------------------------------------------------

/// Dropping the freshly pushed last element gives the original sequence
/// back.
pub broadcast proof fn lemma_push_drop_last<T>(s: Seq<T>, x: T)
    ensures
        (#[trigger] s.push(x)).drop_last() == s,
{
    assert(s.push(x).drop_last() =~= s);
}

/// A one-longer prefix splits into the shorter prefix plus the next
/// element.
pub broadcast proof fn lemma_take_succ<T>(s: Seq<T>, i: int)
    requires
        0 <= i < s.len(),
    ensures
        (#[trigger] s.take(i + 1)).drop_last() == s.take(i),
        s.take(i + 1).len() == i + 1,
        s.take(i + 1).last() == s[i],
{
    assert(s.take(i + 1).drop_last() =~= s.take(i));
}

// ---------------------------------------------------------------------------
// Aggregates.
//
// `min`/`max` over an empty list are undefined (the engine reports them as
// `None`); the sum over an empty list is defined as zero, the policy this
// library fixes and tests.
// ---------------------------------------------------------------------------

/// Sum of a sequence of signals, as an unbounded integer.
pub open spec fn sum_u16(s: Seq<u16>) -> int
    decreases s.len(),
{
    if s.len() == 0 {
        0
    } else {
        sum_u16(s.drop_last()) + s.last()
    }
}

/// Minimum of a non-empty sequence of signals.
pub open spec fn min_u16(s: Seq<u16>) -> u16
    recommends
        s.len() > 0,
    decreases s.len(),
{
    if s.len() <= 1 {
        s[0]
    } else {
        let m = min_u16(s.drop_last());
        if s.last() < m {
            s.last()
        } else {
            m
        }
    }
}

/// Maximum of a non-empty sequence of signals.
pub open spec fn max_u16(s: Seq<u16>) -> u16
    recommends
        s.len() > 0,
    decreases s.len(),
{
    if s.len() <= 1 {
        s[0]
    } else {
        let m = max_u16(s.drop_last());
        if s.last() > m {
            s.last()
        } else {
            m
        }
    }
}

/// Minimum of a non-empty sequence of fixed-point mass-to-charge values.
pub open spec fn min_u64(s: Seq<u64>) -> u64
    recommends
        s.len() > 0,
    decreases s.len(),
{
    if s.len() <= 1 {
        s[0]
    } else {
        let m = min_u64(s.drop_last());
        if s.last() < m {
            s.last()
        } else {
            m
        }
    }
}

/// Maximum of a non-empty sequence of fixed-point mass-to-charge values.
pub open spec fn max_u64(s: Seq<u64>) -> u64
    recommends
        s.len() > 0,
    decreases s.len(),
{
    if s.len() <= 1 {
        s[0]
    } else {
        let m = max_u64(s.drop_last());
        if s.last() > m {
            s.last()
        } else {
            m
        }
    }
}

/// Minimum of a non-empty sequence of retention times.
pub open spec fn min_i32(s: Seq<i32>) -> i32
    recommends
        s.len() > 0,
    decreases s.len(),
{
    if s.len() <= 1 {
        s[0]
    } else {
        let m = min_i32(s.drop_last());
        if s.last() < m {
            s.last()
        } else {
            m
        }
    }
}

/// Maximum of a non-empty sequence of retention times.
pub open spec fn max_i32(s: Seq<i32>) -> i32
    recommends
        s.len() > 0,
    decreases s.len(),
{
    if s.len() <= 1 {
        s[0]
    } else {
        let m = max_i32(s.drop_last());
        if s.last() > m {
            s.last()
        } else {
            m
        }
    }
}

/// Minimum of a signal list, `None` when the list is empty.
pub open spec fn min_u16_opt(s: Seq<u16>) -> Option<u16> {
    if s.len() == 0 {
        None
    } else {
        Some(min_u16(s))
    }
}

/// Maximum of a signal list, `None` when the list is empty.
pub open spec fn max_u16_opt(s: Seq<u16>) -> Option<u16> {
    if s.len() == 0 {
        None
    } else {
        Some(max_u16(s))
    }
}

/// Minimum of a mass-to-charge list, `None` when the list is empty.
pub open spec fn min_u64_opt(s: Seq<u64>) -> Option<u64> {
    if s.len() == 0 {
        None
    } else {
        Some(min_u64(s))
    }
}

/// Maximum of a mass-to-charge list, `None` when the list is empty.
pub open spec fn max_u64_opt(s: Seq<u64>) -> Option<u64> {
    if s.len() == 0 {
        None
    } else {
        Some(max_u64(s))
    }
}

/// Minimum of a retention-time list, `None` when the list is empty.
pub open spec fn min_i32_opt(s: Seq<i32>) -> Option<i32> {
    if s.len() == 0 {
        None
    } else {
        Some(min_i32(s))
    }
}

/// Maximum of a retention-time list, `None` when the list is empty.
pub open spec fn max_i32_opt(s: Seq<i32>) -> Option<i32> {
    if s.len() == 0 {
        None
    } else {
        Some(max_i32(s))
    }
}

/// The sum of a prefix of signals never exceeds the sum of the whole
/// sequence.
pub proof fn lemma_sum_u16_take_le(s: Seq<u16>, n: int)
    requires
        0 <= n <= s.len(),
    ensures
        sum_u16(s.take(n)) <= sum_u16(s),
    decreases s.len(),
{
    if n == s.len() {
        assert(s.take(n) =~= s);
    } else {
        assert(s.drop_last().take(n) =~= s.take(n));
        lemma_sum_u16_take_le(s.drop_last(), n);
    }
}

/// Sums of signal sequences are non-negative.
pub proof fn lemma_sum_u16_nonneg(s: Seq<u16>)
    ensures
        sum_u16(s) >= 0,
    decreases s.len(),
{
    if s.len() > 0 {
        lemma_sum_u16_nonneg(s.drop_last());
    }
}

// ---------------------------------------------------------------------------
// Executable aggregates over columns.
// ---------------------------------------------------------------------------

/// Minimum of a signal column; `None` when it is empty.
pub fn vec_min_u16(v: &Vec<u16>) -> (r: Option<u16>)
    ensures
        r == min_u16_opt(v@),
{
    if v.len() == 0 {
        return None;
    }
    let mut m: u16 = v[0];
    let mut i: usize = 1;
    proof {
        assert(v@.take(1)[0] == v@[0]);
    }
    while i < v.len()
        invariant
            1 <= i <= v@.len(),
            m == min_u16(v@.take(i as int)),
        decreases v@.len() - i,
    {
        proof {
            lemma_take_succ(v@, i as int);
        }
        if v[i] < m {
            m = v[i];
        }
        i += 1;
    }
    proof {
        assert(v@.take(v@.len() as int) =~= v@);
    }
    Some(m)
}

/// Maximum of a signal column; `None` when it is empty.
pub fn vec_max_u16(v: &Vec<u16>) -> (r: Option<u16>)
    ensures
        r == max_u16_opt(v@),
{
    if v.len() == 0 {
        return None;
    }
    let mut m: u16 = v[0];
    let mut i: usize = 1;
    proof {
        assert(v@.take(1)[0] == v@[0]);
    }
    while i < v.len()
        invariant
            1 <= i <= v@.len(),
            m == max_u16(v@.take(i as int)),
        decreases v@.len() - i,
    {
        proof {
            lemma_take_succ(v@, i as int);
        }
        if v[i] > m {
            m = v[i];
        }
        i += 1;
    }
    proof {
        assert(v@.take(v@.len() as int) =~= v@);
    }
    Some(m)
}

/// Minimum of a mass-to-charge column; `None` when it is empty.
pub fn vec_min_u64(v: &Vec<u64>) -> (r: Option<u64>)
    ensures
        r == min_u64_opt(v@),
{
    if v.len() == 0 {
        return None;
    }
    let mut m: u64 = v[0];
    let mut i: usize = 1;
    proof {
        assert(v@.take(1)[0] == v@[0]);
    }
    while i < v.len()
        invariant
            1 <= i <= v@.len(),
            m == min_u64(v@.take(i as int)),
        decreases v@.len() - i,
    {
        proof {
            lemma_take_succ(v@, i as int);
        }
        if v[i] < m {
            m = v[i];
        }
        i += 1;
    }
    proof {
        assert(v@.take(v@.len() as int) =~= v@);
    }
    Some(m)
}

/// Maximum of a mass-to-charge column; `None` when it is empty.
pub fn vec_max_u64(v: &Vec<u64>) -> (r: Option<u64>)
    ensures
        r == max_u64_opt(v@),
{
    if v.len() == 0 {
        return None;
    }
    let mut m: u64 = v[0];
    let mut i: usize = 1;
    proof {
        assert(v@.take(1)[0] == v@[0]);
    }
    while i < v.len()
        invariant
            1 <= i <= v@.len(),
            m == max_u64(v@.take(i as int)),
        decreases v@.len() - i,
    {
        proof {
            lemma_take_succ(v@, i as int);
        }
        if v[i] > m {
            m = v[i];
        }
        i += 1;
    }
    proof {
        assert(v@.take(v@.len() as int) =~= v@);
    }
    Some(m)
}

/// Minimum of a retention-time column; `None` when it is empty.
pub fn vec_min_i32(v: &Vec<i32>) -> (r: Option<i32>)
    ensures
        r == min_i32_opt(v@),
{
    if v.len() == 0 {
        return None;
    }
    let mut m: i32 = v[0];
    let mut i: usize = 1;
    proof {
        assert(v@.take(1)[0] == v@[0]);
    }
    while i < v.len()
        invariant
            1 <= i <= v@.len(),
            m == min_i32(v@.take(i as int)),
        decreases v@.len() - i,
    {
        proof {
            lemma_take_succ(v@, i as int);
        }
        if v[i] < m {
            m = v[i];
        }
        i += 1;
    }
    proof {
        assert(v@.take(v@.len() as int) =~= v@);
    }
    Some(m)
}

/// Maximum of a retention-time column; `None` when it is empty.
pub fn vec_max_i32(v: &Vec<i32>) -> (r: Option<i32>)
    ensures
        r == max_i32_opt(v@),
{
    if v.len() == 0 {
        return None;
    }
    let mut m: i32 = v[0];
    let mut i: usize = 1;
    proof {
        assert(v@.take(1)[0] == v@[0]);
    }
    while i < v.len()
        invariant
            1 <= i <= v@.len(),
            m == max_i32(v@.take(i as int)),
        decreases v@.len() - i,
    {
        proof {
            lemma_take_succ(v@, i as int);
        }
        if v[i] > m {
            m = v[i];
        }
        i += 1;
    }
    proof {
        assert(v@.take(v@.len() as int) =~= v@);
    }
    Some(m)
}

/// Sum of a signal column.  The caller guarantees the mathematical sum fits
/// the accumulator, which the engine derives from its own precondition on
/// the dataset's total signal.
pub fn vec_sum_u16(v: &Vec<u16>) -> (r: u64)
    requires
        sum_u16(v@) <= u64::MAX,
    ensures
        r as int == sum_u16(v@),
{
    let mut total: u64 = 0;
    let mut i: usize = 0;
    proof {
        assert(v@.take(0) =~= Seq::<u16>::empty());
    }
    while i < v.len()
        invariant
            0 <= i <= v@.len(),
            sum_u16(v@) <= u64::MAX,
            total as int == sum_u16(v@.take(i as int)),
        decreases v@.len() - i,
    {
        proof {
            lemma_take_succ(v@, i as int);
            lemma_sum_u16_take_le(v@, i as int + 1);
        }
        total = total + v[i] as u64;
        i += 1;
    }
    proof {
        assert(v@.take(v@.len() as int) =~= v@);
    }
    total
}

// ---------------------------------------------------------------------------
// Stable sorting.
//
// `stable_sorted` is the mathematical definition of a stable sort: elements
// are taken left to right and each is inserted after every element whose key
// does not exceed its own.  The lemmas below establish the three facts the
// contracts use: the result is sorted, it is a permutation of the input, and
// elements of equal key keep their relative order.
// ---------------------------------------------------------------------------

/// The sequence is non-decreasing in `key`.
pub open spec fn sorted_by_key<T>(s: Seq<T>, key: spec_fn(T) -> int) -> bool {
    forall|i: int, j: int| 0 <= i < j < s.len() ==> key(s[i]) <= key(s[j])
}

/// The predicate selecting elements whose key equals `k`.
pub open spec fn key_eq_pred<T>(key: spec_fn(T) -> int, k: int) -> spec_fn(T) -> bool {
    |t: T| key(t) == k
}

/// Inserts `x` after every element whose key is at most `key(x)`.
pub open spec fn sorted_insert<T>(s: Seq<T>, x: T, key: spec_fn(T) -> int) -> Seq<T>
    decreases s.len(),
{
    if s.len() == 0 {
        seq![x]
    } else if key(s.last()) <= key(x) {
        s.push(x)
    } else {
        sorted_insert(s.drop_last(), x, key).push(s.last())
    }
}

/// The stable sort of `s` by `key`.
pub open spec fn stable_sorted<T>(s: Seq<T>, key: spec_fn(T) -> int) -> Seq<T>
    decreases s.len(),
{
    if s.len() == 0 {
        Seq::empty()
    } else {
        sorted_insert(stable_sorted(s.drop_last(), key), s.last(), key)
    }
}

pub proof fn lemma_sorted_insert_len<T>(s: Seq<T>, x: T, key: spec_fn(T) -> int)
    ensures
        sorted_insert(s, x, key).len() == s.len() + 1,
    decreases s.len(),
{
    if s.len() > 0 && !(key(s.last()) <= key(x)) {
        lemma_sorted_insert_len(s.drop_last(), x, key);
    }
}

pub proof fn lemma_stable_sorted_len<T>(s: Seq<T>, key: spec_fn(T) -> int)
    ensures
        stable_sorted(s, key).len() == s.len(),
    decreases s.len(),
{
    if s.len() > 0 {
        lemma_stable_sorted_len(s.drop_last(), key);
        lemma_sorted_insert_len(stable_sorted(s.drop_last(), key), s.last(), key);
    }
}

/// Every key bound of the input and of the inserted element bounds the
/// result.
pub proof fn lemma_sorted_insert_key_le<T>(s: Seq<T>, x: T, key: spec_fn(T) -> int, bound: int)
    requires
        forall|i: int| 0 <= i < s.len() ==> key(s[i]) <= bound,
        key(x) <= bound,
    ensures
        forall|i: int|
            0 <= i < sorted_insert(s, x, key).len() ==> key(sorted_insert(s, x, key)[i]) <= bound,
    decreases s.len(),
{
    lemma_sorted_insert_len(s, x, key);
    let t = sorted_insert(s, x, key);
    if s.len() == 0 {
        assert(t =~= seq![x]);
    } else if key(s.last()) <= key(x) {
        assert forall|i: int| 0 <= i < t.len() implies key(t[i]) <= bound by {
            if i < s.len() {
                assert(t[i] == s[i]);
            } else {
                assert(t[i] == x);
            }
        }
    } else {
        let d = s.drop_last();
        assert(forall|i: int| 0 <= i < d.len() ==> key(#[trigger] d[i]) <= bound) by {
            assert(forall|i: int| 0 <= i < d.len() ==> #[trigger] d[i] == s[i]);
        }
        lemma_sorted_insert_key_le(d, x, key, bound);
        let u = sorted_insert(d, x, key);
        assert forall|i: int| 0 <= i < t.len() implies key(t[i]) <= bound by {
            if i < u.len() {
                assert(t[i] == u[i]);
            } else {
                assert(t[i] == s.last());
                assert(key(s[s.len() - 1]) <= bound);
            }
        }
    }
}

/// Inserting into a sorted sequence keeps it sorted.
pub proof fn lemma_sorted_insert_sorted<T>(s: Seq<T>, x: T, key: spec_fn(T) -> int)
    requires
        sorted_by_key(s, key),
    ensures
        sorted_by_key(sorted_insert(s, x, key), key),
    decreases s.len(),
{
    lemma_sorted_insert_len(s, x, key);
    if s.len() == 0 {
    } else if key(s.last()) <= key(x) {
        assert(forall|i: int| 0 <= i < s.len() ==> key(s[i]) <= key(x));
    } else {
        let d = s.drop_last();
        assert(sorted_by_key(d, key));
        lemma_sorted_insert_sorted(d, x, key);
        assert(forall|i: int| 0 <= i < d.len() ==> key(d[i]) <= key(s.last()));
        lemma_sorted_insert_key_le(d, x, key, key(s.last()));
    }
}

/// The stable sort is sorted: output rows are non-decreasing in the sort
/// key.
pub proof fn lemma_stable_sorted_sorted<T>(s: Seq<T>, key: spec_fn(T) -> int)
    ensures
        sorted_by_key(stable_sorted(s, key), key),
    decreases s.len(),
{
    if s.len() > 0 {
        lemma_stable_sorted_sorted(s.drop_last(), key);
        lemma_sorted_insert_sorted(stable_sorted(s.drop_last(), key), s.last(), key);
    }
}

pub proof fn lemma_sorted_insert_multiset<T>(s: Seq<T>, x: T, key: spec_fn(T) -> int)
    ensures
        sorted_insert(s, x, key).to_multiset() == s.to_multiset().insert(x),
    decreases s.len(),
{
    broadcast use vstd::seq_lib::group_to_multiset_ensures;

    if s.len() == 0 {
        assert(seq![x] == Seq::empty().push(x));
    } else if key(s.last()) <= key(x) {
    } else {
        lemma_sorted_insert_multiset(s.drop_last(), x, key);
        assert(s.drop_last().push(s.last()) =~= s);
        assert(sorted_insert(s.drop_last(), x, key).push(s.last()).to_multiset() =~= s.to_multiset().insert(x));
    }
}

/// The stable sort is a permutation of its input.
pub proof fn lemma_stable_sorted_multiset<T>(s: Seq<T>, key: spec_fn(T) -> int)
    ensures
        stable_sorted(s, key).to_multiset() == s.to_multiset(),
    decreases s.len(),
{
    broadcast use vstd::seq_lib::group_to_multiset_ensures;

    if s.len() > 0 {
        lemma_stable_sorted_multiset(s.drop_last(), key);
        lemma_sorted_insert_multiset(stable_sorted(s.drop_last(), key), s.last(), key);
        assert(s.drop_last().push(s.last()) =~= s);
        assert(stable_sorted(s, key).to_multiset() =~= s.to_multiset());
    }
}

/// Every element of the stable sort is an element of the input.
pub proof fn lemma_stable_sorted_contains<T>(s: Seq<T>, key: spec_fn(T) -> int)
    ensures
        forall|i: int|
            0 <= i < stable_sorted(s, key).len() ==> s.contains(#[trigger] stable_sorted(s, key)[i]),
{
    broadcast use vstd::seq_lib::group_to_multiset_ensures;

    lemma_stable_sorted_multiset(s, key);
    let t = stable_sorted(s, key);
    assert forall|i: int| 0 <= i < t.len() implies s.contains(#[trigger] t[i]) by {
        assert(t.to_multiset().contains(t[i]));
    }
}

pub proof fn lemma_sorted_insert_filter<T>(s: Seq<T>, x: T, key: spec_fn(T) -> int, k: int)
    ensures
        sorted_insert(s, x, key).filter(key_eq_pred(key, k)) == if key(x) == k {
            s.filter(key_eq_pred(key, k)).push(x)
        } else {
            s.filter(key_eq_pred(key, k))
        },
    decreases s.len(),
{
    reveal(Seq::filter);
    broadcast use lemma_push_drop_last;

    let pred = key_eq_pred(key, k);
    if s.len() == 0 {
        assert(seq![x] == Seq::empty().push(x));
        assert(Seq::<T>::empty().filter(pred) == Seq::<T>::empty());
    } else if key(s.last()) <= key(x) {
    } else {
        lemma_sorted_insert_filter(s.drop_last(), x, key, k);
        // in this branch key(s.last()) > key(x), so if key(x) == k the last
        // element does not match the filter
        if key(x) == k {
            assert(!pred(s.last()));
        }
    }
}

/// Stability: the elements of any one key keep their relative order, so the
/// subsequence of a given key in the sorted output equals the subsequence of
/// that key in the input.
pub proof fn lemma_stable_sorted_stable<T>(s: Seq<T>, key: spec_fn(T) -> int, k: int)
    ensures
        stable_sorted(s, key).filter(key_eq_pred(key, k)) == s.filter(key_eq_pred(key, k)),
    decreases s.len(),
{
    reveal(Seq::filter);
    broadcast use lemma_push_drop_last;

    let pred = key_eq_pred(key, k);
    if s.len() > 0 {
        lemma_stable_sorted_stable(s.drop_last(), key, k);
        lemma_sorted_insert_filter(stable_sorted(s.drop_last(), key), s.last(), key, k);
    }
}

/// Computes where `sorted_insert` places the new element: directly after
/// every element whose key is at most the new element's.
pub proof fn lemma_sorted_insert_at<T>(s: Seq<T>, x: T, key: spec_fn(T) -> int, j: int)
    requires
        0 <= j <= s.len(),
        forall|i: int| 0 <= i < j ==> key(s[i]) <= key(x),
        forall|i: int| j <= i < s.len() ==> key(s[i]) > key(x),
    ensures
        sorted_insert(s, x, key) == s.insert(j, x),
    decreases s.len(),
{
    if s.len() == 0 {
        assert(seq![x] =~= s.insert(0, x));
    } else if key(s.last()) <= key(x) {
        assert(j == s.len());
        assert(s.push(x) =~= s.insert(j, x));
    } else {
        assert(j < s.len());
        lemma_sorted_insert_at(s.drop_last(), x, key, j);
        assert(s.drop_last().insert(j, x).push(s.last()) =~= s.insert(j, x));
    }
}

// ---------------------------------------------------------------------------
// Bucket grouping.
//
// The grouped-by-mass-to-charge view collects the distinct buckets of a
// sequence of already-rounded mass-to-charge values, in ascending order.
// ---------------------------------------------------------------------------

/// The sequence is strictly increasing: sorted, with no duplicates.
pub open spec fn sorted_unique(s: Seq<u64>) -> bool {
    forall|i: int, j: int| 0 <= i < j < s.len() ==> s[i] < s[j]
}

/// Inserts a bucket value into a strictly increasing sequence, keeping it
/// strictly increasing; a value already present leaves the sequence
/// unchanged.
pub open spec fn insert_bucket(bs: Seq<u64>, b: u64) -> Seq<u64>
    decreases bs.len(),
{
    if bs.len() == 0 {
        seq![b]
    } else if bs.last() == b {
        bs
    } else if bs.last() < b {
        bs.push(b)
    } else {
        insert_bucket(bs.drop_last(), b).push(bs.last())
    }
}

/// The ascending sequence of distinct buckets occurring in `ms`.
pub open spec fn buckets_of(ms: Seq<u64>) -> Seq<u64>
    decreases ms.len(),
{
    if ms.len() == 0 {
        Seq::empty()
    } else {
        insert_bucket(buckets_of(ms.drop_last()), ms.last())
    }
}

pub proof fn lemma_insert_bucket_contains(bs: Seq<u64>, b: u64, y: u64)
    ensures
        insert_bucket(bs, b).contains(y) <==> (bs.contains(y) || y == b),
    decreases bs.len(),
{
    broadcast use lemma_push_drop_last;
    broadcast use vstd::seq_lib::lemma_seq_contains_after_push;

    if bs.len() == 0 {
        assert(seq![b] =~= Seq::<u64>::empty().push(b));
        assert(Seq::<u64>::empty().push(b).contains(y) <==> y == b);
    } else if bs.last() == b {
        assert(bs.contains(b)) by {
            assert(bs[bs.len() - 1] == b);
        }
    } else if bs.last() < b {
        assert(bs.push(b).contains(y) <==> (y == b || bs.contains(y)));
    } else {
        lemma_insert_bucket_contains(bs.drop_last(), b, y);
        let t = insert_bucket(bs.drop_last(), b);
        assert(t.push(bs.last()).contains(y) <==> (y == bs.last() || t.contains(y)));
        assert(bs.drop_last().push(bs.last()) =~= bs);
        assert(bs.drop_last().push(bs.last()).contains(y) <==> (y == bs.last()
            || bs.drop_last().contains(y)));
    }
}

pub proof fn lemma_insert_bucket_le(bs: Seq<u64>, b: u64, bound: u64)
    requires
        forall|i: int| 0 <= i < bs.len() ==> bs[i] < bound,
        b < bound,
    ensures
        forall|i: int| 0 <= i < insert_bucket(bs, b).len() ==> insert_bucket(bs, b)[i] < bound,
    decreases bs.len(),
{
    let t = insert_bucket(bs, b);
    if bs.len() == 0 {
        assert(t =~= seq![b]);
    } else if bs.last() == b {
    } else if bs.last() < b {
        assert forall|i: int| 0 <= i < t.len() implies t[i] < bound by {
            if i < bs.len() {
                assert(t[i] == bs[i]);
            } else {
                assert(t[i] == b);
            }
        }
    } else {
        let d = bs.drop_last();
        assert(forall|i: int| 0 <= i < d.len() ==> #[trigger] d[i] < bound) by {
            assert(forall|i: int| 0 <= i < d.len() ==> #[trigger] d[i] == bs[i]);
        }
        lemma_insert_bucket_le(d, b, bound);
        let u = insert_bucket(d, b);
        assert forall|i: int| 0 <= i < t.len() implies t[i] < bound by {
            if i < u.len() {
                assert(t[i] == u[i]);
            } else {
                assert(t[i] == bs.last());
                assert(bs[bs.len() - 1] < bound);
            }
        }
    }
}

/// Inserting a bucket keeps the sequence strictly increasing.
pub proof fn lemma_insert_bucket_sorted(bs: Seq<u64>, b: u64)
    requires
        sorted_unique(bs),
    ensures
        sorted_unique(insert_bucket(bs, b)),
    decreases bs.len(),
{
    if bs.len() == 0 {
    } else if bs.last() == b {
    } else if bs.last() < b {
        assert(forall|i: int| 0 <= i < bs.len() ==> #[trigger] bs[i] <= bs.last()) by {
            assert(forall|i: int| 0 <= i < bs.len() - 1 ==> #[trigger] bs[i] < bs[bs.len() - 1]);
        }
    } else {
        let d = bs.drop_last();
        assert(sorted_unique(d));
        lemma_insert_bucket_sorted(d, b);
        assert(forall|i: int| 0 <= i < d.len() ==> d[i] < bs.last());
        lemma_insert_bucket_le(d, b, bs.last());
    }
}

/// The collected buckets are strictly increasing.
pub proof fn lemma_buckets_sorted(ms: Seq<u64>)
    ensures
        sorted_unique(buckets_of(ms)),
    decreases ms.len(),
{
    if ms.len() > 0 {
        lemma_buckets_sorted(ms.drop_last());
        lemma_insert_bucket_sorted(buckets_of(ms.drop_last()), ms.last());
    }
}

/// The collected buckets are exactly the values occurring in the input.
pub proof fn lemma_buckets_contains(ms: Seq<u64>, y: u64)
    ensures
        buckets_of(ms).contains(y) <==> ms.contains(y),
    decreases ms.len(),
{
    broadcast use vstd::seq_lib::lemma_seq_contains_after_push;

    if ms.len() > 0 {
        lemma_buckets_contains(ms.drop_last(), y);
        lemma_insert_bucket_contains(buckets_of(ms.drop_last()), ms.last(), y);
        assert(ms.drop_last().push(ms.last()) =~= ms);
        assert(ms.drop_last().push(ms.last()).contains(y) <==> (y == ms.last()
            || ms.drop_last().contains(y)));
    }
}

/// A value already present leaves the bucket sequence unchanged.
pub proof fn lemma_insert_bucket_found(bs: Seq<u64>, b: u64, j: int)
    requires
        sorted_unique(bs),
        0 <= j < bs.len(),
        bs[j] == b,
    ensures
        insert_bucket(bs, b) == bs,
    decreases bs.len(),
{
    if bs.last() == b {
    } else if bs.last() < b {
        assert(j < bs.len() - 1 ==> bs[j] < bs.last());
        assert(false);
    } else {
        assert(j < bs.len() - 1) by {
            assert(bs[bs.len() - 1] == bs.last());
        }
        lemma_insert_bucket_found(bs.drop_last(), b, j);
        assert(bs.drop_last().push(bs.last()) =~= bs);
    }
}

/// A value not present is inserted at its sorted position.
pub proof fn lemma_insert_bucket_at(bs: Seq<u64>, b: u64, j: int)
    requires
        sorted_unique(bs),
        0 <= j <= bs.len(),
        forall|i: int| 0 <= i < j ==> bs[i] < b,
        forall|i: int| j <= i < bs.len() ==> bs[i] > b,
    ensures
        insert_bucket(bs, b) == bs.insert(j, b),
    decreases bs.len(),
{
    if bs.len() == 0 {
        assert(seq![b] =~= bs.insert(0, b));
    } else if bs.last() == b {
        assert(false);
    } else if bs.last() < b {
        assert(j == bs.len());
        assert(bs.push(b) =~= bs.insert(j, b));
    } else {
        assert(j < bs.len());
        lemma_insert_bucket_at(bs.drop_last(), b, j);
        assert(bs.drop_last().insert(j, b).push(bs.last()) =~= bs.insert(j, b));
    }
}

} // verus!
