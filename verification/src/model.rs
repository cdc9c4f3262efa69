//! The mathematical model of the classifier: class counts and distributions
//! of a label vector, boolean row masks and order-preserving filtering, and
//! exact rational comparison of weighted impurity scores.

use vstd::prelude::*;

verus! {

// ---------------------------------------------------------------------------
// Class counts and distributions
// ---------------------------------------------------------------------------

/// Number of occurrences of class `c` in `y`.
pub open spec fn count_of(y: Seq<u8>, c: u8) -> nat
    decreases y.len(),
{
    if y.len() == 0 {
        0
    } else {
        count_of(y.drop_last(), c) + if y.last() == c {
            1nat
        } else {
            0nat
        }
    }
}

/// Sum of the class counts of `y` over all classes below `k`.
pub open spec fn sum_counts_upto(y: Seq<u8>, k: int) -> int
    decreases k,
{
    if k <= 0 {
        0
    } else {
        sum_counts_upto(y, k - 1) + count_of(y, (k - 1) as u8)
    }
}

/// Sum of the squared class counts of `y` over all classes below `k`.
pub open spec fn sum_sq_upto(y: Seq<u8>, k: int) -> int
    decreases k,
{
    if k <= 0 {
        0
    } else {
        sum_sq_upto(y, k - 1) + count_of(y, (k - 1) as u8) * count_of(y, (k - 1) as u8)
    }
}

/// Sum of the squared class counts of `y` over the whole class space.
pub open spec fn sum_sq(y: Seq<u8>) -> int {
    sum_sq_upto(y, 256)
}

/// The `(class, count)` pairs of the classes below `k` observed in `y`,
/// in ascending class order.
pub open spec fn dist_upto(y: Seq<u8>, k: int) -> Seq<(u8, u64)>
    decreases k,
{
    if k <= 0 {
        Seq::empty()
    } else if count_of(y, (k - 1) as u8) > 0 {
        dist_upto(y, k - 1).push(((k - 1) as u8, count_of(y, (k - 1) as u8) as u64))
    } else {
        dist_upto(y, k - 1)
    }
}

/// The class distribution of `y` as exact counts: one `(class, count)` pair
/// per observed class, in ascending class order.
pub open spec fn dist_of(y: Seq<u8>) -> Seq<(u8, u64)> {
    dist_upto(y, 256)
}

/// Number of distinct classes observed in `y`.
pub open spec fn num_classes(y: Seq<u8>) -> int {
    dist_of(y).len() as int
}

/// Every sample of `y` carries one and the same class.
pub open spec fn single_class(y: Seq<u8>) -> bool {
    y.len() > 0 && forall|i: int| 0 <= i < y.len() ==> #[trigger] y[i] == y[0]
}

/// Appending one sample raises exactly its own class count by one.
pub proof fn lemma_count_push(y: Seq<u8>, v: u8, c: u8)
    ensures
        count_of(y.push(v), c) == count_of(y, c) + if v == c {
            1int
        } else {
            0int
        },
{
    assert(y.push(v).drop_last() =~= y);
}

/// A class occurs in `y` exactly when its count is positive.
pub proof fn lemma_count_contains(y: Seq<u8>, c: u8)
    ensures
        count_of(y, c) > 0 <==> y.contains(c),
    decreases y.len(),
{
    if y.len() > 0 {
        lemma_count_contains(y.drop_last(), c);
        if y.contains(c) && y.last() != c {
            let i = choose|i: int| 0 <= i < y.len() && y[i] == c;
            assert(y.drop_last()[i] == c);
        }
    }
}

/// A class count never exceeds the number of samples.
pub proof fn lemma_count_le_len(y: Seq<u8>, c: u8)
    ensures
        count_of(y, c) <= y.len(),
    decreases y.len(),
{
    if y.len() > 0 {
        lemma_count_le_len(y.drop_last(), c);
    }
}

/// No class below `k` occurs in the empty label vector.
pub proof fn lemma_sum_counts_empty(k: int)
    ensures
        sum_counts_upto(Seq::<u8>::empty(), k) == 0,
    decreases k,
{
    if k > 0 {
        lemma_sum_counts_empty(k - 1);
    }
}

/// Appending one sample adds one to the count sum that covers its class.
pub proof fn lemma_sum_counts_push(y: Seq<u8>, v: u8, k: int)
    requires
        k <= 256,
    ensures
        sum_counts_upto(y.push(v), k) == sum_counts_upto(y, k) + if (v as int) < k {
            1int
        } else {
            0int
        },
    decreases k,
{
    if k > 0 {
        lemma_sum_counts_push(y, v, k - 1);
        lemma_count_push(y, v, (k - 1) as u8);
    }
}

/// The class counts over the whole class space account for every sample.
pub proof fn lemma_counts_total(y: Seq<u8>)
    ensures
        sum_counts_upto(y, 256) == y.len(),
    decreases y.len(),
{
    if y.len() == 0 {
        assert(y =~= Seq::<u8>::empty());
        lemma_sum_counts_empty(256);
    } else {
        lemma_counts_total(y.drop_last());
        lemma_sum_counts_push(y.drop_last(), y.last(), 256);
        assert(y.drop_last().push(y.last()) =~= y);
    }
}

/// Sum of the counts recorded in a distribution's entries.
pub open spec fn entries_total(s: Seq<(u8, u64)>) -> int
    decreases s.len(),
{
    if s.len() == 0 {
        0
    } else {
        entries_total(s.drop_last()) + s.last().1
    }
}

/// Sum of the squared counts recorded in a distribution's entries.
pub open spec fn entries_sq(s: Seq<(u8, u64)>) -> int
    decreases s.len(),
{
    if s.len() == 0 {
        0
    } else {
        entries_sq(s.drop_last()) + s.last().1 as int * s.last().1 as int
    }
}

/// The entry counts of the distribution sum to the counts they record.
pub proof fn lemma_dist_total(y: Seq<u8>, k: int)
    requires
        y.len() <= u64::MAX,
    ensures
        entries_total(dist_upto(y, k)) == sum_counts_upto(y, k),
    decreases k,
{
    if k > 0 {
        lemma_dist_total(y, k - 1);
        lemma_count_le_len(y, (k - 1) as u8);
        if count_of(y, (k - 1) as u8) > 0 {
            assert(dist_upto(y, k).drop_last() =~= dist_upto(y, k - 1));
        }
    }
}

/// The squared entry counts of the distribution sum to the squared class
/// counts.
pub proof fn lemma_dist_sq(y: Seq<u8>, k: int)
    requires
        y.len() <= u64::MAX,
    ensures
        entries_sq(dist_upto(y, k)) == sum_sq_upto(y, k),
    decreases k,
{
    if k > 0 {
        lemma_dist_sq(y, k - 1);
        lemma_count_le_len(y, (k - 1) as u8);
        if count_of(y, (k - 1) as u8) > 0 {
            assert(dist_upto(y, k).drop_last() =~= dist_upto(y, k - 1));
        }
    }
}

/// Count sums are non-negative, and the sum of squared counts is at most
/// the squared count sum.
pub proof fn lemma_sq_bound(y: Seq<u8>, k: int)
    ensures
        0 <= sum_counts_upto(y, k),
        0 <= sum_sq_upto(y, k) <= sum_counts_upto(y, k) * sum_counts_upto(y, k),
    decreases k,
{
    if k > 0 {
        lemma_sq_bound(y, k - 1);
        let s = sum_counts_upto(y, k - 1);
        let q = sum_sq_upto(y, k - 1);
        let a = count_of(y, (k - 1) as u8) as int;
        assert(q + a * a <= (s + a) * (s + a) && (s + a) * (s + a) >= 0) by (nonlinear_arith)
            requires
                0 <= s,
                0 <= a,
                0 <= q <= s * s,
        ;
    }
}

/// The squared class counts of `y` sum to at most `len^2`; the Gini
/// numerator is therefore within `[0, len^2]`.
pub proof fn lemma_sum_sq_le(y: Seq<u8>)
    ensures
        0 <= sum_sq(y) <= y.len() * y.len(),
{
    lemma_counts_total(y);
    lemma_sq_bound(y, 256);
}

/// Every prefix of a distribution has a bounded, non-negative square sum.
pub proof fn lemma_entries_sq_mono(s: Seq<(u8, u64)>, i: int)
    requires
        0 <= i <= s.len(),
    ensures
        0 <= entries_sq(s.take(i)),
        entries_sq(s.take(i)) <= entries_sq(s),
    decreases s.len() - i,
{
    lemma_entries_sq_nonneg(s.take(i));
    if i == s.len() {
        assert(s.take(i) =~= s);
    } else {
        lemma_entries_sq_mono(s, i + 1);
        assert(s.take(i + 1).drop_last() =~= s.take(i));
        assert(entries_sq(s.take(i + 1)) == entries_sq(s.take(i)) + s[i].1 as int * s[i].1 as int);
        assert(s[i].1 as int * s[i].1 as int >= 0) by (nonlinear_arith);
    }
}

/// Square sums of entries are non-negative.
pub proof fn lemma_entries_sq_nonneg(s: Seq<(u8, u64)>)
    ensures
        0 <= entries_sq(s),
    decreases s.len(),
{
    if s.len() > 0 {
        lemma_entries_sq_nonneg(s.drop_last());
        let a = s.last().1 as int;
        assert(a * a >= 0) by (nonlinear_arith);
    }
}

/// Shape of a distribution's entries: classes strictly ascending and below
/// `k`, each count positive and exactly the class's count in `y`, and every
/// observed class below `k` present.
pub proof fn lemma_dist_props(y: Seq<u8>, k: int)
    requires
        y.len() <= u64::MAX,
        k <= 256,
    ensures
        forall|a: int, b: int|
            0 <= a < b < dist_upto(y, k).len() ==> (#[trigger] dist_upto(y, k)[a]).0
                < (#[trigger] dist_upto(y, k)[b]).0,
        forall|idx: int|
            0 <= idx < dist_upto(y, k).len() ==> ((#[trigger] dist_upto(y, k)[idx]).0 as int) < k
                && dist_upto(y, k)[idx].1 == count_of(y, dist_upto(y, k)[idx].0) && dist_upto(
                y,
                k,
            )[idx].1 >= 1,
        forall|c: u8|
            (c as int) < k && #[trigger] count_of(y, c) > 0 ==> exists|idx: int|
                0 <= idx < dist_upto(y, k).len() && (#[trigger] dist_upto(y, k)[idx]).0 == c,
    decreases k,
{
    if k > 0 {
        lemma_dist_props(y, k - 1);
        lemma_count_le_len(y, (k - 1) as u8);
        let prev = dist_upto(y, k - 1);
        let cur = dist_upto(y, k);
        if count_of(y, (k - 1) as u8) > 0 {
            assert(cur == prev.push(((k - 1) as u8, count_of(y, (k - 1) as u8) as u64)));
            assert forall|c: u8| (c as int) < k && #[trigger] count_of(y, c) > 0 implies exists|
                idx: int,
            | 0 <= idx < cur.len() && (#[trigger] cur[idx]).0 == c by {
                if (c as int) < k - 1 {
                    let idx = choose|idx: int| 0 <= idx < prev.len() && (#[trigger] prev[idx]).0 == c;
                    assert(cur[idx].0 == c);
                } else {
                    assert(cur[cur.len() - 1].0 == c);
                }
            }
        } else {
            assert forall|c: u8| (c as int) < k && #[trigger] count_of(y, c) > 0 implies exists|
                idx: int,
            | 0 <= idx < cur.len() && (#[trigger] cur[idx]).0 == c by {
                let idx = choose|idx: int| 0 <= idx < prev.len() && (#[trigger] prev[idx]).0 == c;
                assert(cur[idx].0 == c);
            }
        }
    }
}

/// A non-empty label vector has a non-empty distribution.
pub proof fn lemma_dist_nonempty(y: Seq<u8>)
    requires
        1 <= y.len() <= u64::MAX,
    ensures
        dist_of(y).len() >= 1,
{
    lemma_count_contains(y, y[0]);
    assert(y.contains(y[0]));
    lemma_dist_props(y, 256);
    assert(count_of(y, y[0]) > 0);
    let idx = choose|idx: int| 0 <= idx < dist_of(y).len() && dist_of(y)[idx].0 == y[0];
}

/// A label vector of one and the same class everywhere.
pub proof fn lemma_count_single(y: Seq<u8>, c: u8)
    requires
        forall|i: int| 0 <= i < y.len() ==> y[i] == c,
    ensures
        count_of(y, c) == y.len(),
    decreases y.len(),
{
    if y.len() > 0 {
        lemma_count_single(y.drop_last(), c);
    }
}

/// A label vector holds one distinct class exactly when its distribution
/// has one entry; that entry then counts every sample.
pub proof fn lemma_single_class_iff(y: Seq<u8>)
    requires
        1 <= y.len() <= u64::MAX,
    ensures
        single_class(y) <==> num_classes(y) == 1,
        single_class(y) ==> dist_of(y) == seq![(y[0], y.len() as u64)],
{
    lemma_dist_props(y, 256);
    lemma_dist_nonempty(y);
    if single_class(y) {
        let c0 = y[0];
        lemma_count_single(y, c0);
        assert forall|idx: int| 0 <= idx < dist_of(y).len() implies (#[trigger] dist_of(
            y,
        )[idx]).0 == c0 by {
            let c = dist_of(y)[idx].0;
            lemma_count_contains(y, c);
            let i = choose|i: int| 0 <= i < y.len() && y[i] == c;
        }
        if dist_of(y).len() >= 2 {
            assert(dist_of(y)[0].0 < dist_of(y)[1].0);
            assert(false);
        }
        assert(dist_of(y) =~= seq![(c0, y.len() as u64)]);
    }
    if num_classes(y) == 1 {
        let c0 = dist_of(y)[0].0;
        assert forall|i: int| 0 <= i < y.len() implies #[trigger] y[i] == y[0] by {
            lemma_count_contains(y, y[i]);
            assert(count_of(y, y[i]) > 0);
            let idx = choose|idx: int|
                0 <= idx < dist_of(y).len() && (#[trigger] dist_of(y)[idx]).0 == y[i];
            assert(y[i] == c0);
            lemma_count_contains(y, y[0]);
            let idx0 = choose|idx: int|
                0 <= idx < dist_of(y).len() && (#[trigger] dist_of(y)[idx]).0 == y[0];
            assert(y[0] == c0);
        }
    }
}

// ---------------------------------------------------------------------------
// Row masks and filtering
// ---------------------------------------------------------------------------

/// The boolean row mask whose entry `i` says whether column `j` of row `i`
/// is at most `t`.
pub open spec fn le_mask(x: Seq<Seq<u64>>, j: int, t: u64) -> Seq<bool> {
    Seq::new(x.len(), |i: int| x[i][j] <= t)
}

/// True when every entry of the mask is set.
pub open spec fn all_true(mask: Seq<bool>) -> bool {
    forall|i: int| 0 <= i < mask.len() ==> #[trigger] mask[i]
}

/// The entries `s[i]` with `mask[i] == keep`, in their original order.
pub open spec fn filter_mask<T>(s: Seq<T>, mask: Seq<bool>, keep: bool) -> Seq<T>
    decreases s.len(),
{
    if s.len() == 0 {
        Seq::empty()
    } else {
        let rest = filter_mask(s.drop_last(), mask.drop_last(), keep);
        if mask[s.len() - 1] == keep {
            rest.push(s.last())
        } else {
            rest
        }
    }
}

/// Filtering one more entry either appends it or leaves the result alone.
pub proof fn lemma_filter_mask_step<T>(s: Seq<T>, mask: Seq<bool>, i: int, keep: bool)
    requires
        0 <= i < s.len(),
        i < mask.len(),
    ensures
        filter_mask(s.take(i + 1), mask.take(i + 1), keep) == if mask[i] == keep {
            filter_mask(s.take(i), mask.take(i), keep).push(s[i])
        } else {
            filter_mask(s.take(i), mask.take(i), keep)
        },
{
    assert(s.take(i + 1).drop_last() =~= s.take(i));
    assert(mask.take(i + 1).drop_last() =~= mask.take(i));
}

/// The two halves of a partition account for every entry.
pub proof fn lemma_filter_mask_split<T>(s: Seq<T>, mask: Seq<bool>)
    ensures
        filter_mask(s, mask, true).len() + filter_mask(s, mask, false).len() == s.len(),
    decreases s.len(),
{
    if s.len() > 0 {
        lemma_filter_mask_split(s.drop_last(), mask.drop_last());
    }
}

/// An entry whose mask bit matches guarantees a non-empty filter result.
pub proof fn lemma_filter_mask_pos<T>(s: Seq<T>, mask: Seq<bool>, keep: bool, i: int)
    requires
        mask.len() == s.len(),
        0 <= i < s.len(),
        mask[i] == keep,
    ensures
        filter_mask(s, mask, keep).len() > 0,
    decreases s.len(),
{
    if i < s.len() - 1 {
        lemma_filter_mask_pos(s.drop_last(), mask.drop_last(), keep, i);
    }
}

/// Keeping by a negated mask is dropping by the original one.
pub proof fn lemma_filter_mask_neg<T>(s: Seq<T>, mask: Seq<bool>, neg: Seq<bool>, keep: bool)
    requires
        neg.len() == mask.len(),
        s.len() <= mask.len(),
        forall|i: int| 0 <= i < mask.len() ==> #[trigger] neg[i] == !mask[i],
    ensures
        filter_mask(s, neg, keep) == filter_mask(s, mask, !keep),
    decreases s.len(),
{
    if s.len() > 0 {
        lemma_filter_mask_neg(s.drop_last(), mask.drop_last(), neg.drop_last(), keep);
    }
}

/// Filtering two equally long sequences by one mask keeps them equally long.
pub proof fn lemma_filter_same_len<T, U>(s: Seq<T>, u: Seq<U>, mask: Seq<bool>, keep: bool)
    requires
        s.len() == u.len(),
    ensures
        filter_mask(s, mask, keep).len() == filter_mask(u, mask, keep).len(),
    decreases s.len(),
{
    if s.len() > 0 {
        lemma_filter_same_len(s.drop_last(), u.drop_last(), mask.drop_last(), keep);
    }
}

// ---------------------------------------------------------------------------
// Exact rational comparison
// ---------------------------------------------------------------------------

/// `n1 / d1 <= n2 / d2`, for positive denominators, by cross-multiplication.
pub open spec fn ratio_le(n1: int, d1: int, n2: int, d2: int) -> bool {
    n1 * d2 <= n2 * d1
}

/// `n1 / d1 < n2 / d2`, for positive denominators, by cross-multiplication.
pub open spec fn ratio_lt(n1: int, d1: int, n2: int, d2: int) -> bool {
    n1 * d2 < n2 * d1
}

pub proof fn lemma_ratio_lt_le_trans(n1: int, d1: int, n2: int, d2: int, n3: int, d3: int)
    by (nonlinear_arith)
    requires
        d1 > 0,
        d2 > 0,
        d3 > 0,
        ratio_lt(n1, d1, n2, d2),
        ratio_le(n2, d2, n3, d3),
    ensures
        ratio_lt(n1, d1, n3, d3),
{
}

// ---------------------------------------------------------------------------
// Split scores
// ---------------------------------------------------------------------------

/// Numerator of the Gini impurity of `y` over the denominator `len * len`:
/// `len^2 - sum of squared class counts`.
pub open spec fn gini_num(y: Seq<u8>) -> int {
    y.len() as int * y.len() as int - sum_sq(y)
}

/// Numerator of the sample-weighted Gini impurity of splitting `(x, y)` at
/// column `j`, threshold `t`; its denominator is `score_den`. A side with no
/// rows contributes nothing: its weight is zero.
pub open spec fn score_num(x: Seq<Seq<u64>>, y: Seq<u8>, j: int, t: u64) -> int {
    let m = le_mask(x, j, t);
    let l = filter_mask(y, m, true);
    let r = filter_mask(y, m, false);
    if r.len() == 0 {
        gini_num(l)
    } else if l.len() == 0 {
        gini_num(r)
    } else {
        gini_num(l) * r.len() as int + gini_num(r) * l.len() as int
    }
}

/// Denominator of the sample-weighted Gini impurity; positive whenever
/// `y` is non-empty and the mask matches `y` in length.
pub open spec fn score_den(x: Seq<Seq<u64>>, y: Seq<u8>, j: int, t: u64) -> int {
    let m = le_mask(x, j, t);
    let l = filter_mask(y, m, true);
    let r = filter_mask(y, m, false);
    if r.len() == 0 {
        y.len() as int * l.len() as int
    } else if l.len() == 0 {
        y.len() as int * r.len() as int
    } else {
        y.len() as int * l.len() as int * r.len() as int
    }
}

/// A non-empty label vector gives every candidate score a positive
/// denominator.
pub proof fn lemma_score_den_pos(x: Seq<Seq<u64>>, y: Seq<u8>, j: int, t: u64)
    requires
        y.len() == x.len(),
        y.len() >= 1,
    ensures
        score_den(x, y, j, t) > 0,
{
    let m = le_mask(x, j, t);
    let l = filter_mask(y, m, true);
    let r = filter_mask(y, m, false);
    lemma_filter_mask_split(y, m);
    let n = y.len() as int;
    if r.len() == 0 {
        assert(n * l.len() as int > 0) by (nonlinear_arith)
            requires
                n > 0,
                l.len() as int > 0,
        ;
    } else if l.len() == 0 {
        assert(n * r.len() as int > 0) by (nonlinear_arith)
            requires
                n > 0,
                r.len() as int > 0,
        ;
    } else {
        assert(n * l.len() as int * r.len() as int > 0) by (nonlinear_arith)
            requires
                n > 0,
                l.len() as int > 0,
                r.len() as int > 0,
        ;
    }
}

/// Candidate `(j1, t1)` is scanned before `(j2, t2)`: columns in order,
/// thresholds of one column in ascending order.
pub open spec fn earlier_cand(j1: int, t1: u64, j2: int, t2: u64) -> bool {
    j1 < j2 || (j1 == j2 && t1 < t2)
}

/// Threshold `t` is a value observed in column `j`.
pub open spec fn is_candidate(x: Seq<Seq<u64>>, j: int, t: u64) -> bool {
    &&& 0 <= j < x[0].len()
    &&& exists|i: int| 0 <= i < x.len() && x[i][j] == t
}

/// `(f, t)` scores no worse than the candidate `(j, x[i][j])`, and strictly
/// better than every candidate scanned before it.
pub open spec fn beats(x: Seq<Seq<u64>>, y: Seq<u8>, f: int, t: u64, j: int, u: u64) -> bool {
    &&& ratio_le(score_num(x, y, f, t), score_den(x, y, f, t), score_num(x, y, j, u), score_den(x, y, j, u))
    &&& earlier_cand(j, u, f, t) ==> ratio_lt(
        score_num(x, y, f, t),
        score_den(x, y, f, t),
        score_num(x, y, j, u),
        score_den(x, y, j, u),
    )
}

/// `(f, t)` is the split the exhaustive search returns: an observed
/// `(column, threshold)` pair whose weighted Gini score is minimal, the
/// first such pair in scan order.
pub open spec fn is_best_split(x: Seq<Seq<u64>>, y: Seq<u8>, f: int, t: u64) -> bool {
    &&& is_candidate(x, f, t)
    &&& forall|j: int, i: int|
        0 <= j < x[0].len() && 0 <= i < x.len() ==> beats(x, y, f, t, j, #[trigger] x[i][j])
}

/// A best split that does not route every row one way partitions both the
/// rows and the labels into two non-empty halves of matching lengths.
pub proof fn lemma_split_shape(x: Seq<Seq<u64>>, y: Seq<u8>, f: int, t: u64)
    requires
        x.len() == y.len(),
        is_best_split(x, y, f, t),
        !all_true(le_mask(x, f, t)),
    ensures
        filter_mask(y, le_mask(x, f, t), true).len() >= 1,
        filter_mask(y, le_mask(x, f, t), false).len() >= 1,
        filter_mask(x, le_mask(x, f, t), true).len() == filter_mask(
            y,
            le_mask(x, f, t),
            true,
        ).len(),
        filter_mask(x, le_mask(x, f, t), false).len() == filter_mask(
            y,
            le_mask(x, f, t),
            false,
        ).len(),
        filter_mask(y, le_mask(x, f, t), true).len() + filter_mask(y, le_mask(x, f, t), false).len()
            == y.len(),
{
    let m = le_mask(x, f, t);
    let wi = choose|i: int| 0 <= i < x.len() && x[i][f] == t;
    assert(m[wi] == true);
    lemma_filter_mask_pos(y, m, true, wi);
    let wj = choose|j: int| 0 <= j < m.len() && !m[j];
    lemma_filter_mask_pos(y, m, false, wj);
    lemma_filter_mask_split(y, m);
    lemma_filter_same_len(x, y, m, true);
    lemma_filter_same_len(x, y, m, false);
}

/// The count sum over the classes below `k` dominates each single count.
pub proof fn lemma_sum_counts_lb(y: Seq<u8>, k: int, c: u8)
    requires
        (c as int) < k,
    ensures
        sum_counts_upto(y, k) >= count_of(y, c),
    decreases k,
{
    lemma_sq_bound(y, k - 1);
    if (c as int) < k - 1 {
        lemma_sum_counts_lb(y, k - 1, c);
    }
}

/// Two distinct observed classes force the squared-count sum strictly
/// below the squared count sum.
pub proof fn lemma_sq_strict(y: Seq<u8>, k: int, c1: u8, c2: u8)
    requires
        c1 != c2,
        (c1 as int) < k,
        (c2 as int) < k,
        count_of(y, c1) > 0,
        count_of(y, c2) > 0,
    ensures
        sum_sq_upto(y, k) < sum_counts_upto(y, k) * sum_counts_upto(y, k),
    decreases k,
{
    let lo: u8 = if c1 <= c2 {
        c1
    } else {
        c2
    };
    let hi: u8 = if c1 <= c2 {
        c2
    } else {
        c1
    };
    let s = sum_counts_upto(y, k - 1);
    let q = sum_sq_upto(y, k - 1);
    let a = count_of(y, (k - 1) as u8) as int;
    lemma_sq_bound(y, k - 1);
    if (hi as int) < k - 1 {
        lemma_sq_strict(y, k - 1, c1, c2);
        assert(q + a * a < (s + a) * (s + a)) by (nonlinear_arith)
            requires
                q < s * s,
                0 <= s,
                0 <= a,
        ;
    } else {
        lemma_sum_counts_lb(y, k - 1, lo);
        assert(q + a * a < (s + a) * (s + a)) by (nonlinear_arith)
            requires
                q <= s * s,
                s > 0,
                a > 0,
        ;
    }
}

/// The Gini numerator of a non-empty label vector vanishes exactly when
/// every sample carries one and the same class; with two observed classes
/// it is strictly positive.
pub proof fn lemma_gini_zero_iff_single_class(y: Seq<u8>)
    requires
        1 <= y.len() <= u64::MAX,
    ensures
        gini_num(y) == 0 <==> single_class(y),
{
    lemma_counts_total(y);
    lemma_sum_sq_le(y);
    if single_class(y) {
        lemma_single_class_iff(y);
        lemma_dist_sq(y, 256);
        let e = seq![(y[0], y.len() as u64)];
        assert(e.drop_last() =~= Seq::<(u8, u64)>::empty());
        assert(e.len() == 1 && e.last() == (y[0], y.len() as u64));
        assert(entries_sq(e) == entries_sq(e.drop_last()) + e.last().1 as int * e.last().1 as int);
        assert(entries_sq(Seq::<(u8, u64)>::empty()) == 0);
        assert(entries_sq(e) == y.len() as int * y.len() as int);
    } else {
        let c0 = y[0];
        let i = choose|i: int| 0 <= i < y.len() && y[i] != c0;
        let c1 = y[i];
        lemma_count_contains(y, c0);
        lemma_count_contains(y, c1);
        assert(y.contains(c0) && y.contains(c1));
        lemma_sq_strict(y, 256, c0, c1);
    }
}

/// Every observed class occurs equally often.
pub open spec fn equiprobable(y: Seq<u8>) -> bool {
    forall|c1: u8, c2: u8|
        #[trigger] count_of(y, c1) > 0 && #[trigger] count_of(y, c2) > 0 ==> count_of(y, c1)
            == count_of(y, c2)
}

/// For every fresh count `a`, `a_i^2 + a^2 >= 2 a a_i` summed over the
/// entries.
proof fn lemma_entries_cross(e: Seq<(u8, u64)>, a: int)
    ensures
        entries_sq(e) + e.len() * a * a >= 2 * a * entries_total(e),
    decreases e.len(),
{
    if e.len() == 0 {
    } else {
        lemma_entries_cross(e.drop_last(), a);
        let q = entries_sq(e.drop_last());
        let s = entries_total(e.drop_last());
        let k = e.drop_last().len() as int;
        let b = e.last().1 as int;
        assert((q + k * a * a >= 2 * a * s && 0 <= b) ==> (q + b * b) + (k + 1) * a * a >= 2 * a * (
        s + b)) by (nonlinear_arith);
    }
}

/// The count of entries times the squared-count sum dominates the squared
/// count sum (the Cauchy-Schwarz bound for equal weights).
proof fn lemma_entries_cauchy(e: Seq<(u8, u64)>)
    ensures
        e.len() * entries_sq(e) >= entries_total(e) * entries_total(e),
    decreases e.len(),
{
    if e.len() > 0 {
        lemma_entries_cauchy(e.drop_last());
        let q = entries_sq(e.drop_last());
        let s = entries_total(e.drop_last());
        let k = e.drop_last().len() as int;
        let b = e.last().1 as int;
        lemma_entries_cross(e.drop_last(), b);
        assert((k * q >= s * s && q + k * b * b >= 2 * b * s) ==> (k + 1) * (q + b * b) >= (s + b)
            * (s + b)) by (nonlinear_arith);
    }
}

/// Sums of entries whose counts are all `m`.
proof fn lemma_entries_const(e: Seq<(u8, u64)>, m: int)
    requires
        forall|idx: int| 0 <= idx < e.len() ==> (#[trigger] e[idx]).1 == m,
    ensures
        entries_total(e) == e.len() * m,
        entries_sq(e) == e.len() * m * m,
    decreases e.len(),
{
    if e.len() > 0 {
        lemma_entries_const(e.drop_last(), m);
        let k = e.drop_last().len() as int;
        assert((k + 1) * m == k * m + m) by (nonlinear_arith);
        assert((k + 1) * m * m == k * m * m + m * m) by (nonlinear_arith);
    }
}

/// The Gini impurity of `k` observed classes is at most `1 - 1/k`, over
/// the common denominator `len^2`; equiprobable classes attain the bound.
pub proof fn lemma_gini_max_equiprobable(y: Seq<u8>)
    requires
        1 <= y.len() <= u64::MAX,
    ensures
        num_classes(y) * gini_num(y) <= (num_classes(y) - 1) * (y.len() * y.len()),
        equiprobable(y) ==> num_classes(y) * gini_num(y) == (num_classes(y) - 1) * (y.len()
            * y.len()),
{
    let e = dist_of(y);
    let k = e.len() as int;
    let n = y.len() as int;
    lemma_dist_total(y, 256);
    lemma_dist_sq(y, 256);
    lemma_counts_total(y);
    assert(entries_total(e) == n);
    assert(entries_sq(e) == sum_sq(y));
    lemma_entries_cauchy(e);
    assert(k * (n * n - sum_sq(y)) <= (k - 1) * (n * n)) by (nonlinear_arith)
        requires
            k * sum_sq(y) >= n * n,
    ;
    if equiprobable(y) {
        lemma_dist_props(y, 256);
        lemma_dist_nonempty(y);
        let m = e[0].1 as int;
        assert forall|idx: int| 0 <= idx < e.len() implies (#[trigger] e[idx]).1 == m by {
            assert(e[idx].1 == count_of(y, e[idx].0) && e[idx].1 >= 1);
            assert(e[0].1 == count_of(y, e[0].0) && e[0].1 >= 1);
            assert(count_of(y, e[idx].0) == count_of(y, e[0].0));
        }
        lemma_entries_const(e, m);
        assert(k * (n * n - sum_sq(y)) == (k - 1) * (n * n)) by (nonlinear_arith)
            requires
                sum_sq(y) == k * m * m,
                n == k * m,
        ;
    }
}

/// The scan order settles ties: only one candidate is minimal and strictly
/// better than everything scanned before it.
pub proof fn lemma_best_split_unique(x: Seq<Seq<u64>>, y: Seq<u8>, f1: int, t1: u64, f2: int, t2: u64)
    requires
        is_best_split(x, y, f1, t1),
        is_best_split(x, y, f2, t2),
    ensures
        f1 == f2 && t1 == t2,
{
    if f1 != f2 || t1 != t2 {
        let i1 = choose|i: int| 0 <= i < x.len() && x[i][f1] == t1;
        let i2 = choose|i: int| 0 <= i < x.len() && x[i][f2] == t2;
        assert(beats(x, y, f1, t1, f2, x[i2][f2]));
        assert(beats(x, y, f2, t2, f1, x[i1][f1]));
        if earlier_cand(f1, t1, f2, t2) {
            assert(false);
        } else {
            assert(earlier_cand(f2, t2, f1, t1));
            assert(false);
        }
    }
}

} // verus!
