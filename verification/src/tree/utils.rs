//! Impurity scoring and the exhaustive split search: class-probability
//! distributions as exact counts, Gini impurity as an exact rational, label
//! partitioning, and the weighted-score minimization over all observed
//! `(column, threshold)` candidates.

use crate::data::Data;
use crate::model;
use vstd::prelude::*;

verus! {

/// An exact non-negative rational, `num / den`.
#[derive(Clone, Copy, Debug, PartialEq, Eq)]
pub struct Ratio {
    pub num: u64,
    pub den: u64,
}

/// The class-probability distribution of a label vector, kept exact: one
/// `(class, count)` entry per observed class in ascending class order, over
/// a common `total`. The probability of a class is its count over `total`.
#[derive(Debug, PartialEq, Eq)]
pub struct Distribution {
    pub entries: Vec<(u8, u64)>,
    pub total: u64,
}

impl Distribution {
    /// This distribution is exactly the one counted from `y`.
    pub open spec fn is_dist_of(self, y: Seq<u8>) -> bool {
        &&& self.entries@ == model::dist_of(y)
        &&& self.total == y.len()
    }

    /// A distribution of at least one sample: classes strictly ascending,
    /// every count positive, and the counts summing to the total.
    pub open spec fn wf(self) -> bool {
        &&& self.entries@.len() >= 1
        &&& forall|a: int, b: int|
            0 <= a < b < self.entries@.len() ==> (#[trigger] self.entries@[a]).0
                < (#[trigger] self.entries@[b]).0
        &&& forall|k: int| 0 <= k < self.entries@.len() ==> (#[trigger] self.entries@[k]).1 >= 1
        &&& model::entries_total(self.entries@) == self.total
        &&& self.total >= 1
    }

    /// Copies a distribution.
    pub fn duplicate(&self) -> (r: Distribution)
        ensures
            r.entries@ == self.entries@,
            r.total == self.total,
    {
        let mut entries: Vec<(u8, u64)> = Vec::new();
        let mut i: usize = 0;
        while i < self.entries.len()
            invariant
                i <= self.entries@.len(),
                entries@ == self.entries@.take(i as int),
            decreases self.entries.len() - i,
        {
            entries.push(self.entries[i]);
            i = i + 1;
            proof {
                assert(entries@ =~= self.entries@.take(i as int));
            }
        }
        proof {
            assert(self.entries@.take(self.entries@.len() as int) =~= self.entries@);
        }
        Distribution { entries, total: self.total }
    }
}

/// The distribution counted from a non-empty label vector is well formed.
pub proof fn lemma_dist_of_wf(d: Distribution, y: Seq<u8>)
    requires
        d.is_dist_of(y),
        1 <= y.len() <= u64::MAX,
        model::entries_total(d.entries@) == y.len(),
    ensures
        d.wf(),
{
    model::lemma_dist_props(y, 256);
    model::lemma_dist_nonempty(y);
}

/// Computes the relative frequency of each class in `v`, as exact counts
/// over the common total `v.len()`. The keys are exactly the distinct
/// classes observed, ascending; the counts are positive and sum to the
/// total, so the recorded probabilities sum to one whenever `v` is
/// non-empty. An empty `v` yields the empty distribution.
pub fn get_probabilities(v: &Vec<u8>) -> (r: Distribution)
    ensures
        r.is_dist_of(v@),
        model::entries_total(r.entries@) == v@.len(),
{
    let mut counts: Vec<u64> = Vec::new();
    while counts.len() < 256
        invariant
            forall|c: int| 0 <= c < counts@.len() ==> #[trigger] counts@[c] == 0,
            counts@.len() <= 256,
        decreases 256 - counts.len(),
    {
        counts.push(0);
    }
    let mut i: usize = 0;
    proof {
        assert(v@.take(0).len() == 0);
    }
    while i < v.len()
        invariant
            i <= v@.len(),
            counts@.len() == 256,
            forall|c: int|
                0 <= c < 256 ==> #[trigger] counts@[c] == model::count_of(
                    v@.take(i as int),
                    c as u8,
                ),
        decreases v.len() - i,
    {
        let c = v[i];
        proof {
            model::lemma_count_le_len(v@.take(i as int), c);
            assert forall|d: u8|
                model::count_of(v@.take(i as int + 1), d) == model::count_of(
                    v@.take(i as int),
                    d,
                ) + if d == c {
                    1int
                } else {
                    0int
                } by {
                model::lemma_count_push(v@.take(i as int), c, d);
                assert(v@.take(i as int).push(c) =~= v@.take(i as int + 1));
            }
        }
        let idx = c as usize;
        let updated = counts[idx] + 1;
        counts.set(idx, updated);
        i = i + 1;
    }
    proof {
        assert(v@.take(v@.len() as int) =~= v@);
    }
    let mut entries: Vec<(u8, u64)> = Vec::new();
    let mut k: usize = 0;
    while k < 256
        invariant
            k <= 256,
            counts@.len() == 256,
            forall|c: int| 0 <= c < 256 ==> #[trigger] counts@[c] == model::count_of(v@, c as u8),
            entries@ == model::dist_upto(v@, k as int),
        decreases 256 - k,
    {
        if counts[k] > 0 {
            entries.push((k as u8, counts[k]));
        }
        k = k + 1;
    }
    proof {
        model::lemma_counts_total(v@);
        model::lemma_dist_total(v@, 256);
    }
    let total = v.len() as u64;
    Distribution { entries, total }
}

/// Computes the Gini impurity `1 - sum p^2` of a categorical vector as an
/// exact rational: `(len^2 - sum count^2) / len^2`. The impurity of an
/// empty vector is defined as zero.
pub fn gini_index(v: &Vec<u8>) -> (r: Ratio)
    requires
        v@.len() < 0x1_0000_0000,
    ensures
        r.den > 0,
        v@.len() == 0 ==> r.num == 0 && r.den == 1,
        v@.len() > 0 ==> r.num == model::gini_num(v@) && r.den == v@.len() * v@.len(),
{
    if v.len() == 0 {
        return Ratio { num: 0, den: 1 };
    }
    let d = get_probabilities(v);
    let n = v.len() as u64;
    proof {
        model::lemma_dist_sq(v@, 256);
        model::lemma_sum_sq_le(v@);
    }
    let mut sq: u64 = 0;
    let mut i: usize = 0;
    while i < d.entries.len()
        invariant
            i <= d.entries@.len(),
            d.entries@ == model::dist_of(v@),
            model::entries_sq(d.entries@) == model::sum_sq(v@),
            0 <= model::sum_sq(v@) <= v@.len() * v@.len(),
            v@.len() < 0x1_0000_0000,
            n == v@.len(),
            sq == model::entries_sq(d.entries@.take(i as int)),
        decreases d.entries.len() - i,
    {
        let c = d.entries[i].1;
        proof {
            model::lemma_entries_sq_mono(d.entries@, i as int + 1);
            assert(d.entries@.take(i as int + 1).drop_last() =~= d.entries@.take(i as int));
            assert(model::entries_sq(d.entries@.take(i as int + 1)) == sq + c as int * c as int);
            assert(v@.len() * v@.len() <= 0xFFFF_FFFF * 0xFFFF_FFFF) by (nonlinear_arith)
                requires
                    v@.len() < 0x1_0000_0000,
            ;
        }
        sq = sq + c * c;
        i = i + 1;
    }
    proof {
        assert(d.entries@.take(d.entries@.len() as int) =~= d.entries@);
        assert(n * n <= 0xFFFF_FFFF * 0xFFFF_FFFF && n * n > 0) by (nonlinear_arith)
            requires
                0 < n < 0x1_0000_0000,
        ;
    }
    let num = n * n - sq;
    let den = n * n;
    Ratio { num, den }
}

/// A partition of a dataset into the rows routed left and right by a mask.
pub struct Split {
    pub left_data: (Data, Vec<u8>),
    pub right_data: (Data, Vec<u8>),
}

/// Splits the labels by a boolean mask: entries with a set mask bit go
/// left, the rest go right, each side in its original order.
pub fn split_y(y: &Vec<u8>, idx: &Vec<bool>) -> (r: (Vec<u8>, Vec<u8>))
    requires
        idx@.len() == y@.len(),
    ensures
        r.0@ == model::filter_mask(y@, idx@, true),
        r.1@ == model::filter_mask(y@, idx@, false),
{
    let mut left_y: Vec<u8> = Vec::new();
    let mut right_y: Vec<u8> = Vec::new();
    let mut i: usize = 0;
    proof {
        assert(y@.take(0) =~= Seq::<u8>::empty());
        assert(idx@.take(0) =~= Seq::<bool>::empty());
    }
    while i < y.len()
        invariant
            idx@.len() == y@.len(),
            i <= y@.len(),
            left_y@ == model::filter_mask(y@.take(i as int), idx@.take(i as int), true),
            right_y@ == model::filter_mask(y@.take(i as int), idx@.take(i as int), false),
        decreases y.len() - i,
    {
        proof {
            model::lemma_filter_mask_step(y@, idx@, i as int, true);
            model::lemma_filter_mask_step(y@, idx@, i as int, false);
        }
        if idx[i] {
            left_y.push(y[i]);
        } else {
            right_y.push(y[i]);
        }
        i = i + 1;
    }
    proof {
        assert(y@.take(y@.len() as int) =~= y@);
        assert(idx@.take(y@.len() as int) =~= idx@);
    }
    (left_y, right_y)
}

/// Partitions a dataset by `left_idx`: the rows (and labels) whose mask bit
/// is set form the left pair, the complement forms the right pair. The two
/// sides' row counts sum to the input's.
pub fn get_split(x: &Data, y: &Vec<u8>, left_idx: Vec<bool>) -> (r: Split)
    requires
        x.wf(),
        y@.len() == x@.len(),
        left_idx@.len() == x@.len(),
    ensures
        r.left_data.0.wf(),
        r.right_data.0.wf(),
        r.left_data.0.cols == x.cols,
        r.right_data.0.cols == x.cols,
        r.left_data.0@ == model::filter_mask(x@, left_idx@, true),
        r.left_data.1@ == model::filter_mask(y@, left_idx@, true),
        r.right_data.0@ == model::filter_mask(x@, left_idx@, false),
        r.right_data.1@ == model::filter_mask(y@, left_idx@, false),
        r.left_data.0@.len() == r.left_data.1@.len(),
        r.right_data.0@.len() == r.right_data.1@.len(),
        r.left_data.0@.len() + r.right_data.0@.len() == x@.len(),
{
    let mut not_left_idx: Vec<bool> = Vec::new();
    let mut i: usize = 0;
    while i < left_idx.len()
        invariant
            i <= left_idx@.len(),
            not_left_idx@.len() == i,
            forall|k: int| 0 <= k < i ==> #[trigger] not_left_idx@[k] == !left_idx@[k],
        decreases left_idx.len() - i,
    {
        not_left_idx.push(!left_idx[i]);
        i = i + 1;
    }
    let (l_y, r_y) = split_y(y, &left_idx);
    let l_data = x.get_rows(left_idx);
    let r_data = x.get_rows(not_left_idx);
    proof {
        model::lemma_filter_mask_neg(x@, left_idx@, not_left_idx@, true);
        model::lemma_filter_mask_split(x@, left_idx@);
        model::lemma_filter_mask_split(y@, left_idx@);
        model::lemma_filter_same_len(x@, y@, left_idx@, true);
        model::lemma_filter_same_len(x@, y@, left_idx@, false);
    }
    Split { left_data: (l_data, l_y), right_data: (r_data, r_y) }
}

/// Decides `a < b` on exact rationals by cross-multiplication.
fn ratio_less(a: Ratio, b: Ratio) -> (r: bool)
    ensures
        r == model::ratio_lt(a.num as int, a.den as int, b.num as int, b.den as int),
{
    proof {
        assert(a.num as int * b.den as int <= 0xFFFF_FFFF_FFFF_FFFF * 0xFFFF_FFFF_FFFF_FFFF
            && b.num as int * a.den as int <= 0xFFFF_FFFF_FFFF_FFFF * 0xFFFF_FFFF_FFFF_FFFF)
            by (nonlinear_arith)
            requires
                a.num as int <= 0xFFFF_FFFF_FFFF_FFFF,
                b.num as int <= 0xFFFF_FFFF_FFFF_FFFF,
                a.den as int <= 0xFFFF_FFFF_FFFF_FFFF,
                b.den as int <= 0xFFFF_FFFF_FFFF_FFFF,
                a.num as int >= 0,
                b.num as int >= 0,
                a.den as int >= 0,
                b.den as int >= 0,
        ;
    }
    (a.num as u128) * (b.den as u128) < (b.num as u128) * (a.den as u128)
}

/// Exact weighted-Gini score of the candidate split `(j, t)`: the rational
/// `score_num / score_den` of the model, computed from the two sides'
/// exact Gini ratios as `w_left * gini_left + w_right * gini_right`.
fn candidate_score(x: &Data, y: &Vec<u8>, j: usize, t: u64) -> (r: Ratio)
    requires
        x.wf(),
        j < x.cols,
        y@.len() == x@.len(),
        x@.len() >= 1,
        y@.len() < 0x20_0000,
    ensures
        r.num == model::score_num(x@, y@, j as int, t),
        r.den == model::score_den(x@, y@, j as int, t),
        r.den > 0,
{
    let mask = x.lt_eq(j, t);
    let (l_y, r_y) = split_y(y, &mask);
    proof {
        model::lemma_filter_mask_split(y@, mask@);
    }
    let gl = gini_index(&l_y);
    let gr = gini_index(&r_y);
    let n = y.len() as u64;
    let n_l = l_y.len() as u64;
    let n_r = r_y.len() as u64;
    proof {
        model::lemma_filter_mask_split(y@, mask@);
        model::lemma_score_den_pos(x@, y@, j as int, t);
        model::lemma_sum_sq_le(l_y@);
        model::lemma_sum_sq_le(r_y@);
        assert(gl.num as int <= n_l as int * n_l as int && gr.num as int <= n_r as int
            * n_r as int);
        assert(gl.num as int * n_r as int + gr.num as int * n_l as int
            <= 0xFFFF_FFFF_FFFF_FFFF && n as int * n_l as int <= 0xFFFF_FFFF_FFFF_FFFF && n as int
            * n_r as int <= 0xFFFF_FFFF_FFFF_FFFF && n as int * n_l as int * n_r as int
            <= 0xFFFF_FFFF_FFFF_FFFF && gl.num as int * n_r as int >= 0 && gr.num as int
            * n_l as int >= 0) by (nonlinear_arith)
            requires
                0 <= (gl.num as int) && gl.num as int <= (n_l as int) * (n_l as int),
                0 <= (gr.num as int) && gr.num as int <= (n_r as int) * (n_r as int),
                (n_l as int) < 0x20_0000,
                (n_r as int) < 0x20_0000,
                (n as int) < 0x20_0000,
        ;
    }
    if n_r == 0 {
        Ratio { num: gl.num, den: n * n_l }
    } else if n_l == 0 {
        Ratio { num: gr.num, den: n * n_r }
    } else {
        Ratio { num: gl.num * n_r + gr.num * n_l, den: n * n_l * n_r }
    }
}

/// Searches every column and every observed threshold of it, and returns
/// the `(feature, threshold)` pair whose sample-weighted Gini score is
/// minimal; ties keep the candidate scanned first (columns in order,
/// thresholds ascending).
pub fn find_best_split(x: &Data, y: &Vec<u8>) -> (r: (usize, u64))
    requires
        x.wf(),
        y@.len() == x@.len(),
        x.rows >= 1,
        x.cols >= 1,
        y@.len() < 0x20_0000,
    ensures
        model::is_best_split(x@, y@, r.0 as int, r.1),
        r.0 < x.cols,
{
    let n_cols = x.cols;
    let mut col_idx: usize = 0;

    let mut best_feature: usize = 0;
    let mut best_threshold: u64 = 0;
    let mut best_score = Ratio { num: 0, den: 1 };
    let mut have_best = false;

    while col_idx < n_cols
        invariant
            x.wf(),
            y@.len() == x@.len(),
            x.rows >= 1,
            x.cols >= 1,
            y@.len() < 0x20_0000,
            n_cols == x.cols,
            col_idx <= n_cols,
            col_idx > 0 ==> have_best,
            have_best ==> best_feature < col_idx,
            have_best ==> model::is_candidate(x@, best_feature as int, best_threshold),
            have_best ==> best_score.num == model::score_num(
                x@,
                y@,
                best_feature as int,
                best_threshold,
            ) && best_score.den == model::score_den(x@, y@, best_feature as int, best_threshold)
                && best_score.den > 0,
            have_best ==> forall|j: int, i: int|
                0 <= j < col_idx && 0 <= i < x@.len() ==> model::beats(
                    x@,
                    y@,
                    best_feature as int,
                    best_threshold,
                    j,
                    #[trigger] x@[i][j],
                ),
        decreases n_cols - col_idx,
    {
        let u = x.unique(col_idx);
        let mut k: usize = 0;
        while k < u.len()
            invariant
                x.wf(),
                y@.len() == x@.len(),
                x.rows >= 1,
                x.cols >= 1,
                y@.len() < 0x20_0000,
                n_cols == x.cols,
                col_idx < n_cols,
                k <= u@.len(),
                forall|a: int, b: int| 0 <= a < b < u@.len() ==> u@[a] < u@[b],
                forall|v: u64| #[trigger]
                    u@.contains(v) <==> exists|i: int|
                        0 <= i < x@.len() && x@[i][col_idx as int] == v,
                col_idx > 0 || k > 0 ==> have_best,
                have_best ==> (best_feature < col_idx || (best_feature == col_idx && exists|m: int|
                    0 <= m < k && u@[m] == best_threshold)),
                have_best ==> model::is_candidate(x@, best_feature as int, best_threshold),
                have_best ==> best_score.num == model::score_num(
                    x@,
                    y@,
                    best_feature as int,
                    best_threshold,
                ) && best_score.den == model::score_den(x@, y@, best_feature as int, best_threshold)
                    && best_score.den > 0,
                have_best ==> forall|j: int, i: int|
                    0 <= j < col_idx && 0 <= i < x@.len() ==> model::beats(
                        x@,
                        y@,
                        best_feature as int,
                        best_threshold,
                        j,
                        #[trigger] x@[i][j],
                    ),
                have_best ==> forall|i: int, m: int|
                    #![trigger u@[m], x@[i][col_idx as int]]
                    0 <= i < x@.len() && 0 <= m < k && u@[m] == x@[i][col_idx as int]
                        ==> model::beats(
                        x@,
                        y@,
                        best_feature as int,
                        best_threshold,
                        col_idx as int,
                        x@[i][col_idx as int],
                    ),
            decreases u.len() - k,
        {
            let t = u[k];
            let s = candidate_score(x, y, col_idx, t);
            let ghost ob_f = best_feature as int;
            let ghost ob_t = best_threshold;
            let ghost ob = best_score;
            let ghost o_have = have_best;
            proof {
                assert(u@[k as int] == t);
                assert(u@.contains(t));
            }
            let is_better = if !have_best {
                true
            } else {
                ratio_less(s, best_score)
            };
            if is_better {
                best_feature = col_idx;
                best_threshold = t;
                best_score = s;
                have_best = true;
            }
            proof {
                let cj = col_idx as int;
                let xs = x@;
                let ys = y@;
                let sn = model::score_num(xs, ys, cj, t);
                let sd = model::score_den(xs, ys, cj, t);
                if is_better {
                    // the new best beats every candidate processed so far
                    if o_have {
                        assert forall|j: int, i: int| 0 <= j < cj && 0 <= i < xs.len()
                            implies model::beats(xs, ys, cj, t, j, #[trigger] xs[i][j]) by {
                            let pn = model::score_num(xs, ys, j, xs[i][j]);
                            let pd = model::score_den(xs, ys, j, xs[i][j]);
                            model::lemma_score_den_pos(xs, ys, j, xs[i][j]);
                            model::lemma_ratio_lt_le_trans(
                                sn,
                                sd,
                                ob.num as int,
                                ob.den as int,
                                pn,
                                pd,
                            );
                        }
                        assert forall|i: int, m: int|
                            #![trigger u@[m], xs[i][cj]]
                            0 <= i < xs.len() && 0 <= m < k && u@[m] == xs[i][cj]
                            implies model::beats(xs, ys, cj, t, cj, xs[i][cj]) by {
                            let pn = model::score_num(xs, ys, cj, xs[i][cj]);
                            let pd = model::score_den(xs, ys, cj, xs[i][cj]);
                            model::lemma_score_den_pos(xs, ys, cj, xs[i][cj]);
                            model::lemma_ratio_lt_le_trans(
                                sn,
                                sd,
                                ob.num as int,
                                ob.den as int,
                                pn,
                                pd,
                            );
                        }
                    }
                    assert(model::beats(xs, ys, cj, t, cj, t));
                } else {
                    // the kept best also beats the new candidate, which is
                    // scanned later than it
                    assert(model::ratio_le(ob.num as int, ob.den as int, sn, sd));
                    if ob_f == cj {
                        let m = choose|m: int| 0 <= m < k && u@[m] == ob_t;
                        assert(u@[m] < u@[k as int]);
                    }
                    assert(!model::earlier_cand(cj, t, ob_f, ob_t));
                    assert(model::beats(xs, ys, ob_f, ob_t, cj, t));
                }
            }
            k = k + 1;
        }
        proof {
            let cj = col_idx as int;
            assert(x@[0].len() == x.cols);
            assert(u@.contains(x@[0][cj]));
            assert(u@.len() > 0);
            assert(have_best);
            assert forall|j: int, i: int| 0 <= j < cj + 1 && 0 <= i < x@.len()
                implies model::beats(
                x@,
                y@,
                best_feature as int,
                best_threshold,
                j,
                #[trigger] x@[i][j],
            ) by {
                if j == cj {
                    let v = x@[i][cj];
                    assert(u@.contains(v));
                    let m = choose|m: int| 0 <= m < u@.len() && u@[m] == v;
                }
            }
        }
        col_idx = col_idx + 1;
    }
    proof {
        assert(x@[0].len() == x.cols);
    }
    (best_feature, best_threshold)
}

} // verus!
