//! The rectangular feature table and its row/column operations: column
//! projection, threshold masks, row selection by mask, and sorted unique
//! column values.

use crate::model;
use vstd::prelude::*;

verus! {

/// A rectangular table of feature keys, row-major.
#[derive(Debug)]
pub struct Data {
    pub rows: usize,
    pub cols: usize,
    pub data: Vec<Vec<u64>>,
}

impl View for Data {
    type V = Seq<Seq<u64>>;

    open spec fn view(&self) -> Seq<Seq<u64>> {
        self.data.deep_view()
    }
}

/// The deep view of a table indexes to the views of its rows.
pub proof fn lemma_table_view(v: Vec<Vec<u64>>)
    ensures
        v.deep_view().len() == v@.len(),
        forall|i: int| 0 <= i < v@.len() ==> #[trigger] v.deep_view()[i] == v@[i]@,
{
    assert forall|i: int| 0 <= i < v@.len() implies #[trigger] v.deep_view()[i] == v@[i]@ by {
        assert(v@[i].deep_view() =~= v@[i]@);
    }
}

/// Copies a row of keys.
fn copy_row(row: &Vec<u64>) -> (r: Vec<u64>)
    ensures
        r@ == row@,
{
    let mut out: Vec<u64> = Vec::new();
    let mut i: usize = 0;
    while i < row.len()
        invariant
            i <= row.len(),
            out@ == row@.take(i as int),
        decreases row.len() - i,
    {
        out.push(row[i]);
        i = i + 1;
        proof {
            assert(out@ =~= row@.take(i as int));
        }
    }
    proof {
        assert(row@.take(row@.len() as int) =~= row@);
    }
    out
}

impl Data {
    /// The stored row and column counts agree with the table itself.
    pub open spec fn wf(self) -> bool {
        &&& self@.len() == self.rows
        &&& crate::rectangular(self@, self.cols as int)
    }

    /// Wraps an already rectangular table. The first row fixes the width.
    pub fn from_data(data: Vec<Vec<u64>>) -> (r: Data)
        requires
            data.len() >= 1,
            crate::rectangular(data.deep_view(), data.deep_view()[0].len() as int),
        ensures
            r.wf(),
            r@ == data.deep_view(),
            r.rows == data.len(),
            r.cols == data.deep_view()[0].len(),
    {
        proof {
            lemma_table_view(data);
        }
        let rows: usize = data.len();
        let cols: usize = data[0].len();
        Data { rows, cols, data }
    }

    /// The ordered sequence of the entries of column `col_idx`.
    pub fn get_col(&self, col_idx: usize) -> (r: Vec<u64>)
        requires
            self.wf(),
            col_idx < self.cols,
        ensures
            r@.len() == self.rows,
            forall|i: int| 0 <= i < self.rows ==> #[trigger] r@[i] == self@[i][col_idx as int],
    {
        proof {
            lemma_table_view(self.data);
        }
        let mut out: Vec<u64> = Vec::new();
        let mut i: usize = 0;
        while i < self.rows
            invariant
                self.wf(),
                col_idx < self.cols,
                i <= self.rows,
                out@.len() == i,
                forall|k: int| 0 <= k < i ==> #[trigger] out@[k] == self@[k][col_idx as int],
                self.data@.len() == self.rows,
                forall|k: int| 0 <= k < self.rows ==> #[trigger] self.data@[k]@ == self@[k],
            decreases self.rows - i,
        {
            out.push(self.data[i][col_idx]);
            i = i + 1;
        }
        out
    }

    /// The boolean mask whose entry `i` says whether column `col_idx` of
    /// row `i` is at most `threshold`.
    pub fn lt_eq(&self, col_idx: usize, threshold: u64) -> (r: Vec<bool>)
        requires
            self.wf(),
            col_idx < self.cols,
        ensures
            r@ == model::le_mask(self@, col_idx as int, threshold),
    {
        let col_values = self.get_col(col_idx);
        let mut out: Vec<bool> = Vec::new();
        let mut i: usize = 0;
        while i < col_values.len()
            invariant
                col_values@.len() == self@.len(),
                forall|k: int|
                    0 <= k < self@.len() ==> #[trigger] col_values@[k] == self@[k][col_idx as int],
                i <= col_values@.len(),
                out@.len() == i,
                forall|k: int|
                    0 <= k < i ==> #[trigger] out@[k] == (self@[k][col_idx as int] <= threshold),
            decreases col_values.len() - i,
        {
            out.push(col_values[i] <= threshold);
            i = i + 1;
        }
        proof {
            assert(out@ =~= model::le_mask(self@, col_idx as int, threshold));
        }
        out
    }

    /// The sub-table of the rows whose mask entry is set, in their original
    /// order, with the column count kept.
    pub fn get_rows(&self, row_idx: Vec<bool>) -> (r: Data)
        requires
            self.wf(),
            row_idx@.len() == self.rows,
        ensures
            r.wf(),
            r.cols == self.cols,
            r@ == model::filter_mask(self@, row_idx@, true),
    {
        proof {
            lemma_table_view(self.data);
        }
        let mut out: Vec<Vec<u64>> = Vec::new();
        let mut i: usize = 0;
        while i < self.rows
            invariant
                self.wf(),
                row_idx@.len() == self.rows,
                i <= self.rows,
                self.data@.len() == self.rows,
                forall|k: int| 0 <= k < self.rows ==> #[trigger] self.data@[k]@ == self@[k],
                out.deep_view() == model::filter_mask(
                    self@.take(i as int),
                    row_idx@.take(i as int),
                    true,
                ),
                forall|k: int| 0 <= k < out@.len() ==> #[trigger] out@[k]@.len() == self.cols,
            decreases self.rows - i,
        {
            proof {
                model::lemma_filter_mask_step(self@, row_idx@, i as int, true);
                lemma_table_view(out);
            }
            let ghost prev = out.deep_view();
            if row_idx[i] {
                let row = copy_row(&self.data[i]);
                out.push(row);
                proof {
                    lemma_table_view(out);
                    assert(out.deep_view() =~= prev.push(self@[i as int]));
                }
            }
            i = i + 1;
        }
        proof {
            assert(self@.take(self.rows as int) =~= self@);
            assert(row_idx@.take(self.rows as int) =~= row_idx@);
        }
        let result_rows: usize = out.len();
        let r = Data { rows: result_rows, cols: self.cols, data: out };
        proof {
            lemma_table_view(r.data);
        }
        r
    }

    /// The distinct values of column `col`, in strictly ascending order:
    /// exact duplicates collapse to one candidate threshold.
    pub fn unique(&self, col: usize) -> (r: Vec<u64>)
        requires
            self.wf(),
            col < self.cols,
        ensures
            forall|a: int, b: int| 0 <= a < b < r@.len() ==> r@[a] < r@[b],
            forall|v: u64| #[trigger]
                r@.contains(v) <==> exists|i: int| 0 <= i < self@.len() && self@[i][col as int] == v,
    {
        let col_values = self.get_col(col);
        let mut out: Vec<u64> = Vec::new();
        let mut i: usize = 0;
        while i < col_values.len()
            invariant
                col_values@.len() == self@.len(),
                forall|k: int|
                    0 <= k < self@.len() ==> #[trigger] col_values@[k] == self@[k][col as int],
                i <= col_values@.len(),
                forall|a: int, b: int| 0 <= a < b < out@.len() ==> out@[a] < out@[b],
                forall|v: u64| #[trigger]
                    out@.contains(v) <==> exists|k: int| 0 <= k < i && col_values@[k] == v,
            decreases col_values.len() - i,
        {
            let v = col_values[i];
            let ghost prev = out@;
            let mut p: usize = 0;
            while p < out.len() && out[p] < v
                invariant
                    p <= out@.len(),
                    forall|q: int| 0 <= q < p ==> #[trigger] out@[q] < v,
                decreases out.len() - p,
            {
                p = p + 1;
            }
            if p == out.len() || out[p] > v {
                out.insert(p, v);
                proof {
                    prev.insert_ensures(p as int, v);
                    assert forall|a: int, b: int| 0 <= a < b < out@.len() implies out@[a]
                        < out@[b] by {
                        if b < p {
                            assert(out@[a] == prev[a] && out@[b] == prev[b]);
                        } else if a > p {
                            assert(out@[a] == prev[a - 1] && out@[b] == prev[b - 1]);
                        } else if a < p && b == p {
                            assert(out@[a] == prev[a] && prev[a] < v);
                        } else if a == p && b > p {
                            assert(out@[b] == prev[b - 1] && p < prev.len() + 1);
                            assert(prev[b - 1] >= prev[p as int]);
                        } else if a < p && b > p {
                            assert(out@[a] == prev[a] && out@[b] == prev[b - 1]);
                            assert(prev[b - 1] >= prev[p as int]);
                        }
                    }
                    assert forall|w: u64| out@.contains(w) <==> (prev.contains(w) || w == v) by {
                        assert(out@ =~= prev.insert(p as int, v));
                        if prev.contains(w) {
                            let q = choose|q: int| 0 <= q < prev.len() && prev[q] == w;
                            if q < p {
                                assert(out@[q] == w);
                            } else {
                                assert(out@[q + 1] == w);
                            }
                        }
                        if out@.contains(w) {
                            let q = choose|q: int| 0 <= q < out@.len() && out@[q] == w;
                            if q < p {
                                assert(prev[q] == w);
                            } else if q > p {
                                assert(prev[q - 1] == w);
                            }
                        }
                        if w == v {
                            assert(out@[p as int] == v);
                        }
                    }
                }
            } else {
                proof {
                    assert(out@[p as int] == v);
                    assert(out@.contains(v));
                }
            }
            proof {
                let ii = i as int;
                assert forall|w: u64| out@.contains(w) implies exists|k: int|
                    0 <= k < ii + 1 && col_values@[k] == w by {
                    if prev.contains(w) {
                        let k = choose|k: int| 0 <= k < ii && col_values@[k] == w;
                        assert(0 <= k < ii + 1 && col_values@[k] == w);
                    } else {
                        assert(w == v);
                        assert(col_values@[ii] == v);
                    }
                }
                assert forall|w: u64, k: int|
                    0 <= k < ii + 1 && col_values@[k] == w implies out@.contains(w) by {
                    if k < ii {
                        assert(prev.contains(w));
                    } else {
                        assert(w == v);
                    }
                    assert(out@.contains(w));
                }
            }
            i = i + 1;
        }
        proof {
            assert forall|v: u64| out@.contains(v) implies exists|ii: int|
                0 <= ii < self@.len() && self@[ii][col as int] == v by {
                let k = choose|k: int| 0 <= k < col_values@.len() && col_values@[k] == v;
                assert(self@[k][col as int] == v);
            }
            assert forall|v: u64, ii: int|
                0 <= ii < self@.len() && self@[ii][col as int] == v implies out@.contains(v) by {
                assert(col_values@[ii] == v);
            }
        }
        out
    }
}

} // verus!
