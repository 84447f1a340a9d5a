//! The terrain's ring of frozen spectrum rows: one row per ridge that has
//! scrolled into view, newest overwriting oldest.

use vstd::prelude::*;

use crate::grid::{lemma_index_bounds, lemma_index_split};

verus! {

/// Number of ridges kept.
pub const NUM_RIDGES: usize = 40;

/// How many new ridges a ridge count brings: the increase over the last
/// count, at least zero and at most the number of rows.
pub open spec fn ridges_due_spec(prev: i64, current: i64, rows: nat) -> nat {
    let d = current - prev;
    if d <= 0 {
        0
    } else if d >= rows {
        rows
    } else {
        d as nat
    }
}

/// Whether row `r` is among the `due` rows written from position `w`.
pub open spec fn row_written(r: int, w: int, due: int, rows: int) -> bool {
    (r - w) % rows < due
}

/// A ring of `rows` rows of `cols` values, stored row-major.
pub struct RidgeHistory<T: Copy> {
    history: Vec<T>,
    rows: usize,
    cols: usize,
    write_idx: usize,
    prev_ridge_count: i64,
}

/// Model of a ridge history.
pub struct RidgeModel<T> {
    pub history: Seq<T>,
    pub rows: nat,
    pub cols: nat,
    pub write_idx: nat,
    pub prev_ridge_count: i64,
}

impl<T: Copy> View for RidgeHistory<T> {
    type V = RidgeModel<T>;

    closed spec fn view(&self) -> RidgeModel<T> {
        RidgeModel {
            history: self.history@,
            rows: self.rows as nat,
            cols: self.cols as nat,
            write_idx: self.write_idx as nat,
            prev_ridge_count: self.prev_ridge_count,
        }
    }
}

impl<T: Copy> RidgeHistory<T> {
    /// Dimensions are positive, the storage holds every row, and the write
    /// position is a row.
    pub closed spec fn wf(self) -> bool {
        &&& self.rows > 0
        &&& self.cols > 0
        &&& self.rows * self.cols <= usize::MAX
        &&& self.history@.len() == self.rows * self.cols
        &&& self.write_idx < self.rows
    }

    /// `rows` rows of `cols` copies of `fill`, writing from row 0, with no
    /// ridge counted yet.
    pub fn new(rows: usize, cols: usize, fill: T) -> (h: RidgeHistory<T>)
        requires
            rows > 0,
            cols > 0,
            rows * cols <= usize::MAX,
        ensures
            h.wf(),
            h@.rows == rows,
            h@.cols == cols,
            h@.write_idx == 0,
            h@.prev_ridge_count == 0,
            h@.history == Seq::new((rows * cols) as nat, |i: int| fill),
    {
        let n = rows * cols;
        let mut history: Vec<T> = Vec::new();
        while history.len() < n
            invariant
                history@.len() <= n,
                forall|k: int| 0 <= k < history@.len() ==> #[trigger] history@[k] == fill,
            decreases n - history@.len(),
        {
            history.push(fill);
        }
        let h = RidgeHistory { history, rows, cols, write_idx: 0, prev_ridge_count: 0 };
        assert(h@.history =~= Seq::new((rows * cols) as nat, |i: int| fill));
        h
    }

    pub fn history(&self) -> (h: &Vec<T>)
        ensures
            h@ == self@.history,
    {
        &self.history
    }

    pub fn prev_ridge_count(&self) -> (c: i64)
        ensures
            c == self@.prev_ridge_count,
    {
        self.prev_ridge_count
    }

    pub fn write_idx(&self) -> (w: usize)
        ensures
            w == self@.write_idx,
    {
        self.write_idx
    }

    /// Number of rows the ridge count `current_count` adds.
    pub fn ridges_due(&self, current_count: i64) -> (d: usize)
        requires
            self.wf(),
            i64::MIN <= current_count - self@.prev_ridge_count <= i64::MAX,
        ensures
            d == ridges_due_spec(self@.prev_ridge_count, current_count, self@.rows),
    {
        let diff = current_count - self.prev_ridge_count;
        if diff <= 0 {
            0
        } else if diff as u64 >= self.rows as u64 {
            self.rows
        } else {
            diff as usize
        }
    }

    /// Records the ridge count `current_count`: each new ridge stores `row`
    /// at the write position, which then moves on by one (wrapping).
    pub fn advance(&mut self, current_count: i64, row: &[T])
        requires
            old(self).wf(),
            i64::MIN <= current_count - old(self)@.prev_ridge_count <= i64::MAX,
            ridges_due_spec(old(self)@.prev_ridge_count, current_count, old(self)@.rows) > 0
                ==> row@.len() == old(self)@.cols,
        ensures
            final(self).wf(),
            ({
                let o = old(self)@;
                let due = ridges_due_spec(o.prev_ridge_count, current_count, o.rows);
                let n = final(self)@;
                &&& n.rows == o.rows
                &&& n.cols == o.cols
                &&& n.prev_ridge_count == current_count
                &&& n.write_idx == (o.write_idx + due) % o.rows
                &&& n.history.len() == o.history.len()
                &&& forall|i: int|
                    0 <= i < o.history.len() ==> #[trigger] n.history[i] == if row_written(
                        i / (o.cols as int),
                        o.write_idx as int,
                        due as int,
                        o.rows as int,
                    ) {
                        row@[i % (o.cols as int)]
                    } else {
                        o.history[i]
                    }
            }),
    {
        let due = self.ridges_due(current_count);
        let rows = self.rows;
        let cols = self.cols;
        let w0 = self.write_idx;
        let ghost h0 = self.history@;
        let mut t: usize = 0;
        proof {
            vstd::arithmetic::div_mod::lemma_fundamental_div_mod_converse(w0 as int, rows as int, 0, w0 as int);
            assert forall|i: int| 0 <= i < rows * cols implies !#[trigger] row_written(
                i / (cols as int),
                w0 as int,
                0,
                rows as int,
            ) by {
                vstd::arithmetic::div_mod::lemma_mod_bound(i / (cols as int) - w0, rows as int);
            }
        }
        while t < due
            invariant
                self.wf(),
                rows == self.rows,
                cols == self.cols,
                due <= rows,
                t <= due,
                w0 < rows,
                self.write_idx == (w0 + t) % (rows as int),
                self.prev_ridge_count == old(self).prev_ridge_count,
                due > 0 ==> row@.len() == cols,
                h0.len() == rows * cols,
                forall|i: int|
                    0 <= i < rows * cols ==> #[trigger] self.history@[i] == if row_written(
                        i / (cols as int),
                        w0 as int,
                        t as int,
                        rows as int,
                    ) {
                        row@[i % (cols as int)]
                    } else {
                        h0[i]
                    },
            decreases due - t,
        {
            let r = self.write_idx;
            let ghost before = self.history@;
            let mut c: usize = 0;
            while c < cols
                invariant
                    self.wf(),
                    rows == self.rows,
                    cols == self.cols,
                    r < rows,
                    r == self.write_idx,
                    self.prev_ridge_count == old(self).prev_ridge_count,
                    c <= cols,
                    row@.len() == cols,
                    self.history@.len() == rows * cols,
                    forall|i: int|
                        0 <= i < rows * cols ==> #[trigger] self.history@[i] == if i / (cols as int)
                            == r && i % (cols as int) < c {
                            row@[i % (cols as int)]
                        } else {
                            before[i]
                        },
                decreases cols - c,
            {
                proof {
                    lemma_index_bounds(c as int, r as int, cols as int, rows as int);
                    assert(rows * cols == cols * rows) by (nonlinear_arith);
                }
                let idx = r * cols + c;
                self.history.set(idx, row[c]);
                proof {
                    assert forall|i: int| 0 <= i < rows * cols implies #[trigger] self.history@[i]
                        == if i / (cols as int) == r && i % (cols as int) < c + 1 {
                        row@[i % (cols as int)]
                    } else {
                        before[i]
                    } by {
                        lemma_index_split(i, cols as int, rows as int);
                        if i != idx {
                            if i / (cols as int) == r && i % (cols as int) == c {
                                assert(i == r * cols + c);
                            }
                        }
                    }
                }
                c = c + 1;
            }
            proof {
                assert(rows * cols == cols * rows) by (nonlinear_arith);
                lemma_ring_step(w0 as int, t as int, rows as int);
                assert forall|i: int| 0 <= i < rows * cols implies #[trigger] self.history@[i]
                    == if row_written(i / (cols as int), w0 as int, t + 1, rows as int) {
                    row@[i % (cols as int)]
                } else {
                    h0[i]
                } by {
                    lemma_index_split(i, cols as int, rows as int);
                    let q = i / (cols as int);
                    lemma_ring_written(q, w0 as int, t as int, rows as int);
                }
            }
            self.write_idx = if r + 1 == rows {
                0
            } else {
                r + 1
            };
            t = t + 1;
        }
        self.prev_ridge_count = current_count;
    }
}

/// Moving the write position on by one from `(w + t) % rows`.
proof fn lemma_ring_step(w: int, t: int, rows: int)
    requires
        0 <= w < rows,
        0 <= t,
    ensures
        (if (w + t) % rows + 1 == rows {
            0
        } else {
            (w + t) % rows + 1
        }) == (w + t + 1) % rows,
{
    vstd::arithmetic::div_mod::lemma_fundamental_div_mod(w + t, rows);
    let q = (w + t) / rows;
    let m = (w + t) % rows;
    if m + 1 == rows {
        assert(w + t + 1 == (q + 1) * rows) by (nonlinear_arith)
            requires
                w + t == rows * q + m,
                m + 1 == rows,
        ;
        vstd::arithmetic::div_mod::lemma_fundamental_div_mod_converse(w + t + 1, rows, q + 1, 0);
    } else {
        assert(w + t + 1 == q * rows + (m + 1)) by (nonlinear_arith)
            requires
                w + t == rows * q + m,
        ;
        assert(0 <= m < rows) by {
            vstd::arithmetic::div_mod::lemma_mod_bound(w + t, rows);
        }
        vstd::arithmetic::div_mod::lemma_fundamental_div_mod_converse(w + t + 1, rows, q, m + 1);
    }
}

/// Row `q` is among the first `t + 1` rows written from `w` exactly when it
/// is among the first `t` or is the row written at step `t`.
proof fn lemma_ring_written(q: int, w: int, t: int, rows: int)
    requires
        0 <= q < rows,
        0 <= w < rows,
        0 <= t < rows,
    ensures
        row_written(q, w, t + 1, rows) <==> (row_written(q, w, t, rows) || q == (w + t) % rows),
{
    let d = q - w;
    let m = d % rows;
    vstd::arithmetic::div_mod::lemma_fundamental_div_mod(d, rows);
    vstd::arithmetic::div_mod::lemma_fundamental_div_mod(w + t, rows);
    if d >= 0 {
        vstd::arithmetic::div_mod::lemma_fundamental_div_mod_converse(d, rows, 0, d);
    } else {
        vstd::arithmetic::div_mod::lemma_fundamental_div_mod_converse(d, rows, -1, d + rows);
    }
    if w + t < rows {
        vstd::arithmetic::div_mod::lemma_fundamental_div_mod_converse(w + t, rows, 0, w + t);
    } else {
        vstd::arithmetic::div_mod::lemma_fundamental_div_mod_converse(w + t, rows, 1, w + t - rows);
    }
}

} // verus!
