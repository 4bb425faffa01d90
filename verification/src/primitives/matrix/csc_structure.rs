use vstd::prelude::*;
use crate::primitives::integer::Int;
use crate::primitives::integer::IntNonnegFitsInUsize;
use crate::util::has_value;

verus! {

/// The entries of a sparse row (or column): ascending indices and their values.
pub struct SparseRow<S, I> {
    pub indices: Vec<I>,
    pub values: Vec<S>,
}

impl<S, I: Int> SparseRow<S, I> {
    /// The row has as many values as indices, and its indices strictly
    /// increase and lie in `0..n`.
    pub open spec fn wf(&self, n: int) -> bool {
        &&& self.indices.len() == self.values.len()
        &&& forall|k: int| 0 <= k < self.indices.len() ==> 0 <= #[trigger] self.indices@[k].value() < n
        &&& forall|a: int, b: int|
            0 <= a < b < self.indices.len() ==> #[trigger] self.indices@[a].value() < #[trigger] self.indices@[b].value()
    }

    /// The row has an entry in column `c`.
    pub open spec fn has(&self, c: int) -> bool {
        exists|k: int| 0 <= k < self.indices.len() && #[trigger] self.indices@[k].value() == c
    }

    /// The row's value in column `c`, where it has one.
    pub open spec fn at(&self, c: int) -> S {
        self.values@[choose|k: int| 0 <= k < self.indices.len() && #[trigger] self.indices@[k].value() == c]
    }

    /// The (index, value) pairs of the row, in order.
    pub open spec fn pairs(&self) -> Seq<(int, S)> {
        segment(self.indices@, self.values@, 0, self.indices.len() as int)
    }

    /// The row's entry in column `c`: its value there, or `None`.
    pub open spec fn entry(&self, c: int) -> Option<S> {
        if self.has(c) {
            Some(self.at(c))
        } else {
            None
        }
    }
}

/// The stored entries of column `c`, as (row, value) pairs in storage order.
pub open spec fn column_of<S, I: Int>(cb: Seq<I>, ri: Seq<I>, vals: Seq<S>, c: int) -> Seq<(int, S)> {
    segment(ri, vals, cb[c].value(), cb[c + 1].value())
}

/// The (row, value) pairs stored at positions `lo..hi`.
pub open spec fn segment<S, I: Int>(ri: Seq<I>, vals: Seq<S>, lo: int, hi: int) -> Seq<(int, S)> {
    Seq::new((hi - lo) as nat, |k: int| (ri[lo + k].value(), vals[lo + k]))
}

/// The value paired with row `r` in `s`, if any.
pub open spec fn seq_entry<S>(s: Seq<(int, S)>, r: int) -> Option<S> {
    if exists|k: int| 0 <= k < s.len() && #[trigger] s[k].0 == r {
        Some(s[choose|k: int| 0 <= k < s.len() && #[trigger] s[k].0 == r].1)
    } else {
        None
    }
}

/// The entries that `rows[0..upto]`, appended below row `nr0 - 1`, put in column `c`.
pub open spec fn added<S, I: Int>(rows: Seq<SparseRow<S, I>>, c: int, nr0: int, upto: int) -> Seq<(int, S)>
    decreases upto,
{
    if upto <= 0 {
        Seq::empty()
    } else {
        let prev = added(rows, c, nr0, upto - 1);
        let row = rows[upto - 1];
        if row.has(c) {
            prev.push((nr0 + upto - 1, row.at(c)))
        } else {
            prev
        }
    }
}

/// The number of entries of `rows[0..upto]`.
pub open spec fn total_len<S, I>(rows: Seq<SparseRow<S, I>>, upto: int) -> int
    decreases upto,
{
    if upto <= 0 {
        0
    } else {
        total_len(rows, upto - 1) + rows[upto - 1].indices.len()
    }
}

/// The row numbers of `s` strictly increase.
pub open spec fn rows_ascending<S>(s: Seq<(int, S)>) -> bool {
    forall|a: int, b: int| 0 <= a < b < s.len() ==> #[trigger] s[a].0 < #[trigger] s[b].0
}

/// The storage of a matrix in compressed sparse column format.
///
/// Invariants (`wf`):
/// - 01: positive row count
/// - 02: positive column count
/// - 03: number of columns must be at least 1 less than max for int type
/// - 04: column boundaries array is (num_cols + 1) long
/// - 05: values and row indices are same length
/// - 06: last "column boundary" is length of values
/// - 07: value indices fit within max for the given int type
/// - 08: column boundaries in range of value indices (0 to length, inclusive)
/// - 09: column boundaries are nondecreasing
/// - 10: row indices in range of row count (0 to num_rows - 1)
/// - 11: row indices are sorted ascending for each column
/// - 12: row indices have no duplicates in a given column
pub struct CscStructure<S, I> {
    pub num_rows: I,
    pub num_cols: I,
    pub col_boundaries: Vec<I>,
    pub row_indices: Vec<I>,
    pub values: Vec<S>,
}

impl<S: Copy, I: IntNonnegFitsInUsize> CscStructure<S, I> {
    /// The stored entries of column `c`, as (row, value) pairs from top to bottom.
    pub open spec fn column(&self, c: int) -> Seq<(int, S)> {
        column_of(self.col_boundaries@, self.row_indices@, self.values@, c)
    }

    /// Invariants 01 to 12.
    pub open spec fn wf(&self) -> bool {
        let cb = self.col_boundaries@;
        let n = self.values.len() as int;
        &&& self.num_rows.value() > 0
        &&& self.num_cols.value() > 0
        &&& self.num_cols.value() < I::max_value()
        &&& cb.len() == self.num_cols.value() + 1
        &&& self.row_indices.len() == n
        &&& cb[cb.len() - 1].value() == n
        &&& n <= I::max_value()
        &&& forall|k: int| 0 <= k < cb.len() ==> 0 <= #[trigger] cb[k].value() <= n
        &&& forall|a: int, b: int| 0 <= a < b < cb.len() ==> #[trigger] cb[a].value() <= #[trigger] cb[b].value()
        &&& forall|k: int| 0 <= k < n ==> 0 <= #[trigger] self.row_indices@[k].value() < self.num_rows.value()
        &&& forall|c: int| 0 <= c < self.num_cols.value() ==> rows_ascending(#[trigger] self.column(c))
    }

    /// The value stored at row `r` of column `c`, if any.
    pub open spec fn entry(&self, r: int, c: int) -> Option<S> {
        seq_entry(self.column(c), r)
    }


    /// Two well-formed structures with the same columns, each storing its
    /// first column from the start of its arrays, hold the same arrays.
    pub proof fn lemma_arrays_fixed_by_columns(a: Self, b: Self)
        requires
            a.wf(),
            b.wf(),
            a.num_cols == b.num_cols,
            a.col_boundaries@[0].value() == 0,
            b.col_boundaries@[0].value() == 0,
            forall|c: int| 0 <= c < a.num_cols.value() ==> #[trigger] a.column(c) == b.column(c),
        ensures
            a.col_boundaries@ == b.col_boundaries@,
            a.row_indices@ == b.row_indices@,
            a.values@ == b.values@,
    {
        I::lemma_int_properties();
        let nc = a.num_cols.value();
        assert forall|j: int| 0 <= j <= nc implies #[trigger] a.col_boundaries@[j] == b.col_boundaries@[j] by {
            Self::lemma_boundary_eq(a, b, j);
        }
        assert(a.col_boundaries@ =~= b.col_boundaries@);
        assert(a.col_boundaries@[nc] == b.col_boundaries@[nc]);
        assert(a.values.len() == b.values.len());
        let n = a.values.len() as int;
        assert forall|t: int| 0 <= t < n implies #[trigger] a.row_indices@[t] == b.row_indices@[t] by {
            let j = find_col(a.col_boundaries@, t, nc);
            let lo = a.col_boundaries@[j].value();
            assert(a.column(j)[t - lo] == b.column(j)[t - lo]);
            assert(a.column(j)[t - lo].0 == a.row_indices@[t].value());
            assert(b.column(j)[t - lo].0 == b.row_indices@[t].value());
        }
        assert(a.row_indices@ =~= b.row_indices@);
        assert forall|t: int| 0 <= t < n implies #[trigger] a.values@[t] == b.values@[t] by {
            let j = find_col(a.col_boundaries@, t, nc);
            let lo = a.col_boundaries@[j].value();
            assert(a.column(j)[t - lo] == b.column(j)[t - lo]);
            assert(a.column(j)[t - lo].1 == a.values@[t]);
            assert(b.column(j)[t - lo].1 == b.values@[t]);
        }
        assert(a.values@ =~= b.values@);
    }

    proof fn lemma_boundary_eq(a: Self, b: Self, j: int)
        requires
            a.wf(),
            b.wf(),
            a.num_cols == b.num_cols,
            a.col_boundaries@[0].value() == 0,
            b.col_boundaries@[0].value() == 0,
            forall|c: int| 0 <= c < a.num_cols.value() ==> #[trigger] a.column(c) == b.column(c),
            0 <= j <= a.num_cols.value(),
        ensures
            a.col_boundaries@[j] == b.col_boundaries@[j],
        decreases j,
    {
        I::lemma_int_properties();
        if j > 0 {
            Self::lemma_boundary_eq(a, b, j - 1);
            assert(a.column(j - 1).len() == b.column(j - 1).len());
            assert(a.col_boundaries@[j - 1].value() <= a.col_boundaries@[j].value());
            assert(b.col_boundaries@[j - 1].value() <= b.col_boundaries@[j].value());
        }
    }


    /// Popping as many rows as were appended gives the matrix back, array for
    /// array, where its storage starts at the first position (as every
    /// structure that this module builds does).
    pub proof fn lemma_pop_rows_undoes_append_rows(a: Self, m1: Self, m2: Self, rows: Seq<SparseRow<S, I>>)
        requires
            a.wf(),
            a.col_boundaries@[0].value() == 0,
            Self::rows_appended(a, m1, rows),
            Self::rows_popped(m1, m2, rows.len() as int),
        ensures
            m2.num_rows == a.num_rows,
            m2.num_cols == a.num_cols,
            m2.col_boundaries@ == a.col_boundaries@,
            m2.row_indices@ == a.row_indices@,
            m2.values@ == a.values@,
    {
        I::lemma_int_properties();
        let nr0 = a.num_rows.value();
        assert forall|c: int| 0 <= c < a.num_cols.value() implies #[trigger] m2.column(c) == a.column(c) by {
            let s0 = a.column(c);
            let ad = added(rows, c, nr0, rows.len() as int);
            let full = m1.column(c);
            let n = m2.column(c).len() as int;
            a.lemma_column(c);
            lemma_added(rows, c, nr0, rows.len() as int);
            assert(full == s0 + ad);
            if rows.len() == 0 {
                assert(ad =~= Seq::<(int, S)>::empty());
                assert(full =~= s0);
            } else {
                assert(m2.num_rows.value() == nr0);
                if s0.len() > 0 {
                    let k = s0.len() - 1;
                    assert(full[k] == s0[k]);
                    assert(full[k].0 < m2.num_rows.value());
                }
                if n > s0.len() {
                    let k = s0.len() as int;
                    assert(full[k] == ad[0]);
                    assert(!(full[k].0 < m2.num_rows.value()));
                }
                assert(n == s0.len());
                assert(full.take(n) =~= s0);
            }
        }
        Self::lemma_arrays_fixed_by_columns(a, m2);
    }

    /// Removing the columns that `idx` lists gives, array for array, the
    /// submatrix of the columns that `idx` leaves out, in their order, as
    /// `indices_complement` lists them.
    pub proof fn lemma_remove_cols_is_complement_submatrix(a: Self, m1: Self, m2: Self, idx: Seq<I>, comp: Seq<I>)
        requires
            a.wf(),
            idx.len() > 0,
            Self::cols_removed(a, m1, idx),
            Self::submatrix_of(a, m2, comp),
            forall|x: int, y: int| 0 <= x < y < comp.len() ==> #[trigger] comp[x].value() < #[trigger] comp[y].value(),
            forall|k: int| 0 <= k < comp.len() ==> {
                &&& 0 <= #[trigger] comp[k].value() < a.num_cols.value()
                &&& !has_value(idx, comp[k].value())
            },
            forall|j: int| 0 <= j < a.num_cols.value() && !has_value(idx, j) ==> has_value(comp, j),
        ensures
            m1.num_rows == m2.num_rows,
            m1.num_cols == m2.num_cols,
            m1.col_boundaries@ == m2.col_boundaries@,
            m1.row_indices@ == m2.row_indices@,
            m1.values@ == m2.values@,
    {
        I::lemma_int_properties();
        let n = a.num_cols.value();
        let cv = comp.map_values(|x: I| x.value());
        assert forall|j: int| 0 <= j < n && !listed(idx, j) implies cv.contains(j) by {
            assert(!has_value(idx, j));
            let k = choose|k: int| 0 <= k < comp.len() && #[trigger] comp[k].value() == j;
            assert(cv[k] == j);
        }
        assert forall|k: int| 0 <= k < cv.len() implies 0 <= #[trigger] cv[k] < n && !listed(idx, cv[k]) by {
            assert(cv[k] == comp[k].value());
            assert(!has_value(idx, comp[k].value()));
        }
        lemma_unlisted_ascending(idx, cv, n);
        assert(m1.num_cols.value() == m2.num_cols.value());
        assert forall|j: int| 0 <= j < m1.num_cols.value() implies #[trigger] m1.column(j) == m2.column(j) by {
            assert(cv[j] == comp[j].value());
        }
        Self::lemma_arrays_fixed_by_columns(m1, m2);
    }

    /// The total number of entries of the columns `idx[0..upto]`.
    pub open spec fn picked_len(&self, idx: Seq<I>, upto: int) -> int
        decreases upto,
    {
        if upto <= 0 {
            0
        } else {
            self.picked_len(idx, upto - 1) + self.column(idx[upto - 1].value()).len()
        }
    }

    /// A structure whose arrays hold `cols` is well formed.
    proof fn lemma_built_wf(&self, cols: Seq<Seq<(int, S)>>)
        requires
            built(self.col_boundaries@, self.row_indices@, self.values@, self.num_rows.value(), cols),
            cols.len() == self.num_cols.value(),
            self.num_rows.value() > 0,
            0 < self.num_cols.value() < I::max_value(),
            self.values.len() <= I::max_value(),
            forall|j: int| 0 <= j < cols.len() ==> rows_ascending(#[trigger] cols[j]),
        ensures
            self.wf(),
            forall|j: int| 0 <= j < cols.len() ==> #[trigger] self.column(j) == cols[j],
    {
        assert forall|c: int| 0 <= c < self.num_cols.value() implies rows_ascending(#[trigger] self.column(c)) by {
            assert(self.column(c) == cols[c]);
        }
    }

    /// A column of a well-formed structure: its length, and that its row
    /// numbers lie in `0..num_rows`.
    proof fn lemma_column(&self, c: int)
        requires
            self.wf(),
            0 <= c < self.num_cols.value(),
        ensures
            0 <= self.col_boundaries@[c].value() <= self.col_boundaries@[c + 1].value() <= self.values.len(),
            self.column(c).len() == self.col_boundaries@[c + 1].value() - self.col_boundaries@[c].value(),
            forall|k: int| 0 <= k < self.column(c).len() ==> 0 <= #[trigger] self.column(c)[k].0 < self.num_rows.value(),
    {
        assert(self.col_boundaries@[c].value() <= self.col_boundaries@[c + 1].value());
        assert forall|k: int| 0 <= k < self.column(c).len() implies 0 <= #[trigger] self.column(c)[k].0 < self.num_rows.value() by {
            assert(self.column(c)[k].0 == self.row_indices@[self.col_boundaries@[c].value() + k].value());
        }
    }


    /// `new` is `old` without its last `count` rows, as `pop_rows_inplace` leaves it.
    pub open spec fn rows_popped(old: Self, new: Self, count: int) -> bool {
        &&& count == 0 ==> new == old
        &&& new.wf()
        &&& new.num_rows.value() == old.num_rows.value() - count
        &&& new.num_cols == old.num_cols
        &&& count > 0 ==> new.col_boundaries@[0].value() == 0
        &&& forall|c: int| 0 <= c < old.num_cols.value() ==> {
                let n = (#[trigger] new.column(c)).len() as int;
                &&& n <= old.column(c).len()
                &&& new.column(c) == old.column(c).take(n)
                &&& forall|k: int| 0 <= k < old.column(c).len() ==>
                    (k < n <==> #[trigger] old.column(c)[k].0 < new.num_rows.value())
            }
        &&& forall|r: int, c: int|
                0 <= r < new.num_rows.value() && 0 <= c < old.num_cols.value()
                    ==> #[trigger] new.entry(r, c) == old.entry(r, c)
    }

    /// Removes the last `num_to_pop` rows and their entries.
    pub fn pop_rows_inplace<I2: IntNonnegFitsInUsize>(&mut self, num_to_pop: I2)
        requires
            old(self).wf(),
            0 <= num_to_pop.value() < old(self).num_rows.value(),
        ensures
            Self::rows_popped(*old(self), *final(self), num_to_pop.value()),
    {
        proof {
            I::lemma_int_properties();
            I::lemma_fits_in_usize();
            I2::lemma_int_properties();
            I2::lemma_fits_in_usize();
        }
        let k = num_to_pop.to_usize_unchecked();
        if k == 0 {
            proof {
                assert forall|c: int| 0 <= c < self.num_cols.value() implies {
                    let n = (#[trigger] self.column(c)).len() as int;
                    &&& self.column(c) == self.column(c).take(n)
                    &&& forall|i: int| 0 <= i < self.column(c).len() ==>
                        (i < n <==> #[trigger] self.column(c)[i].0 < self.num_rows.value())
                } by {
                    self.lemma_column(c);
                    assert(self.column(c) =~= self.column(c).take(self.column(c).len() as int));
                }
            }
            return;
        }
        let keep = self.num_rows.to_usize_unchecked() - k;
        let ncols = self.num_cols.to_usize_unchecked();
        let mut new_cb: Vec<I> = Vec::new();
        new_cb.push(I::ZERO);
        let mut new_ri: Vec<I> = Vec::new();
        let mut new_vals: Vec<S> = Vec::new();
        let ghost mut cols: Seq<Seq<(int, S)>> = Seq::empty();
        let mut c: usize = 0;
        while c < ncols
            invariant
                self.wf(),
                *self == *old(self),
                I::max_value() <= usize::MAX,
                ncols == self.num_cols.value(),
                0 < keep < self.num_rows.value(),
                0 <= c <= ncols,
                cols.len() == c,
                built(new_cb@, new_ri@, new_vals@, keep as int, cols),
                new_cb@[0].value() == 0,
                new_ri.len() <= self.col_boundaries@[c as int].value(),
                forall|j: int| 0 <= j < c ==> {
                    let n = (#[trigger] cols[j]).len() as int;
                    &&& n <= self.column(j).len()
                    &&& cols[j] == self.column(j).take(n)
                    &&& forall|i: int| 0 <= i < self.column(j).len() ==>
                        (i < n <==> #[trigger] self.column(j)[i].0 < keep)
                },
            decreases ncols - c,
        {
            proof {
                self.lemma_column(c as int);
            }
            let lo = self.col_boundaries[c].to_usize_unchecked();
            let hi = self.col_boundaries[c + 1].to_usize_unchecked();
            let mut cut: usize = lo;
            while cut < hi && self.row_indices[cut].to_usize_unchecked() < keep
                invariant
                    self.wf(),
                    c < ncols,
                    ncols == self.num_cols.value(),
                    lo == self.col_boundaries@[c as int].value(),
                    hi == self.col_boundaries@[c + 1].value(),
                    hi <= self.values.len(),
                    lo <= cut <= hi,
                    forall|t: int| lo <= t < cut ==> 0 <= #[trigger] self.row_indices@[t].value() < keep,
                decreases hi - cut,
            {
                cut = cut + 1;
            }
            let ghost col = self.column(c as int);
            let ghost n = cut - lo;
            proof {
                assert forall|i: int| 0 <= i < col.len() implies (i < n <==> #[trigger] col[i].0 < keep) by {
                    assert(col[i].0 == self.row_indices@[lo + i].value());
                    if i > n {
                        assert(col[n].0 < col[i].0);
                        assert(col[n].0 == self.row_indices@[lo + n].value());
                    }
                }
            }
            push_column(&mut new_cb, &mut new_ri, &mut new_vals, &self.row_indices, &self.values, lo, cut, Ghost(keep as int), Ghost(cols));
            proof {
                assert(segment(self.row_indices@, self.values@, lo as int, cut as int) =~= col.take(n));
                cols = cols.push(col.take(n));
                assert(self.col_boundaries@[c as int].value() <= self.col_boundaries@[c + 1].value());
            }
            c = c + 1;
        }
        let ghost old_self = *self;
        self.num_rows = I::from_usize_unchecked(keep);
        self.col_boundaries = new_cb;
        self.row_indices = new_ri;
        self.values = new_vals;
        proof {
            assert forall|j: int| 0 <= j < cols.len() implies rows_ascending(#[trigger] cols[j]) by {
                let n = cols[j].len() as int;
                assert forall|a: int, b: int| 0 <= a < b < cols[j].len() implies #[trigger] cols[j][a].0 < #[trigger] cols[j][b].0 by {
                    assert(cols[j][a] == old_self.column(j)[a]);
                    assert(cols[j][b] == old_self.column(j)[b]);
                }
            }
            self.lemma_built_wf(cols);
            assert forall|r: int, c: int|
                0 <= r < self.num_rows.value() && 0 <= c < old_self.num_cols.value()
                    implies #[trigger] self.entry(r, c) == old_self.entry(r, c) by {
                let full = old_self.column(c);
                let n = cols[c].len() as int;
                let s0 = full.take(n);
                let a = full.skip(n);
                assert(full =~= s0 + a);
                assert forall|i: int| 0 <= i < s0.len() implies #[trigger] s0[i].0 < keep by {
                    assert(s0[i] == full[i]);
                }
                assert forall|i: int| 0 <= i < a.len() implies #[trigger] a[i].0 >= keep by {
                    assert(a[i] == full[i + n]);
                }
                assert forall|x: int, y: int| 0 <= x < y < s0.len() implies #[trigger] s0[x].0 < #[trigger] s0[y].0 by {
                    assert(s0[x] == full[x]);
                    assert(s0[y] == full[y]);
                }
                assert forall|x: int, y: int| 0 <= x < y < a.len() implies #[trigger] a[x].0 < #[trigger] a[y].0 by {
                    assert(a[x] == full[x + n]);
                    assert(a[y] == full[y + n]);
                }
                lemma_seq_entry_concat(s0, a, keep as int, r);
            }
        }
    }


    /// `new` is `old` without the columns that `idx` lists, as `remove_cols_inplace` leaves it.
    pub open spec fn cols_removed<I2: Int>(old: Self, new: Self, idx: Seq<I2>) -> bool {
        &&& idx.len() == 0 ==> new == old
        &&& new.wf()
        &&& new.num_rows == old.num_rows
        &&& new.num_cols.value() == old.num_cols.value() - idx.len()
        &&& idx.len() > 0 ==> new.col_boundaries@[0].value() == 0
        &&& kept_columns(idx, old.num_cols.value()).len() == new.num_cols.value()
        &&& forall|j: int| 0 <= j < new.num_cols.value() ==> #[trigger] new.column(j)
                == old.column(kept_columns(idx, old.num_cols.value())[j])
    }

    /// Removes the columns that `col_indices` lists; the others keep their order.
    pub fn remove_cols_inplace<I2: IntNonnegFitsInUsize>(&mut self, col_indices: &Vec<I2>)
        requires
            old(self).wf(),
            col_indices.len() < old(self).num_cols.value(),
            forall|k: int| 0 <= k < col_indices.len() ==> 0 <= #[trigger] col_indices@[k].value() < old(self).num_cols.value(),
            forall|a: int, b: int| 0 <= a < b < col_indices.len() ==> #[trigger] col_indices@[a].value() != #[trigger] col_indices@[b].value(),
        ensures
            Self::cols_removed(*old(self), *final(self), col_indices@),
    {
        proof {
            I::lemma_int_properties();
            I::lemma_fits_in_usize();
            I2::lemma_int_properties();
            I2::lemma_fits_in_usize();
        }
        if col_indices.len() == 0 {
            proof {
                lemma_kept_all(col_indices@, self.num_cols.value());
            }
            return;
        }
        let ghost idx = col_indices@;
        let ncols = self.num_cols.to_usize_unchecked();
        let mut marks: Vec<bool> = Vec::new();
        while marks.len() < ncols
            invariant
                marks.len() <= ncols,
                forall|c: int| 0 <= c < marks.len() ==> !#[trigger] marks@[c],
            decreases ncols - marks.len(),
        {
            marks.push(false);
        }
        proof {
            lemma_count_none(marks@, ncols as int);
        }
        let mut k: usize = 0;
        while k < col_indices.len()
            invariant
                ncols == self.num_cols.value(),
                idx == col_indices@,
                0 <= k <= col_indices.len(),
                marks.len() == ncols,
                forall|q: int| 0 <= q < col_indices.len() ==> 0 <= #[trigger] col_indices@[q].value() < ncols,
                forall|a: int, b: int| 0 <= a < b < col_indices.len() ==> #[trigger] col_indices@[a].value() != #[trigger] col_indices@[b].value(),
                forall|c: int| 0 <= c < ncols ==> (#[trigger] marks@[c] <==> exists|q: int| 0 <= q < k && #[trigger] idx[q].value() == c),
                count_true(marks@, ncols as int) == k,
            decreases col_indices.len() - k,
        {
            let c = col_indices[k].to_usize_unchecked();
            proof {
                if marks@[c as int] {
                    let q = choose|q: int| 0 <= q < k && #[trigger] idx[q].value() == c;
                    assert(idx[q].value() != idx[k as int].value());
                }
                lemma_count_set(marks@, c as int, ncols as int);
            }
            marks.set(c, true);
            proof {
                assert forall|c2: int| 0 <= c2 < ncols implies (#[trigger] marks@[c2] <==> exists|q: int| 0 <= q < k + 1 && #[trigger] idx[q].value() == c2) by {
                    if c2 == c {
                        assert(idx[k as int].value() == c2);
                    } else if marks@[c2] {
                        let q = choose|q: int| 0 <= q < k && #[trigger] idx[q].value() == c2;
                        assert(0 <= q < k + 1 && idx[q].value() == c2);
                    } else {
                        if exists|q: int| 0 <= q < k + 1 && #[trigger] idx[q].value() == c2 {
                            let q = choose|q: int| 0 <= q < k + 1 && #[trigger] idx[q].value() == c2;
                            assert(q != k);
                        }
                    }
                }
            }
            k = k + 1;
        }
        proof {
            assert forall|c: int| 0 <= c < ncols implies (#[trigger] marks@[c] <==> listed(idx, c)) by {
                if marks@[c] {
                    let q = choose|q: int| 0 <= q < k && #[trigger] idx[q].value() == c;
                }
            }
        }

        let ghost nr = self.num_rows.value();
        let mut new_cb: Vec<I> = Vec::new();
        new_cb.push(I::ZERO);
        let mut new_ri: Vec<I> = Vec::new();
        let mut new_vals: Vec<S> = Vec::new();
        let ghost mut cols: Seq<Seq<(int, S)>> = Seq::empty();
        let mut c: usize = 0;
        while c < ncols
            invariant
                self.wf(),
                *self == *old(self),
                I::max_value() <= usize::MAX,
                ncols == self.num_cols.value(),
                nr == self.num_rows.value(),
                marks.len() == ncols,
                forall|c2: int| 0 <= c2 < ncols ==> (#[trigger] marks@[c2] <==> listed(idx, c2)),
                0 <= c <= ncols,
                cols.len() == kept_columns(idx, c as int).len(),
                cols.len() == c - count_true(marks@, c as int),
                built(new_cb@, new_ri@, new_vals@, nr, cols),
                new_cb@[0].value() == 0,
                new_ri.len() <= self.col_boundaries@[c as int].value(),
                forall|j: int| 0 <= j < cols.len() ==> 0 <= #[trigger] kept_columns(idx, c as int)[j] < c,
                forall|j: int| 0 <= j < cols.len() ==> #[trigger] cols[j] == self.column(kept_columns(idx, c as int)[j]),
            decreases ncols - c,
        {
            proof {
                self.lemma_column(c as int);
            }
            if !marks[c] {
                let lo = self.col_boundaries[c].to_usize_unchecked();
                let hi = self.col_boundaries[c + 1].to_usize_unchecked();
                proof {
                    assert forall|t: int| lo <= t < hi implies 0 <= #[trigger] self.row_indices@[t].value() < nr by {
                    }
                }
                push_column(&mut new_cb, &mut new_ri, &mut new_vals, &self.row_indices, &self.values, lo, hi, Ghost(nr), Ghost(cols));
                proof {
                    assert(segment(self.row_indices@, self.values@, lo as int, hi as int) == self.column(c as int));
                    cols = cols.push(self.column(c as int));
                }
            }
            proof {
                assert(self.col_boundaries@[c as int].value() <= self.col_boundaries@[c + 1].value());
            }
            c = c + 1;
        }
        let ghost old_self = *self;
        self.num_cols = I::from_usize_unchecked(ncols - col_indices.len());
        self.col_boundaries = new_cb;
        self.row_indices = new_ri;
        self.values = new_vals;
        proof {
            assert forall|j: int| 0 <= j < cols.len() implies rows_ascending(#[trigger] cols[j]) by {
                assert(cols[j] == old_self.column(kept_columns(idx, ncols as int)[j]));
            }
            self.lemma_built_wf(cols);
        }
    }


    /// The arrays of a well-formed structure hold its columns.
    proof fn lemma_wf_built(&self)
        requires
            self.wf(),
        ensures
            built(
                self.col_boundaries@,
                self.row_indices@,
                self.values@,
                self.num_rows.value(),
                Seq::new(self.num_cols.value() as nat, |j: int| self.column(j)),
            ),
    {
    }

    /// The matrix with `num_rows` rows whose columns are `columns`, in order.
    pub fn new_from_columns(num_rows: I, columns: Vec<SparseRow<S, I>>) -> (res: Self)
        requires
            num_rows.value() > 0,
            0 < columns.len() < I::max_value(),
            forall|k: int| 0 <= k < columns.len() ==> (#[trigger] columns@[k]).wf(num_rows.value()),
            total_len(columns@, columns.len() as int) <= I::max_value(),
        ensures
            res.wf(),
            res.num_rows == num_rows,
            res.num_cols.value() == columns.len(),
            res.col_boundaries@[0].value() == 0,
            res.values.len() == total_len(columns@, columns.len() as int),
            forall|j: int| 0 <= j < columns.len() ==> #[trigger] res.column(j) == columns@[j].pairs(),
    {
        proof {
            I::lemma_int_properties();
            I::lemma_fits_in_usize();
        }
        let ghost nr = num_rows.value();
        let mut new_cb: Vec<I> = Vec::new();
        new_cb.push(I::ZERO);
        let mut new_ri: Vec<I> = Vec::new();
        let mut new_vals: Vec<S> = Vec::new();
        let ghost mut cols: Seq<Seq<(int, S)>> = Seq::empty();
        let mut j: usize = 0;
        while j < columns.len()
            invariant
                forall|k: int| 0 <= k < columns.len() ==> (#[trigger] columns@[k]).wf(nr),
                total_len(columns@, columns.len() as int) <= I::max_value(),
                0 <= j <= columns.len(),
                cols.len() == j,
                built(new_cb@, new_ri@, new_vals@, nr, cols),
                new_cb@[0].value() == 0,
                new_ri.len() == total_len(columns@, j as int),
                forall|k: int| 0 <= k < j ==> #[trigger] cols[k] == columns@[k].pairs(),
            decreases columns.len() - j,
        {
            let col = &columns[j];
            proof {
                assert(columns@[j as int] == *col);
                lemma_total_len_mono(columns@, j + 1, columns.len() as int);
            }
            push_column(&mut new_cb, &mut new_ri, &mut new_vals, &col.indices, &col.values, 0, col.indices.len(), Ghost(nr), Ghost(cols));
            proof {
                cols = cols.push(col.pairs());
            }
            j = j + 1;
        }
        let res = CscStructure {
            num_rows: num_rows,
            num_cols: I::from_usize_unchecked(columns.len()),
            col_boundaries: new_cb,
            row_indices: new_ri,
            values: new_vals,
        };
        proof {
            assert forall|k: int| 0 <= k < cols.len() implies rows_ascending(#[trigger] cols[k]) by {
                assert(cols[k] == columns@[k].pairs());
                assert(columns@[k].wf(nr));
            }
            res.lemma_built_wf(cols);
        }
        res
    }

    /// Appends `cols` after the last column, in order.
    pub fn append_cols_inplace(&mut self, cols: Vec<SparseRow<S, I>>)
        requires
            old(self).wf(),
            forall|k: int| 0 <= k < cols.len() ==> (#[trigger] cols@[k]).wf(old(self).num_rows.value()),
            old(self).num_cols.value() + cols.len() < I::max_value(),
            old(self).values.len() + total_len(cols@, cols.len() as int) <= I::max_value(),
        ensures
            final(self).wf(),
            final(self).num_rows == old(self).num_rows,
            final(self).num_cols.value() == old(self).num_cols.value() + cols.len(),
            final(self).col_boundaries@.subrange(0, old(self).col_boundaries.len() as int) == old(self).col_boundaries@,
            final(self).row_indices@.subrange(0, old(self).row_indices.len() as int) == old(self).row_indices@,
            final(self).values@.subrange(0, old(self).values.len() as int) == old(self).values@,
            final(self).values.len() == old(self).values.len() + total_len(cols@, cols.len() as int),
            forall|j: int| 0 <= j < old(self).num_cols.value() ==> #[trigger] final(self).column(j) == old(self).column(j),
            forall|j: int| 0 <= j < cols.len() ==> #[trigger] final(self).column(old(self).num_cols.value() + j) == cols@[j].pairs(),
    {
        proof {
            I::lemma_int_properties();
            I::lemma_fits_in_usize();
            self.lemma_wf_built();
        }
        let ghost nr = self.num_rows.value();
        let ghost nc0 = self.num_cols.value();
        let ghost n0 = self.values.len() as int;
        let ghost old_self = *self;
        let ghost mut built_cols: Seq<Seq<(int, S)>> = Seq::new(nc0 as nat, |j: int| old_self.column(j));
        let mut j: usize = 0;
        while j < cols.len()
            invariant
                forall|k: int| 0 <= k < cols.len() ==> (#[trigger] cols@[k]).wf(nr),
                n0 + total_len(cols@, cols.len() as int) <= I::max_value(),
                0 <= j <= cols.len(),
                built_cols.len() == nc0 + j,
                old_self.wf(),
                nc0 == old_self.num_cols.value(),
                self.num_rows == old_self.num_rows,
                self.num_cols == old_self.num_cols,
                nr == self.num_rows.value(),
                built(self.col_boundaries@, self.row_indices@, self.values@, nr, built_cols),
                self.row_indices.len() == n0 + total_len(cols@, j as int),
                n0 == old_self.values.len(),
                old_self.row_indices.len() == n0,
                self.col_boundaries@.subrange(0, nc0 + 1) == old_self.col_boundaries@,
                self.row_indices@.subrange(0, n0) == old_self.row_indices@,
                self.values@.subrange(0, n0) == old_self.values@,
                forall|k: int| 0 <= k < nc0 ==> #[trigger] built_cols[k] == old_self.column(k),
                forall|k: int| nc0 <= k < nc0 + j ==> #[trigger] built_cols[k] == cols@[k - nc0].pairs(),
            decreases cols.len() - j,
        {
            let col = &cols[j];
            proof {
                assert(cols@[j as int] == *col);
                lemma_total_len_mono(cols@, j + 1, cols.len() as int);
            }
            let ghost mid_cb = self.col_boundaries@;
            let ghost mid_ri = self.row_indices@;
            let ghost mid_vals = self.values@;
            proof {
                lemma_total_len_mono(cols@, 0, j as int);
                assert(mid_ri.len() >= n0 && mid_vals.len() >= n0);
            }
            push_column(
                &mut self.col_boundaries,
                &mut self.row_indices,
                &mut self.values,
                &col.indices,
                &col.values,
                0,
                col.indices.len(),
                Ghost(nr),
                Ghost(built_cols),
            );
            proof {
                assert(self.col_boundaries@.subrange(0, nc0 + 1) =~= self.col_boundaries@.subrange(0, mid_cb.len() as int).subrange(0, nc0 + 1));
                assert(self.row_indices@.subrange(0, n0) =~= self.row_indices@.subrange(0, mid_ri.len() as int).subrange(0, n0));
                assert(self.values@.subrange(0, n0) =~= self.values@.subrange(0, mid_vals.len() as int).subrange(0, n0));
                let prev = built_cols;
                let next = prev.push(col.pairs());
                assert forall|k: int| nc0 <= k < nc0 + j + 1 implies #[trigger] next[k] == cols@[k - nc0].pairs() by {
                    if k < nc0 + j {
                        assert(next[k] == prev[k]);
                    }
                }
                assert forall|k: int| 0 <= k < nc0 implies #[trigger] next[k] == old_self.column(k) by {
                    assert(next[k] == prev[k]);
                }
                built_cols = next;
            }
            j = j + 1;
        }
        self.num_cols = I::from_usize_unchecked(self.num_cols.to_usize_unchecked() + cols.len());
        proof {
            assert forall|k: int| 0 <= k < built_cols.len() implies rows_ascending(#[trigger] built_cols[k]) by {
                if k < nc0 {
                    assert(built_cols[k] == old_self.column(k));
                } else {
                    assert(built_cols[k] == cols@[k - nc0].pairs());
                    assert(cols@[k - nc0].wf(nr));
                }
            }
            self.lemma_built_wf(built_cols);
            assert forall|k: int| 0 <= k < cols.len() implies #[trigger] self.column(nc0 + k) == cols@[k].pairs() by {
                assert(built_cols[nc0 + k] == cols@[k].pairs());
            }
        }
    }


    /// Removes the last `num_to_pop` columns and their entries.
    pub fn pop_cols_inplace<I2: IntNonnegFitsInUsize>(&mut self, num_to_pop: I2)
        requires
            old(self).wf(),
            0 <= num_to_pop.value() < old(self).num_cols.value(),
        ensures
            num_to_pop.value() == 0 ==> *final(self) == *old(self),
            final(self).wf(),
            final(self).num_rows == old(self).num_rows,
            final(self).num_cols.value() == old(self).num_cols.value() - num_to_pop.value(),
            final(self).col_boundaries@ == old(self).col_boundaries@.take(final(self).num_cols.value() + 1),
            final(self).row_indices@ == old(self).row_indices@.take(old(self).col_boundaries@[final(self).num_cols.value()].value()),
            final(self).values@ == old(self).values@.take(old(self).col_boundaries@[final(self).num_cols.value()].value()),
            forall|j: int| 0 <= j < final(self).num_cols.value() ==> #[trigger] final(self).column(j) == old(self).column(j),
    {
        proof {
            I::lemma_int_properties();
            I::lemma_fits_in_usize();
            I2::lemma_int_properties();
            I2::lemma_fits_in_usize();
        }
        let k = num_to_pop.to_usize_unchecked();
        if k == 0 {
            return;
        }
        let ghost old_self = *self;
        let keep = self.num_cols.to_usize_unchecked() - k;
        let values_to_keep = self.col_boundaries[keep].to_usize_unchecked();
        self.col_boundaries.truncate(keep + 1);
        self.row_indices.truncate(values_to_keep);
        self.values.truncate(values_to_keep);
        self.num_cols = I::from_usize_unchecked(keep);
        proof {
            assert forall|j: int| 0 <= j < keep implies #[trigger] self.column(j) == old_self.column(j) by {
                assert(old_self.col_boundaries@[j].value() <= old_self.col_boundaries@[j + 1].value());
                assert(old_self.col_boundaries@[j + 1].value() <= old_self.col_boundaries@[keep as int].value());
                lemma_column_of_extend(
                    self.col_boundaries@,
                    self.row_indices@,
                    self.values@,
                    old_self.col_boundaries@,
                    old_self.row_indices@,
                    old_self.values@,
                    j,
                );
            }
            assert forall|a: int, b: int| 0 <= a < b < self.col_boundaries.len()
                implies #[trigger] self.col_boundaries@[a].value() <= #[trigger] self.col_boundaries@[b].value() by {
                assert(old_self.col_boundaries@[a].value() <= old_self.col_boundaries@[b].value());
            }
            assert forall|j: int| 0 <= j < self.col_boundaries.len()
                implies 0 <= #[trigger] self.col_boundaries@[j].value() <= self.values.len() by {
                assert(old_self.col_boundaries@[j].value() <= old_self.col_boundaries@[keep as int].value());
            }
            assert forall|c: int| 0 <= c < self.num_cols.value() implies rows_ascending(#[trigger] self.column(c)) by {
                assert(self.column(c) == old_self.column(c));
            }
        }
    }


    /// The structure with the given parts, where they meet invariants 01 to 12;
    /// `None` where they do not.
    pub fn new(num_rows: I, num_cols: I, col_boundaries: Vec<I>, row_indices: Vec<I>, values: Vec<S>) -> (res: Option<Self>)
        ensures
            ({
                let s = CscStructure {
                    num_rows: num_rows,
                    num_cols: num_cols,
                    col_boundaries: col_boundaries,
                    row_indices: row_indices,
                    values: values,
                };
                &&& res is Some <==> s.wf()
                &&& res is Some ==> res->0 == s
            }),
    {
        proof {
            I::lemma_int_properties();
            I::lemma_fits_in_usize();
        }
        let ghost s = CscStructure {
            num_rows: num_rows,
            num_cols: num_cols,
            col_boundaries: col_boundaries,
            row_indices: row_indices,
            values: values,
        };
        let nr = num_rows.to_i128();
        let nc = num_cols.to_i128();
        let max = I::MAX.to_i128();
        if nr <= 0 || nc <= 0 || nc >= max {
            return None;
        }
        let ncb = col_boundaries.len();
        if ncb as i128 != nc + 1 {
            return None;
        }
        let n = values.len();
        if row_indices.len() != n || col_boundaries[ncb - 1].to_i128() != n as i128 || n as i128 > max {
            return None;
        }
        let mut k: usize = 0;
        while k < ncb
            invariant
                ncb == col_boundaries.len(),
                n == values.len(),
                s.col_boundaries == col_boundaries,
                0 <= k <= ncb,
                forall|q: int| 0 <= q < k ==> 0 <= #[trigger] col_boundaries@[q].value() <= n,
                forall|a: int, b: int| 0 <= a < b < k ==> #[trigger] col_boundaries@[a].value() <= #[trigger] col_boundaries@[b].value(),
            decreases ncb - k,
        {
            let x = col_boundaries[k].to_i128();
            if x < 0 || x > n as i128 {
                return None;
            }
            if k > 0 && x < col_boundaries[k - 1].to_i128() {
                proof {
                    assert(!s.wf()) by {
                        if s.wf() {
                            assert(col_boundaries@[k - 1].value() <= col_boundaries@[k as int].value());
                        }
                    }
                }
                return None;
            }
            proof {
                assert forall|a: int, b: int| 0 <= a < b < k + 1 implies #[trigger] col_boundaries@[a].value() <= #[trigger] col_boundaries@[b].value() by {
                    if b == k && a < k - 1 {
                        assert(col_boundaries@[a].value() <= col_boundaries@[k - 1].value());
                    }
                }
            }
            k = k + 1;
        }
        let mut t: usize = 0;
        while t < n
            invariant
                n == values.len(),
                n == row_indices.len(),
                nr == num_rows.value(),
                0 <= t <= n,
                forall|q: int| 0 <= q < t ==> 0 <= #[trigger] row_indices@[q].value() < nr,
            decreases n - t,
        {
            let x = row_indices[t].to_i128();
            if x < 0 || x >= nr {
                return None;
            }
            t = t + 1;
        }
        let mut c: usize = 0;
        let ncols = ncb - 1;
        while c < ncols
            invariant
                ncols + 1 == ncb == col_boundaries.len(),
                ncols == num_cols.value(),
                n == values.len(),
                n == row_indices.len(),
                s.col_boundaries == col_boundaries,
                s.row_indices == row_indices,
                s.values == values,
                s.num_cols == num_cols,
                s.num_rows == num_rows,
                forall|q: int| 0 <= q < ncb ==> 0 <= #[trigger] col_boundaries@[q].value() <= n,
                forall|a: int, b: int| 0 <= a < b < ncb ==> #[trigger] col_boundaries@[a].value() <= #[trigger] col_boundaries@[b].value(),
                0 <= c <= ncols,
                forall|q: int| 0 <= q < c ==> rows_ascending(#[trigger] s.column(q)),
            decreases ncols - c,
        {
            let lo = col_boundaries[c].to_usize_unchecked();
            let hi = col_boundaries[c + 1].to_usize_unchecked();
            proof {
                assert(col_boundaries@[c as int].value() <= col_boundaries@[c + 1].value());
            }
            let ghost col = s.column(c as int);
            let mut i: usize = lo;
            while i < hi
                invariant
                    n == row_indices.len(),
                    s.row_indices == row_indices,
                    s.num_cols == num_cols,
                    s.num_rows == num_rows,
                    s.col_boundaries == col_boundaries,
                    s.values == values,
                    ncols == num_cols.value(),
                    c < ncols,
                    lo <= hi <= n,
                    lo == s.col_boundaries@[c as int].value(),
                    hi == s.col_boundaries@[c + 1].value(),
                    col == s.column(c as int),
                    col.len() == hi - lo,
                    lo <= i <= hi,
                    forall|a: int, b: int| 0 <= a < b < i - lo ==> #[trigger] col[a].0 < #[trigger] col[b].0,
                decreases hi - i,
            {
                if i > lo && row_indices[i].to_i128() <= row_indices[i - 1].to_i128() {
                    proof {
                        assert(col[i - 1 - lo].0 == row_indices@[i - 1].value());
                        assert(col[i - lo].0 == row_indices@[i as int].value());
                        assert(!s.wf()) by {
                            if s.wf() {
                                assert(rows_ascending(s.column(c as int)));
                                assert(col[i - 1 - lo].0 < col[i - lo].0);
                            }
                        }
                    }
                    return None;
                }
                proof {
                    if i > lo {
                        assert(col[i - 1 - lo].0 == row_indices@[i - 1].value());
                        assert(col[i - lo].0 == row_indices@[i as int].value());
                    }
                    assert forall|a: int, b: int| 0 <= a < b < i + 1 - lo implies #[trigger] col[a].0 < #[trigger] col[b].0 by {
                        if b == i - lo && a < i - 1 - lo {
                            assert(col[a].0 < col[i - 1 - lo].0);
                        }
                    }
                }
                i = i + 1;
            }
            proof {
                assert(rows_ascending(col));
            }
            c = c + 1;
        }
        Some(CscStructure {
            num_rows: num_rows,
            num_cols: num_cols,
            col_boundaries: col_boundaries,
            row_indices: row_indices,
            values: values,
        })
    }

    /// `res` is the matrix made of the columns `idx` of `src`, in that order,
    /// as `col_submatrix` gives it.
    pub open spec fn submatrix_of(src: Self, res: Self, idx: Seq<I>) -> bool {
        &&& res.wf()
        &&& res.num_rows == src.num_rows
        &&& res.num_cols.value() == idx.len()
        &&& res.col_boundaries@[0].value() == 0
        &&& res.values.len() == src.picked_len(idx, idx.len() as int)
        &&& forall|j: int| 0 <= j < idx.len() ==> #[trigger] res.column(j) == src.column(idx[j].value())
    }

    /// The matrix made of the columns `col_indices` of this one, in that order.
    pub fn col_submatrix(&self, col_indices: &Vec<I>) -> (res: Self)
        requires
            self.wf(),
            0 < col_indices.len() < I::max_value(),
            forall|k: int| 0 <= k < col_indices.len() ==> 0 <= #[trigger] col_indices@[k].value() < self.num_cols.value(),
            self.picked_len(col_indices@, col_indices.len() as int) <= I::max_value(),
        ensures
            Self::submatrix_of(*self, res, col_indices@),
    {
        proof {
            I::lemma_int_properties();
            I::lemma_fits_in_usize();
        }
        let ghost nr = self.num_rows.value();
        let mut new_cb: Vec<I> = Vec::new();
        new_cb.push(I::ZERO);
        let mut new_ri: Vec<I> = Vec::new();
        let mut new_vals: Vec<S> = Vec::new();
        let ghost mut cols: Seq<Seq<(int, S)>> = Seq::empty();
        let mut j: usize = 0;
        while j < col_indices.len()
            invariant
                self.wf(),
                I::max_value() <= usize::MAX,
                nr == self.num_rows.value(),
                forall|k: int| 0 <= k < col_indices.len() ==> 0 <= #[trigger] col_indices@[k].value() < self.num_cols.value(),
                self.picked_len(col_indices@, col_indices.len() as int) <= I::max_value(),
                0 <= j <= col_indices.len(),
                cols.len() == j,
                built(new_cb@, new_ri@, new_vals@, nr, cols),
                new_cb@[0].value() == 0,
                new_ri.len() == self.picked_len(col_indices@, j as int),
                forall|k: int| 0 <= k < j ==> #[trigger] cols[k] == self.column(col_indices@[k].value()),
            decreases col_indices.len() - j,
        {
            let c = col_indices[j].to_usize_unchecked();
            proof {
                self.lemma_column(c as int);
                self.lemma_picked_len_mono(col_indices@, j + 1, col_indices.len() as int);
            }
            let lo = self.col_boundaries[c].to_usize_unchecked();
            let hi = self.col_boundaries[c + 1].to_usize_unchecked();
            proof {
                assert forall|t: int| lo <= t < hi implies 0 <= #[trigger] self.row_indices@[t].value() < nr by {
                }
            }
            push_column(&mut new_cb, &mut new_ri, &mut new_vals, &self.row_indices, &self.values, lo, hi, Ghost(nr), Ghost(cols));
            proof {
                assert(segment(self.row_indices@, self.values@, lo as int, hi as int) == self.column(c as int));
                cols = cols.push(self.column(c as int));
            }
            j = j + 1;
        }
        let res = CscStructure {
            num_rows: self.num_rows,
            num_cols: I::from_usize_unchecked(col_indices.len()),
            col_boundaries: new_cb,
            row_indices: new_ri,
            values: new_vals,
        };
        proof {
            assert forall|k: int| 0 <= k < cols.len() implies rows_ascending(#[trigger] cols[k]) by {
                assert(cols[k] == self.column(col_indices@[k].value()));
            }
            res.lemma_built_wf(cols);
        }
        res
    }

    proof fn lemma_picked_len_mono(&self, idx: Seq<I>, a: int, b: int)
        requires
            0 <= a <= b,
        ensures
            self.picked_len(idx, a) <= self.picked_len(idx, b),
        decreases b - a,
    {
        if a < b {
            self.lemma_picked_len_mono(idx, a, b - 1);
        }
    }

    /// What the appended structure keeps of `old` and takes from `rows`.
    proof fn lemma_appended(&self, old: Self, rows: Seq<SparseRow<S, I>>)
        requires
            old.wf(),
            forall|k: int| 0 <= k < rows.len() ==> (#[trigger] rows[k]).wf(old.num_cols.value()),
            self.num_rows.value() == old.num_rows.value() + rows.len(),
            self.num_cols == old.num_cols,
            self.col_boundaries.len() == self.num_cols.value() + 1,
            self.row_indices.len() == self.values.len(),
            self.col_boundaries@[self.num_cols.value()].value() == self.values.len(),
            self.values.len() <= I::max_value(),
            forall|k: int| 0 <= k < self.col_boundaries.len() ==> 0 <= #[trigger] self.col_boundaries@[k].value() <= self.values.len(),
            forall|a: int, b: int| 0 <= a < b < self.col_boundaries.len()
                ==> #[trigger] self.col_boundaries@[a].value() <= #[trigger] self.col_boundaries@[b].value(),
            forall|k: int| 0 <= k < self.values.len() ==> 0 <= #[trigger] self.row_indices@[k].value() < self.num_rows.value(),
            forall|c: int| 0 <= c < old.num_cols.value() ==> #[trigger] self.column(c)
                == old.column(c) + added(rows, c, old.num_rows.value(), rows.len() as int),
        ensures
            self.wf(),
            forall|r: int, c: int|
                0 <= r < old.num_rows.value() && 0 <= c < old.num_cols.value()
                    ==> #[trigger] self.entry(r, c) == old.entry(r, c),
            forall|r: int, c: int|
                old.num_rows.value() <= r < self.num_rows.value() && 0 <= c < old.num_cols.value()
                    ==> #[trigger] self.entry(r, c) == rows[r - old.num_rows.value()].entry(c),
    {
        let nr0 = old.num_rows.value();
        assert forall|c: int| 0 <= c < old.num_cols.value() implies {
            &&& rows_ascending(#[trigger] self.column(c))
            &&& forall|r: int| 0 <= r < nr0 ==> self.entry(r, c) == old.entry(r, c)
            &&& forall|r: int| nr0 <= r < self.num_rows.value() ==> self.entry(r, c) == rows[r - nr0].entry(c)
        } by {
            let s0 = old.column(c);
            let a = added(rows, c, nr0, rows.len() as int);
            lemma_added(rows, c, nr0, rows.len() as int);
            assert(old.col_boundaries@[c].value() <= old.col_boundaries@[c + 1].value());
            assert forall|k: int| 0 <= k < s0.len() implies #[trigger] s0[k].0 < nr0 by {
                let i = old.col_boundaries@[c].value() + k;
                assert(0 <= i < old.values.len());
                assert(s0[k].0 == old.row_indices@[i].value());
            }
            assert forall|k: int| 0 <= k < a.len() implies #[trigger] a[k].0 >= nr0 by {
            }
            assert forall|r: int| 0 <= r < nr0 implies self.entry(r, c) == old.entry(r, c) by {
                lemma_seq_entry_concat(s0, a, nr0, r);
            }
            assert forall|r: int| nr0 <= r < self.num_rows.value() implies self.entry(r, c) == rows[r - nr0].entry(c) by {
                lemma_seq_entry_concat(s0, a, nr0, r);
                lemma_added_entry(rows, c, nr0, r - nr0);
            }
            lemma_seq_entry_concat(s0, a, nr0, 0);
        }
    }

    /// `new` is `old` with `rows` appended below, as `append_rows_inplace` leaves it.
    pub open spec fn rows_appended(old: Self, new: Self, rows: Seq<SparseRow<S, I>>) -> bool {
        &&& new.wf()
        &&& new.num_rows.value() == old.num_rows.value() + rows.len()
        &&& new.num_cols == old.num_cols
        &&& new.values.len() == old.values.len() + total_len(rows, rows.len() as int)
        &&& new.col_boundaries@[0] == old.col_boundaries@[0]
        &&& forall|c: int| 0 <= c < old.num_cols.value() ==> #[trigger] new.column(c)
                == old.column(c) + added(rows, c, old.num_rows.value(), rows.len() as int)
        &&& forall|r: int, c: int|
                0 <= r < old.num_rows.value() && 0 <= c < old.num_cols.value()
                    ==> #[trigger] new.entry(r, c) == old.entry(r, c)
        &&& forall|r: int, c: int|
                old.num_rows.value() <= r < new.num_rows.value() && 0 <= c < old.num_cols.value()
                    ==> #[trigger] new.entry(r, c) == rows[r - old.num_rows.value()].entry(c)
    }

    /// Appends `rows` below the last row, in order. Row `k` of `rows`
    /// becomes row `num_rows + k`; every column keeps its stored entries and
    /// takes the new rows' entries below them.
    pub fn append_rows_inplace(&mut self, rows: Vec<SparseRow<S, I>>)
        requires
            old(self).wf(),
            forall|k: int| 0 <= k < rows.len() ==> (#[trigger] rows@[k]).wf(old(self).num_cols.value()),
            old(self).num_rows.value() + rows.len() <= I::max_value(),
            old(self).values.len() + total_len(rows@, rows.len() as int) <= I::max_value(),
        ensures
            Self::rows_appended(*old(self), *final(self), rows@),
    {
        proof {
            I::lemma_int_properties();
            I::lemma_fits_in_usize();
        }
        let ghost rs = rows@;
        let ghost n0 = self.values.len() as int;
        let nr0 = self.num_rows.to_usize_unchecked();
        let ncols = self.num_cols.to_usize_unchecked();
        let nr = rows.len();
        proof {
            lemma_sum_bound(Seq::<usize>::empty(), rs, 0);
        }

        // one cursor per new row: the position of its next entry
        let mut pos: Vec<usize> = Vec::new();
        while pos.len() < nr
            invariant
                pos.len() <= nr,
                forall|r: int| 0 <= r < pos.len() ==> #[trigger] pos@[r] == 0,
            decreases nr - pos.len(),
        {
            pos.push(0);
        }
        proof {
            assert forall|u: int| 0 <= u <= nr implies sum_upto(pos@, u) == 0 by {
                lemma_sum_zero(pos@, u);
            }
        }

        // what the storage holds before the first column stays in place
        let first = self.col_boundaries[0].to_usize_unchecked();
        let mut new_ri: Vec<I> = Vec::new();
        let mut new_vals: Vec<S> = Vec::new();
        while new_ri.len() < first
            invariant
                self.wf(),
                first == self.col_boundaries@[0].value(),
                new_ri.len() <= first,
                new_ri.len() == new_vals.len(),
                forall|t: int| 0 <= t < new_ri.len() ==> #[trigger] new_ri@[t] == self.row_indices@[t],
            decreases first - new_ri.len(),
        {
            let k = new_ri.len();
            new_ri.push(self.row_indices[k]);
            new_vals.push(self.values[k]);
        }
        let mut new_cb: Vec<I> = Vec::new();
        new_cb.push(self.col_boundaries[0]);
        let mut c: usize = 0;
        while c < ncols
            invariant
                self.wf(),
                *self == *old(self),
                rs == rows@,
                n0 == self.values.len(),
                nr == rows.len(),
                nr0 == self.num_rows.value(),
                ncols == self.num_cols.value(),
                nr0 + nr <= I::max_value(),
                I::max_value() <= usize::MAX,
                n0 + total_len(rs, nr as int) <= I::max_value(),
                forall|k: int| 0 <= k < nr ==> (#[trigger] rs[k]).wf(ncols as int),
                0 <= c <= ncols,
                pos.len() == nr,
                forall|r: int| 0 <= r < nr ==> #[trigger] pos@[r] <= rs[r].indices.len(),
                forall|r: int, k: int| 0 <= r < nr && 0 <= k < pos@[r] ==> #[trigger] rs[r].indices@[k].value() < c,
                forall|r: int| 0 <= r < nr && #[trigger] pos@[r] < rs[r].indices.len() ==> rs[r].indices@[pos@[r] as int].value() >= c,
                new_cb.len() == c + 1,
                new_ri.len() == new_vals.len(),
                new_cb@[c as int].value() == new_ri.len(),
                new_cb@[0] == self.col_boundaries@[0],
                new_ri.len() == self.col_boundaries@[c as int].value() + sum_upto(pos@, nr as int),
                forall|k: int| 0 <= k <= c ==> 0 <= #[trigger] new_cb@[k].value() <= new_ri.len(),
                forall|a: int, b: int| 0 <= a < b <= c ==> #[trigger] new_cb@[a].value() <= #[trigger] new_cb@[b].value(),
                forall|k: int| 0 <= k < new_ri.len() ==> 0 <= #[trigger] new_ri@[k].value() < nr0 + nr,
                forall|j: int| 0 <= j < c ==> #[trigger] column_of(new_cb@, new_ri@, new_vals@, j)
                    == self.column(j) + added(rs, j, nr0 as int, nr as int),
            decreases ncols - c,
        {
            let ghost cb_snap = new_cb@;
            let ghost ri_snap = new_ri@;
            let ghost vals_snap = new_vals@;
            let ghost pos_snap = pos@;
            let ghost start = new_ri.len() as int;
            proof {
                lemma_sum_bound(pos@, rs, nr as int);
                assert(self.col_boundaries@[c as int].value() <= self.col_boundaries@[c + 1].value());
            }
            let lo = self.col_boundaries[c].to_usize_unchecked();
            let hi = self.col_boundaries[c + 1].to_usize_unchecked();

            // the column's stored entries
            let mut k: usize = lo;
            while k < hi
                invariant
                    self.wf(),
                    ncols == self.num_cols.value(),
                    nr0 == self.num_rows.value(),
                    c < ncols,
                    lo == self.col_boundaries@[c as int].value(),
                    hi == self.col_boundaries@[c + 1].value(),
                    lo <= k <= hi,
                    start == ri_snap.len(),
                    start == vals_snap.len(),
                    new_ri.len() == new_vals.len(),
                    new_ri.len() == start + (k - lo),
                    start + (hi - lo) <= I::max_value(),
                    new_ri@.subrange(0, start) == ri_snap,
                    new_vals@.subrange(0, start) == vals_snap,
                    segment(new_ri@, new_vals@, start, new_ri.len() as int) == self.column(c as int).subrange(0, k - lo),
                    forall|t: int| 0 <= t < new_ri.len() ==> 0 <= #[trigger] new_ri@[t].value() < nr0 + nr,
                decreases hi - k,
            {
                let ghost seg0 = segment(new_ri@, new_vals@, start, new_ri.len() as int);
                new_ri.push(self.row_indices[k]);
                new_vals.push(self.values[k]);
                k = k + 1;
                proof {
                    assert(segment(new_ri@, new_vals@, start, new_ri.len() as int)
                        =~= seg0.push(self.column(c as int)[k - 1 - lo]));
                    assert(self.column(c as int).subrange(0, k - lo)
                        =~= self.column(c as int).subrange(0, k - 1 - lo).push(self.column(c as int)[k - 1 - lo]));
                    assert(new_ri@.subrange(0, start) =~= ri_snap);
                    assert(new_vals@.subrange(0, start) =~= vals_snap);
                }
            }
            proof {
                assert(self.column(c as int).subrange(0, hi - lo) =~= self.column(c as int));
                assert(added(rs, c as int, nr0 as int, 0) =~= Seq::<(int, S)>::empty());
                assert(self.column(c as int) + added(rs, c as int, nr0 as int, 0) =~= self.column(c as int));
            }

            // the new rows' entries in this column
            let mut r: usize = 0;
            while r < nr
                invariant
                    self.wf(),
                    rs == rows@,
                    nr == rows.len(),
                    ncols == self.num_cols.value(),
                    nr0 == self.num_rows.value(),
                    nr0 + nr <= I::max_value(),
                    n0 == self.values.len(),
                    n0 + total_len(rs, nr as int) <= I::max_value(),
                    forall|k: int| 0 <= k < nr ==> (#[trigger] rs[k]).wf(ncols as int),
                    c < ncols,
                    0 <= r <= nr,
                    I::max_value() <= usize::MAX,
                    start == ri_snap.len(),
                    start == vals_snap.len(),
                    start <= new_ri.len(),
                    pos_snap.len() == nr,
                    pos.len() == nr,
                    forall|q: int| r <= q < nr ==> #[trigger] pos@[q] == pos_snap[q],
                    forall|q: int| 0 <= q < nr ==> #[trigger] pos@[q] <= rs[q].indices.len(),
                    forall|q: int, k: int| 0 <= q < nr && 0 <= k < pos_snap[q] ==> #[trigger] rs[q].indices@[k].value() < c,
                    forall|q: int| 0 <= q < nr && #[trigger] pos_snap[q] < rs[q].indices.len() ==> rs[q].indices@[pos_snap[q] as int].value() >= c,
                    forall|q: int, k: int| 0 <= q < r && 0 <= k < pos@[q] ==> #[trigger] rs[q].indices@[k].value() < c + 1,
                    forall|q: int| 0 <= q < r && #[trigger] pos@[q] < rs[q].indices.len() ==> rs[q].indices@[pos@[q] as int].value() >= c + 1,
                    new_ri.len() == new_vals.len(),
                    new_ri.len() == self.col_boundaries@[c + 1].value() + sum_upto(pos@, nr as int),
                    new_ri@.subrange(0, start) == ri_snap,
                    new_vals@.subrange(0, start) == vals_snap,
                    segment(new_ri@, new_vals@, start, new_ri.len() as int)
                        == self.column(c as int) + added(rs, c as int, nr0 as int, r as int),
                    forall|t: int| 0 <= t < new_ri.len() ==> 0 <= #[trigger] new_ri@[t].value() < nr0 + nr,
                decreases nr - r,
            {
                let p = pos[r];
                let row = &rows[r];
                proof {
                    assert(rs[r as int] == *row);
                    lemma_row_cursor(*row, ncols as int, p as int, c as int);
                }
                if p < row.indices.len() && row.indices[p].to_usize_unchecked() == c {
                    proof {
                        lemma_sum_bound(pos@, rs, nr as int);
                        lemma_sum_update(pos@, r as int, (p + 1) as usize, nr as int);
                        assert(self.col_boundaries@[c + 1].value() <= n0);
                    }
                    let ghost seg0 = segment(new_ri@, new_vals@, start, new_ri.len() as int);
                    new_ri.push(I::from_usize_unchecked(nr0 + r));
                    new_vals.push(row.values[p]);
                    pos.set(r, p + 1);
                    proof {
                        assert(segment(new_ri@, new_vals@, start, new_ri.len() as int)
                            =~= seg0.push(((nr0 + r) as int, row.values@[p as int])));
                        assert(added(rs, c as int, nr0 as int, r + 1)
                            == added(rs, c as int, nr0 as int, r as int).push(((nr0 + r) as int, rs[r as int].at(c as int))));
                        assert(segment(new_ri@, new_vals@, start, new_ri.len() as int)
                            =~= self.column(c as int) + added(rs, c as int, nr0 as int, r + 1));
                        assert(new_ri@.subrange(0, start) =~= ri_snap);
                        assert(new_vals@.subrange(0, start) =~= vals_snap);
                    }
                } else {
                    proof {
                        assert(added(rs, c as int, nr0 as int, r + 1) == added(rs, c as int, nr0 as int, r as int));
                    }
                }
                r = r + 1;
            }
            proof {
                lemma_sum_bound(pos@, rs, nr as int);
                assert(self.col_boundaries@[c + 1].value() <= n0);
            }
            new_cb.push(I::from_usize_unchecked(new_ri.len()));
            proof {
                assert(new_cb@.subrange(0, cb_snap.len() as int) =~= cb_snap);
                assert forall|j: int| 0 <= j < c implies #[trigger] column_of(new_cb@, new_ri@, new_vals@, j)
                    == self.column(j) + added(rs, j, nr0 as int, nr as int) by {
                    lemma_column_of_extend(cb_snap, ri_snap, vals_snap, new_cb@, new_ri@, new_vals@, j);
                }
                assert(column_of(new_cb@, new_ri@, new_vals@, c as int)
                    == self.column(c as int) + added(rs, c as int, nr0 as int, nr as int));
            }
            c = c + 1;
        }
        proof {
            assert forall|r: int| 0 <= r < nr implies #[trigger] pos@[r] == rs[r].indices.len() by {
                if pos@[r] < rs[r].indices.len() {
                    assert(rs[r].indices@[pos@[r] as int].value() < ncols);
                }
            }
            lemma_sum_bound(pos@, rs, nr as int);
        }
        self.num_rows = I::from_usize_unchecked(nr0 + nr);
        self.col_boundaries = new_cb;
        self.row_indices = new_ri;
        self.values = new_vals;
        proof {
            self.lemma_appended(*old(self), rs);
        }
    }
}

proof fn lemma_sum_zero(pos: Seq<usize>, upto: int)
    requires
        0 <= upto <= pos.len(),
        forall|r: int| 0 <= r < pos.len() ==> #[trigger] pos[r] == 0,
    ensures
        sum_upto(pos, upto) == 0,
    decreases upto,
{
    if upto > 0 {
        lemma_sum_zero(pos, upto - 1);
    }
}

/// Extending the three arrays leaves a column that they already held as it was.
proof fn lemma_column_of_extend<S, I: Int>(
    cb: Seq<I>,
    ri: Seq<I>,
    vals: Seq<S>,
    cb2: Seq<I>,
    ri2: Seq<I>,
    vals2: Seq<S>,
    j: int,
)
    requires
        0 <= j,
        j + 1 < cb.len() <= cb2.len(),
        cb2.subrange(0, cb.len() as int) == cb,
        ri.len() <= ri2.len(),
        ri2.subrange(0, ri.len() as int) == ri,
        vals.len() <= vals2.len(),
        vals2.subrange(0, vals.len() as int) == vals,
        0 <= cb[j].value() <= cb[j + 1].value() <= ri.len(),
        cb[j + 1].value() <= vals.len(),
    ensures
        column_of(cb2, ri2, vals2, j) == column_of(cb, ri, vals, j),
{
    assert(cb2[j] == cb[j]);
    assert(cb2[j + 1] == cb[j + 1]);
    let lo = cb[j].value();
    assert forall|k: int| 0 <= k < cb[j + 1].value() - lo implies #[trigger] ri2[lo + k] == ri[lo + k] && vals2[lo + k] == vals[lo + k] by {
        assert(ri2.subrange(0, ri.len() as int)[lo + k] == ri2[lo + k]);
        assert(vals2.subrange(0, vals.len() as int)[lo + k] == vals2[lo + k]);
    }
    assert(column_of(cb2, ri2, vals2, j) =~= column_of(cb, ri, vals, j));
}

/// The three arrays hold the columns `cols`, in order, with row numbers below `nr`.
spec fn built<S, I: Int>(cb: Seq<I>, ri: Seq<I>, vals: Seq<S>, nr: int, cols: Seq<Seq<(int, S)>>) -> bool {
    &&& cb.len() == cols.len() + 1
    &&& ri.len() == vals.len()
    &&& cb[cols.len() as int].value() == ri.len()
    &&& forall|k: int| 0 <= k < cb.len() ==> 0 <= #[trigger] cb[k].value() <= ri.len()
    &&& forall|a: int, b: int| 0 <= a < b < cb.len() ==> #[trigger] cb[a].value() <= #[trigger] cb[b].value()
    &&& forall|t: int| 0 <= t < ri.len() ==> 0 <= #[trigger] ri[t].value() < nr
    &&& forall|j: int| 0 <= j < cols.len() ==> #[trigger] column_of(cb, ri, vals, j) == cols[j]
}

/// Appends the entries at positions `lo..hi` of `src_ri` and `src_vals` as one
/// more column.
fn push_column<S: Copy, I: IntNonnegFitsInUsize>(
    new_cb: &mut Vec<I>,
    new_ri: &mut Vec<I>,
    new_vals: &mut Vec<S>,
    src_ri: &Vec<I>,
    src_vals: &Vec<S>,
    lo: usize,
    hi: usize,
    Ghost(nr): Ghost<int>,
    Ghost(cols): Ghost<Seq<Seq<(int, S)>>>,
)
    requires
        built(old(new_cb)@, old(new_ri)@, old(new_vals)@, nr, cols),
        lo <= hi <= src_ri.len(),
        hi <= src_vals.len(),
        forall|t: int| lo <= t < hi ==> 0 <= #[trigger] src_ri@[t].value() < nr,
        old(new_ri).len() + (hi - lo) <= I::max_value(),
    ensures
        built(final(new_cb)@, final(new_ri)@, final(new_vals)@, nr, cols.push(segment(src_ri@, src_vals@, lo as int, hi as int))),
        final(new_ri).len() == old(new_ri).len() + (hi - lo),
        final(new_cb)@.subrange(0, old(new_cb)@.len() as int) == old(new_cb)@,
        final(new_cb)@[0] == old(new_cb)@[0],
        final(new_ri)@.subrange(0, old(new_ri)@.len() as int) == old(new_ri)@,
        final(new_vals)@.subrange(0, old(new_vals)@.len() as int) == old(new_vals)@,
{
    proof {
        I::lemma_int_properties();
        I::lemma_fits_in_usize();
    }
    let ghost cb0 = new_cb@;
    let ghost ri0 = new_ri@;
    let ghost vals0 = new_vals@;
    let ghost start = new_ri.len() as int;
    let mut k: usize = lo;
    while k < hi
        invariant
            lo <= k <= hi <= src_ri.len(),
            hi <= src_vals.len(),
            new_cb@ == cb0,
            start == ri0.len(),
            start == vals0.len(),
            new_ri.len() == new_vals.len(),
            new_ri.len() == start + (k - lo),
            new_ri@.subrange(0, start) == ri0,
            new_vals@.subrange(0, start) == vals0,
            segment(new_ri@, new_vals@, start, new_ri.len() as int) == segment(src_ri@, src_vals@, lo as int, k as int),
            forall|t: int| lo <= t < hi ==> 0 <= #[trigger] src_ri@[t].value() < nr,
            forall|t: int| 0 <= t < new_ri.len() ==> 0 <= #[trigger] new_ri@[t].value() < nr,
        decreases hi - k,
    {
        let ghost seg0 = segment(new_ri@, new_vals@, start, new_ri.len() as int);
        new_ri.push(src_ri[k]);
        new_vals.push(src_vals[k]);
        k = k + 1;
        proof {
            let e = (src_ri@[k - 1].value(), src_vals@[k - 1]);
            assert(segment(new_ri@, new_vals@, start, new_ri.len() as int) =~= seg0.push(e));
            assert(segment(src_ri@, src_vals@, lo as int, k as int) =~= segment(src_ri@, src_vals@, lo as int, k - 1).push(e));
            assert(new_ri@.subrange(0, start) =~= ri0);
            assert(new_vals@.subrange(0, start) =~= vals0);
        }
    }
    new_cb.push(I::from_usize_unchecked(new_ri.len()));
    proof {
        let cols2 = cols.push(segment(src_ri@, src_vals@, lo as int, hi as int));
        assert(new_cb@.subrange(0, cb0.len() as int) =~= cb0);
        assert forall|j: int| 0 <= j < cols2.len() implies #[trigger] column_of(new_cb@, new_ri@, new_vals@, j) == cols2[j] by {
            if j < cols.len() {
                assert(cb0[j].value() <= cb0[j + 1].value());
                lemma_column_of_extend(cb0, ri0, vals0, new_cb@, new_ri@, new_vals@, j);
            }
        }
    }
}

/// The column whose storage holds position `t`.
proof fn find_col<I: Int>(cb: Seq<I>, t: int, hi: int) -> (j: int)
    requires
        0 < hi < cb.len(),
        forall|a: int, b: int| 0 <= a < b < cb.len() ==> #[trigger] cb[a].value() <= #[trigger] cb[b].value(),
        cb[0].value() <= t < cb[hi].value(),
    ensures
        0 <= j < hi,
        cb[j].value() <= t < cb[j + 1].value(),
    decreases hi,
{
    if cb[hi - 1].value() <= t {
        hi - 1
    } else {
        find_col(cb, t, hi - 1)
    }
}

/// A strictly increasing sequence that holds exactly the columns `0..n` that
/// `idx` does not list is `kept_columns(idx, n)`.
proof fn lemma_unlisted_ascending<I2: Int>(idx: Seq<I2>, s: Seq<int>, n: int)
    requires
        n >= 0,
        forall|x: int, y: int| 0 <= x < y < s.len() ==> #[trigger] s[x] < #[trigger] s[y],
        forall|k: int| 0 <= k < s.len() ==> 0 <= #[trigger] s[k] < n && !listed(idx, s[k]),
        forall|j: int| 0 <= j < n && !listed(idx, j) ==> s.contains(j),
    ensures
        s == kept_columns(idx, n),
    decreases n,
{
    if n == 0 {
        if s.len() > 0 {
            assert(0 <= s[0] < n);
        }
        assert(s =~= Seq::<int>::empty());
    } else if listed(idx, n - 1) {
        assert forall|k: int| 0 <= k < s.len() implies 0 <= #[trigger] s[k] < n - 1 && !listed(idx, s[k]) by {
        }
        lemma_unlisted_ascending(idx, s, n - 1);
    } else {
        assert(s.contains(n - 1));
        let m = choose|m: int| 0 <= m < s.len() && s[m] == n - 1;
        if m < s.len() - 1 {
            assert(s[m] < s[s.len() - 1]);
        }
        let t = s.drop_last();
        assert forall|k: int| 0 <= k < t.len() implies 0 <= #[trigger] t[k] < n - 1 && !listed(idx, t[k]) by {
            assert(t[k] == s[k]);
            assert(s[k] < s[m]);
        }
        assert forall|j: int| 0 <= j < n - 1 && !listed(idx, j) implies t.contains(j) by {
            assert(s.contains(j));
            let q = choose|q: int| 0 <= q < s.len() && s[q] == j;
            assert(q != m);
            assert(t[q] == j);
        }
        assert forall|x: int, y: int| 0 <= x < y < t.len() implies #[trigger] t[x] < #[trigger] t[y] by {
            assert(t[x] == s[x] && t[y] == s[y]);
        }
        lemma_unlisted_ascending(idx, t, n - 1);
        assert(s =~= t.push(n - 1));
    }
}

/// Some entry of `idx` is `c`.
pub open spec fn listed<I2: Int>(idx: Seq<I2>, c: int) -> bool {
    exists|k: int| 0 <= k < idx.len() && #[trigger] idx[k].value() == c
}

/// The columns `0..n` that `idx` does not list, ascending.
pub open spec fn kept_columns<I2: Int>(idx: Seq<I2>, n: int) -> Seq<int>
    decreases n,
{
    if n <= 0 {
        Seq::empty()
    } else if listed(idx, n - 1) {
        kept_columns(idx, n - 1)
    } else {
        kept_columns(idx, n - 1).push(n - 1)
    }
}

proof fn lemma_total_len_mono<S, I>(rows: Seq<SparseRow<S, I>>, a: int, b: int)
    requires
        0 <= a <= b <= rows.len(),
    ensures
        total_len(rows, a) <= total_len(rows, b),
    decreases b - a,
{
    if a < b {
        lemma_total_len_mono(rows, a, b - 1);
    }
}

/// With nothing listed, every column is kept.
proof fn lemma_kept_all<I2: Int>(idx: Seq<I2>, n: int)
    requires
        idx.len() == 0,
        n >= 0,
    ensures
        kept_columns(idx, n).len() == n,
        forall|j: int| 0 <= j < n ==> #[trigger] kept_columns(idx, n)[j] == j,
    decreases n,
{
    if n > 0 {
        lemma_kept_all(idx, n - 1);
    }
}

/// The number of `true` values in `m[0..n]`.
spec fn count_true(m: Seq<bool>, n: int) -> int
    decreases n,
{
    if n <= 0 {
        0
    } else {
        count_true(m, n - 1) + if m[n - 1] { 1int } else { 0 }
    }
}

proof fn lemma_count_set(m: Seq<bool>, p: int, n: int)
    requires
        0 <= p < m.len(),
        0 <= n <= m.len(),
        !m[p],
    ensures
        count_true(m.update(p, true), n) == count_true(m, n) + if p < n { 1int } else { 0 },
    decreases n,
{
    if n > 0 {
        lemma_count_set(m, p, n - 1);
    }
}

proof fn lemma_count_none(m: Seq<bool>, n: int)
    requires
        0 <= n <= m.len(),
        forall|c: int| 0 <= c < m.len() ==> !#[trigger] m[c],
    ensures
        count_true(m, n) == 0,
    decreases n,
{
    if n > 0 {
        lemma_count_none(m, n - 1);
    }
}

/// The sum of `pos[0..upto]`.
pub open spec fn sum_upto(pos: Seq<usize>, upto: int) -> int
    decreases upto,
{
    if upto <= 0 {
        0
    } else {
        sum_upto(pos, upto - 1) + pos[upto - 1]
    }
}

proof fn lemma_sum_bound<S, I>(pos: Seq<usize>, rows: Seq<SparseRow<S, I>>, upto: int)
    requires
        0 <= upto <= pos.len(),
        upto <= rows.len(),
        forall|r: int| 0 <= r < upto ==> #[trigger] pos[r] <= rows[r].indices.len(),
    ensures
        0 <= sum_upto(pos, upto) <= total_len(rows, upto),
        (forall|r: int| 0 <= r < upto ==> #[trigger] pos[r] == rows[r].indices.len())
            ==> sum_upto(pos, upto) == total_len(rows, upto),
    decreases upto,
{
    if upto > 0 {
        lemma_sum_bound(pos, rows, upto - 1);
    }
}

proof fn lemma_sum_update(pos: Seq<usize>, r: int, v: usize, upto: int)
    requires
        0 <= r < pos.len(),
        0 <= upto <= pos.len(),
    ensures
        sum_upto(pos.update(r, v), upto) == sum_upto(pos, upto) + (if r < upto { v - pos[r] } else { 0 }),
    decreases upto,
{
    if upto > 0 {
        lemma_sum_update(pos, r, v, upto - 1);
    }
}

/// Where the cursor `p` of a row stands at column `c`, the row has an entry
/// in column `c` exactly when the cursor points at one.
proof fn lemma_row_cursor<S, I: Int>(row: SparseRow<S, I>, n: int, p: int, c: int)
    requires
        row.wf(n),
        0 <= p <= row.indices.len(),
        forall|k: int| 0 <= k < p ==> #[trigger] row.indices@[k].value() < c,
        p < row.indices.len() ==> row.indices@[p].value() >= c,
    ensures
        row.has(c) <==> (p < row.indices.len() && row.indices@[p].value() == c),
        row.has(c) ==> row.at(c) == row.values@[p],
        p + 1 < row.indices.len() ==> row.indices@[p].value() < row.indices@[p + 1].value(),
{
    if p + 1 < row.indices.len() {
        assert(row.indices@[p].value() < row.indices@[p + 1].value());
    }
    if row.has(c) {
        let k = choose|k: int| 0 <= k < row.indices.len() && #[trigger] row.indices@[k].value() == c;
        if k > p {
            assert(row.indices@[p].value() < row.indices@[k].value());
        }
        assert(k == p);
    }
    if p < row.indices.len() && row.indices@[p].value() == c {
        assert(row.has(c));
    }
}

/// The rows that `added` lists lie below `nr0`, ascend, and carry the values
/// of the rows they come from; each row with an entry in column `c` is listed.
proof fn lemma_added<S, I: Int>(rows: Seq<SparseRow<S, I>>, c: int, nr0: int, upto: int)
    requires
        0 <= upto <= rows.len(),
    ensures
        forall|k: int| 0 <= k < added(rows, c, nr0, upto).len() ==> {
            let e = #[trigger] added(rows, c, nr0, upto)[k];
            &&& nr0 <= e.0 < nr0 + upto
            &&& rows[e.0 - nr0].has(c)
            &&& e.1 == rows[e.0 - nr0].at(c)
        },
        rows_ascending(added(rows, c, nr0, upto)),
        forall|j: int| 0 <= j < upto && #[trigger] rows[j].has(c) ==>
            exists|k: int| 0 <= k < added(rows, c, nr0, upto).len() && #[trigger] added(rows, c, nr0, upto)[k].0 == nr0 + j,
    decreases upto,
{
    if upto > 0 {
        lemma_added(rows, c, nr0, upto - 1);
        let prev = added(rows, c, nr0, upto - 1);
        let cur = added(rows, c, nr0, upto);
        assert forall|j: int| 0 <= j < upto && #[trigger] rows[j].has(c) implies
            exists|k: int| 0 <= k < cur.len() && #[trigger] cur[k].0 == nr0 + j by {
            if j < upto - 1 {
                let k = choose|k: int| 0 <= k < prev.len() && #[trigger] prev[k].0 == nr0 + j;
                assert(cur[k] == prev[k]);
            } else {
                assert(cur[cur.len() - 1].0 == nr0 + j);
            }
        }
    }
}

/// In a sequence whose rows ascend, the entry of the row at position `k` is
/// the value at `k`.
proof fn lemma_seq_entry_at<S>(s: Seq<(int, S)>, k: int)
    requires
        rows_ascending(s),
        0 <= k < s.len(),
    ensures
        seq_entry(s, s[k].0) == Some(s[k].1),
{
    let r = s[k].0;
    assert(s[k].0 == r);
    let k2 = choose|k2: int| 0 <= k2 < s.len() && #[trigger] s[k2].0 == r;
    if k2 < k {
        assert(s[k2].0 < s[k].0);
    } else if k2 > k {
        assert(s[k].0 < s[k2].0);
    }
}

/// Entries of a sequence of rows below `nr0` followed by rows from `nr0` on.
proof fn lemma_seq_entry_concat<S>(s0: Seq<(int, S)>, a: Seq<(int, S)>, nr0: int, r: int)
    requires
        rows_ascending(s0),
        rows_ascending(a),
        forall|k: int| 0 <= k < s0.len() ==> #[trigger] s0[k].0 < nr0,
        forall|k: int| 0 <= k < a.len() ==> #[trigger] a[k].0 >= nr0,
    ensures
        rows_ascending(s0 + a),
        r < nr0 ==> seq_entry(s0 + a, r) == seq_entry(s0, r),
        r >= nr0 ==> seq_entry(s0 + a, r) == seq_entry(a, r),
{
    let s = s0 + a;
    assert forall|x: int, y: int| 0 <= x < y < s.len() implies #[trigger] s[x].0 < #[trigger] s[y].0 by {
        if y < s0.len() {
        } else if x < s0.len() {
            assert(s0[x].0 < nr0 <= a[y - s0.len()].0);
        } else {
            assert(a[x - s0.len()].0 < a[y - s0.len()].0);
        }
    }
    if exists|k: int| 0 <= k < s.len() && #[trigger] s[k].0 == r {
        let k = choose|k: int| 0 <= k < s.len() && #[trigger] s[k].0 == r;
        lemma_seq_entry_at(s, k);
        if k < s0.len() {
            assert(s[k] == s0[k]);
            lemma_seq_entry_at(s0, k);
        } else {
            assert(s[k] == a[k - s0.len()]);
            lemma_seq_entry_at(a, k - s0.len());
        }
    } else {
        if r < nr0 {
            if exists|k: int| 0 <= k < s0.len() && #[trigger] s0[k].0 == r {
                let k = choose|k: int| 0 <= k < s0.len() && #[trigger] s0[k].0 == r;
                assert(s[k].0 == r);
            }
        } else {
            if exists|k: int| 0 <= k < a.len() && #[trigger] a[k].0 == r {
                let k = choose|k: int| 0 <= k < a.len() && #[trigger] a[k].0 == r;
                assert(s[k + s0.len()].0 == r);
            }
        }
    }
}

/// The entry of an appended row in the entries that `added` lists.
proof fn lemma_added_entry<S, I: Int>(rows: Seq<SparseRow<S, I>>, c: int, nr0: int, j: int)
    requires
        0 <= j < rows.len(),
    ensures
        seq_entry(added(rows, c, nr0, rows.len() as int), nr0 + j) == rows[j].entry(c),
{
    let a = added(rows, c, nr0, rows.len() as int);
    lemma_added(rows, c, nr0, rows.len() as int);
    if rows[j].has(c) {
        let k = choose|k: int| 0 <= k < a.len() && #[trigger] a[k].0 == nr0 + j;
        lemma_seq_entry_at(a, k);
    } else {
        if exists|k: int| 0 <= k < a.len() && #[trigger] a[k].0 == nr0 + j {
            let k = choose|k: int| 0 <= k < a.len() && #[trigger] a[k].0 == nr0 + j;
            assert(rows[a[k].0 - nr0].has(c));
        }
    }
}

/// The columns that `kept_columns` lists ascend, lie below `n` and are not
/// listed by `idx`; every column below `n` that `idx` does not list is among
/// them.
pub proof fn lemma_kept_columns<I2: Int>(idx: Seq<I2>, n: int)
    requires
        n >= 0,
    ensures
        forall|x: int, y: int| 0 <= x < y < kept_columns(idx, n).len()
            ==> #[trigger] kept_columns(idx, n)[x] < #[trigger] kept_columns(idx, n)[y],
        forall|k: int| 0 <= k < kept_columns(idx, n).len()
            ==> 0 <= #[trigger] kept_columns(idx, n)[k] < n && !listed(idx, kept_columns(idx, n)[k]),
        forall|j: int| 0 <= j < n && !listed(idx, j) ==> kept_columns(idx, n).contains(j),
    decreases n,
{
    if n > 0 {
        lemma_kept_columns(idx, n - 1);
        let prev = kept_columns(idx, n - 1);
        let cur = kept_columns(idx, n);
        if !listed(idx, n - 1) {
            assert(cur == prev.push(n - 1));
            assert forall|x: int, y: int| 0 <= x < y < cur.len() implies #[trigger] cur[x] < #[trigger] cur[y] by {
                if y < prev.len() {
                    assert(cur[x] == prev[x] && cur[y] == prev[y]);
                } else {
                    assert(cur[x] == prev[x]);
                }
            }
            assert forall|k: int| 0 <= k < cur.len() implies 0 <= #[trigger] cur[k] < n && !listed(idx, cur[k]) by {
                if k < prev.len() {
                    assert(cur[k] == prev[k]);
                }
            }
            assert forall|j: int| 0 <= j < n && !listed(idx, j) implies cur.contains(j) by {
                if j < n - 1 {
                    let m = choose|m: int| 0 <= m < prev.len() && prev[m] == j;
                    assert(cur[m] == j);
                } else {
                    assert(cur[prev.len() as int] == j);
                }
            }
        }
    }
}

} // verus!
