//! Fixed-size two-dimensional array stored as a flat vector in row-major
//! order.

use vstd::prelude::*;

verus! {

/// Reported when rows of differing lengths are handed to construction.
/// The layout requires every row to hold the same number of elements, so
/// this is a caller logic error rather than an ordinary runtime condition.
#[derive(Clone, Copy, Debug, PartialEq, Eq, Structural)]
pub struct InconsistentRowLength;

/// Fixed-size two-dimensional array stored as a flat vector in row-major
/// order. The dimensions never change once the array is constructed.
#[derive(Debug, Clone)]
pub struct Array2<T> {
    data: Vec<T>,
    num_cols: usize,
}

impl<T> View for Array2<T> {
    type V = Seq<T>;

    closed spec fn view(&self) -> Seq<T> {
        self.data@
    }
}

/// The concatenation of the given rows, in order: the row-major flat
/// layout of a two-dimensional array.
pub open spec fn flat_rows<T>(rows: Seq<Seq<T>>) -> Seq<T>
    decreases rows.len(),
{
    if rows.len() == 0 {
        Seq::empty()
    } else {
        flat_rows(rows.drop_last()) + rows.last()
    }
}

/// Concatenating rows of equal width gives as many elements as rows
/// times width.
pub proof fn lemma_flat_rows_len<T>(rows: Seq<Seq<T>>, width: int)
    requires
        forall|i: int| 0 <= i < rows.len() ==> (#[trigger] rows[i]).len() == width,
    ensures
        flat_rows(rows).len() == rows.len() * width,
    decreases rows.len(),
{
    if rows.len() == 0 {
    } else {
        lemma_flat_rows_len(rows.drop_last(), width);
        assert(flat_rows(rows).len() == (rows.len() - 1) * width + width);
        assert((rows.len() - 1) * width + width == rows.len() as int * width) by (nonlinear_arith);
    }
}

/// Row-major layout: the row at a given index of the concatenation is
/// the corresponding contiguous block.
pub proof fn lemma_flat_rows_block<T>(rows: Seq<Seq<T>>, width: int, row_index: int)
    requires
        forall|i: int| 0 <= i < rows.len() ==> (#[trigger] rows[i]).len() == width,
        0 <= row_index < rows.len(),
        width >= 0,
    ensures
        flat_rows(rows).subrange(row_index * width, (row_index + 1) * width) == rows[row_index],
    decreases rows.len(),
{
    lemma_flat_rows_len(rows, width);
    let flat = flat_rows(rows);
    if row_index == rows.len() - 1 {
        lemma_flat_rows_len(rows.drop_last(), width);
        assert(row_index * width == flat.len() - width) by (nonlinear_arith)
            requires
                flat.len() == rows.len() * width,
                row_index == rows.len() - 1,
        ;
        assert(flat.subrange(row_index * width, (row_index + 1) * width) =~= rows[row_index]);
    } else {
        lemma_flat_rows_block(rows.drop_last(), width, row_index);
        lemma_flat_rows_len(rows.drop_last(), width);
        assert(0 <= row_index * width <= (row_index + 1) * width <= (rows.len() - 1)
            * width) by (nonlinear_arith)
            requires
                0 <= row_index < rows.len() - 1,
                width >= 0,
        ;
        assert(flat.subrange(row_index * width, (row_index + 1) * width) =~= flat_rows(
            rows.drop_last(),
        ).subrange(row_index * width, (row_index + 1) * width));
    }
}

/// Whether the flat row-major position `p` lies in column `j`, for rows
/// of width `w`.
pub open spec fn in_column(p: int, w: int, j: int) -> bool {
    p % w == j
}

/// The row that the flat row-major position `p` lies in, for rows of
/// width `w`.
pub open spec fn row_of(p: int, w: int) -> int {
    p / w
}

/// The flat row-major position of column `j` in row `k`, for rows of
/// width `w`.
pub open spec fn slot(k: int, w: int, j: int) -> int {
    k * w + j
}

/// How column membership, row numbers and column slots move when one
/// whole row of width `w` is peeled off the front of the buffer.
proof fn lemma_column_arith(w: int, j: int)
    requires
        w > 0,
        0 <= j < w,
    ensures
        forall|p: int|
            0 <= p < w ==> ((#[trigger] in_column(p, w, j)) <==> p == j) && row_of(p, w) == 0,
        forall|p: int|
            w <= p ==> ((#[trigger] in_column(p, w, j)) <==> in_column(p - w, w, j)) && row_of(
                p,
                w,
            ) == row_of(p - w, w) + 1,
        forall|k: int| 1 <= k ==> #[trigger] slot(k, w, j) == slot(k - 1, w, j) + w,
        forall|k: int| #[trigger] slot(k, w, j) == k * w + j,
        slot(0, w, j) == j,
{
    assert forall|p: int| 0 <= p < w implies ((#[trigger] in_column(p, w, j)) <==> p == j)
        && row_of(p, w) == 0 by {
        vstd::arithmetic::div_mod::lemma_small_mod(p as nat, w as nat);
        vstd::arithmetic::div_mod::lemma_basic_div(p, w);
    }
    assert forall|p: int| w <= p implies ((#[trigger] in_column(p, w, j)) <==> in_column(
        p - w,
        w,
        j,
    )) && row_of(p, w) == row_of(p - w, w) + 1 by {
        vstd::arithmetic::div_mod::lemma_mod_sub_multiples_vanish(p, w);
        vstd::arithmetic::div_mod::lemma_hoist_over_denominator(p - w, 1, w as nat);
    }
    assert forall|k: int| 1 <= k implies #[trigger] slot(k, w, j) == slot(k - 1, w, j) + w by {
        assert(k * w == (k - 1) * w + w) by (nonlinear_arith);
    }
}

impl<T> Array2<T> {
    /// The number of columns, at the specification level.
    pub closed spec fn cols_spec(&self) -> int {
        self.num_cols as int
    }

    /// The layout invariant: the flat data splits into whole rows.
    pub open spec fn wf(&self) -> bool {
        &&& self.cols_spec() == 0 ==> self@.len() == 0
        &&& self.cols_spec() > 0 ==> self@.len() as int % self.cols_spec() == 0
    }

    /// The number of rows, at the specification level.
    pub open spec fn rows_spec(&self) -> int {
        if self.cols_spec() == 0 {
            0
        } else {
            self@.len() as int / self.cols_spec()
        }
    }

    /// The row at the given index, as a sequence.
    pub open spec fn row_spec(&self, row_index: int) -> Seq<T> {
        self@.subrange(row_index * self.cols_spec(), (row_index + 1) * self.cols_spec())
    }

    /// The column at the given index, as a sequence.
    pub open spec fn col_spec(&self, col_index: int) -> Seq<T> {
        Seq::new(self.rows_spec() as nat, |r: int| self@[r * self.cols_spec() + col_index])
    }

    /// Creates an [`Array2`] of the given dimensions with all elements set
    /// to the given value.
    pub fn new(num_cols: usize, num_rows: usize, init_value: T) -> (r: Self) where T: Copy
        requires
            num_cols * num_rows <= usize::MAX,
        ensures
            r.wf(),
            r.cols_spec() == num_cols,
            num_cols > 0 ==> r.rows_spec() == num_rows,
            r@.len() == num_cols * num_rows,
            forall|i: int| 0 <= i < r@.len() ==> r@[i] == init_value,
    {
        let n = num_cols * num_rows;
        let mut data: Vec<T> = Vec::new();
        let mut i: usize = 0;
        while i < n
            invariant
                i <= n,
                data@.len() == i,
                forall|j: int| 0 <= j < i ==> data@[j] == init_value,
            decreases n - i,
        {
            data.push(init_value);
            i += 1;
        }
        let r = Array2 { data, num_cols };
        proof {
            if num_cols > 0 {
                assert(r@.len() as int % (num_cols as int) == 0 && r@.len() as int / (
                num_cols as int) == num_rows) by (nonlinear_arith)
                    requires
                        r@.len() == num_cols * num_rows,
                        num_cols > 0,
                ;
            }
        }
        r
    }

    /// Creates an [`Array2`] from the given rows, which must all hold the
    /// same number of elements. The elements are laid out in row-major
    /// order, i.e. in the order the rows present them.
    pub fn new_from_rows(rows: Vec<Vec<T>>) -> (r: Result<Self, InconsistentRowLength>)
        ensures
            match r {
                Ok(a) => {
                    &&& a.wf()
                    &&& forall|i: int|
                        0 <= i < rows@.len() ==> (#[trigger] rows@[i])@.len() == rows@[0]@.len()
                    &&& a.cols_spec() == (if rows@.len() == 0 {
                        0int
                    } else {
                        rows@[0]@.len() as int
                    })
                    &&& a@ == flat_rows(rows@.map_values(|v: Vec<T>| v@))
                    &&& a.cols_spec() > 0 ==> a.rows_spec() == rows@.len()
                },
                Err(_) => exists|i: int|
                    0 <= i < rows@.len() && (#[trigger] rows@[i])@.len() != rows@[0]@.len(),
            },
    {
        let ghost orig = rows@.map_values(|v: Vec<T>| v@);
        let num_cols = if rows.len() > 0 {
            rows[0].len()
        } else {
            0
        };
        let mut rest = rows;
        let mut data: Vec<T> = Vec::new();
        let ghost total = orig.len() as int;
        proof {
            assert(orig.subrange(0, 0) =~= Seq::<Seq<T>>::empty());
        }
        let mut k: usize = 0;
        while k < rest.len()
            invariant
                k <= rest@.len(),
                rest@.len() == total,
                total == orig.len(),
                orig == rows@.map_values(|v: Vec<T>| v@),
                total == rows@.len(),
                forall|i: int| k <= i < total ==> (#[trigger] rest@[i])@ == orig[i],
                num_cols as int == (if total == 0 {
                    0int
                } else {
                    orig[0].len() as int
                }),
                forall|i: int| 0 <= i < k ==> (#[trigger] orig[i]).len() == num_cols,
                data@ == flat_rows(orig.subrange(0, k as int)),
                data@.len() == k * num_cols,
            decreases total - k,
        {
            if rest[k].len() != num_cols {
                proof {
                    assert(orig[k as int] == rows@[k as int]@);
                    assert(orig[0] == rows@[0]@);
                    assert(0 <= k < rows@.len() && rows@[k as int]@.len() != rows@[0]@.len());
                }
                return Err(InconsistentRowLength);
            }
            let ghost prev_data = data@;
            let mut row: Vec<T> = Vec::new();
            core::mem::swap(&mut row, &mut rest[k]);
            let ghost row_view = row@;
            data.append(&mut row);
            proof {
                assert(orig.subrange(0, k as int + 1).drop_last() =~= orig.subrange(0, k as int));
                assert(orig.subrange(0, k as int + 1).last() == orig[k as int]);
                assert(data@ == flat_rows(orig.subrange(0, k as int + 1)));
                assert((k + 1) * num_cols == k * num_cols + num_cols) by (nonlinear_arith);
            }
            k += 1;
        }
        proof {
            assert(orig.subrange(0, total) =~= orig);
        }
        let a = Array2 { data, num_cols };
        proof {
            if num_cols > 0 {
                assert(a@.len() as int % (num_cols as int) == 0 && a@.len() as int / (
                num_cols as int) == total) by (nonlinear_arith)
                    requires
                        a@.len() == total * num_cols,
                        num_cols > 0,
                ;
            }
            assert forall|i: int| 0 <= i < rows@.len() implies (#[trigger] rows@[i])@.len()
                == rows@[0]@.len() by {
                assert(orig[i] == rows@[i]@);
                assert(orig[0] == rows@[0]@);
            }
        }
        Ok(a)
    }

    /// Returns the number of columns (elements per row).
    pub fn num_cols(&self) -> (n: usize)
        ensures
            n == self.cols_spec(),
    {
        self.num_cols
    }

    /// Returns the number of rows.
    pub fn num_rows(&self) -> (n: usize)
        ensures
            n == self.rows_spec(),
    {
        if self.num_cols == 0 {
            0
        } else {
            self.data.len() / self.num_cols
        }
    }

    /// Returns the number of elements across all rows.
    pub fn num_elements(&self) -> (n: usize)
        ensures
            n == self@.len(),
    {
        self.data.len()
    }

    /// Row-major structure: an array laid out from rows of equal width
    /// holds each of those rows as the corresponding contiguous block,
    /// and as many of them as were given.
    pub proof fn lemma_rows_give_blocks(&self, rs: Seq<Seq<T>>)
        requires
            self.wf(),
            self.cols_spec() > 0,
            self@ == flat_rows(rs),
            forall|i: int| 0 <= i < rs.len() ==> (#[trigger] rs[i]).len() == self.cols_spec(),
        ensures
            self.rows_spec() == rs.len(),
            forall|i: int| 0 <= i < rs.len() ==> self.row_spec(i) == rs[i],
    {
        let c = self.cols_spec();
        lemma_flat_rows_len(rs, c);
        assert(self@.len() as int / c == rs.len()) by (nonlinear_arith)
            requires
                self@.len() == rs.len() * c,
                c > 0,
        ;
        assert forall|i: int| 0 <= i < rs.len() implies self.row_spec(i) == rs[i] by {
            lemma_flat_rows_block(rs, c, i);
        }
    }

    /// In a well-formed array, a row index below the row count addresses
    /// a whole block inside the data.
    proof fn lemma_row_block_in_bounds(&self, row_index: int)
        requires
            self.wf(),
            self.cols_spec() > 0,
            0 <= row_index < self.rows_spec(),
        ensures
            0 <= row_index * self.cols_spec(),
            (row_index + 1) * self.cols_spec() <= self@.len(),
            row_index * self.cols_spec() + self.cols_spec() == (row_index + 1) * self.cols_spec(),
    {
        let c = self.cols_spec();
        let l = self@.len() as int;
        vstd::arithmetic::div_mod::lemma_fundamental_div_mod(l, c);
        vstd::arithmetic::mul::lemma_mul_inequality(row_index + 1, l / c, c);
        assert(c * (l / c) == (l / c) * c) by (nonlinear_arith);
        assert(0 <= row_index * c) by (nonlinear_arith)
            requires
                0 <= row_index,
                c > 0,
        ;
        assert(row_index * c + c == (row_index + 1) * c) by (nonlinear_arith);
    }

    /// Returns a slice of the underlying buffer with the elements of the
    /// row at the given index, or `None` if the row index is out of
    /// bounds.
    pub fn row(&self, row_index: usize) -> (r: Option<&[T]>)
        requires
            self.wf(),
        ensures
            match r {
                Some(s) => row_index < self.rows_spec() && s@ == self.row_spec(row_index as int),
                None => row_index >= self.rows_spec(),
            },
    {
        if self.num_cols == 0 {
            return None;
        }
        let nrows = self.data.len() / self.num_cols;
        if row_index < nrows {
            proof {
                self.lemma_row_block_in_bounds(row_index as int);
            }
            let start = row_index * self.num_cols;
            let end = start + self.num_cols;
            Some(vstd::slice::slice_subrange(self.data.as_slice(), start, end))
        } else {
            None
        }
    }

    /// Returns a mutable slice of the underlying buffer with the elements
    /// of the row at the given index, or `None` if the row index is out
    /// of bounds. The rest of the array is untouched, whatever the caller
    /// writes through the slice.
    pub fn row_mut(&mut self, row_index: usize) -> (r: Option<&mut [T]>)
        requires
            old(self).wf(),
        ensures
            match r {
                Some(s) => row_index < old(self).rows_spec() && s@ == old(self).row_spec(
                    row_index as int,
                ) && final(self)@ == old(self)@.subrange(
                    0,
                    row_index * old(self).cols_spec(),
                ) + final(s)@ + old(self)@.subrange(
                    (row_index + 1) * old(self).cols_spec(),
                    old(self)@.len() as int,
                ) && final(self).cols_spec() == old(self).cols_spec(),
                None => row_index >= old(self).rows_spec() && final(self)@ == old(self)@
                    && final(self).cols_spec() == old(self).cols_spec(),
            },
    {
        if self.num_cols == 0 {
            return None;
        }
        let nrows = self.data.len() / self.num_cols;
        if row_index < nrows {
            proof {
                self.lemma_row_block_in_bounds(row_index as int);
            }
            let start = row_index * self.num_cols;
            let width = self.num_cols;
            let slice = self.data.as_mut_slice();
            let (_head, rest) = slice.split_at_mut(start);
            let (row, _tail) = rest.split_at_mut(width);
            Some(row)
        } else {
            None
        }
    }

    /// Returns the rows, each as a vector holding a copy of the row's
    /// elements, in row order.
    pub fn rows(&self) -> (r: Vec<Vec<T>>) where T: Copy
        requires
            self.wf(),
        ensures
            r@.len() == self.rows_spec(),
            forall|i: int| 0 <= i < r@.len() ==> (#[trigger] r@[i])@ == self.row_spec(i),
    {
        let nrows = self.num_rows();
        let n_elems: usize = self.data.len();
        let mut out: Vec<Vec<T>> = Vec::new();
        let mut i: usize = 0;
        while i < nrows
            invariant
                self.wf(),
                i <= nrows,
                nrows == self.rows_spec(),
                self@.len() == n_elems,
                out@.len() == i,
                forall|p: int| 0 <= p < i ==> (#[trigger] out@[p])@ == self.row_spec(p),
            decreases nrows - i,
        {
            proof {
                self.lemma_row_block_in_bounds(i as int);
            }
            let start = i * self.num_cols;
            let mut rowv: Vec<T> = Vec::new();
            let mut j: usize = 0;
            while j < self.num_cols
                invariant
                    self.wf(),
                    j <= self.cols_spec(),
                    start == i * self.cols_spec(),
                    start + self.cols_spec() <= self@.len(),
                    self@.len() <= usize::MAX,
                    rowv@.len() == j,
                    forall|q: int| 0 <= q < j ==> rowv@[q] == self@[start + q],
                decreases self.cols_spec() - j,
            {
                rowv.push(self.data[start + j]);
                j += 1;
            }
            proof {
                assert(rowv@ =~= self.row_spec(i as int));
            }
            out.push(rowv);
            i += 1;
        }
        out
    }

    /// Copies the elements of a column that is known to be in bounds.
    fn col_copy(&self, col_index: usize) -> (v: Vec<T>) where T: Copy
        requires
            self.wf(),
            col_index < self.cols_spec(),
        ensures
            v@ == self.col_spec(col_index as int),
    {
        let n_elems: usize = self.data.len();
        let nrows = n_elems / self.num_cols;
        let mut v: Vec<T> = Vec::new();
        let mut r: usize = 0;
        while r < nrows
            invariant
                self.wf(),
                col_index < self.cols_spec(),
                r <= nrows,
                nrows == self.rows_spec(),
                self@.len() == n_elems,
                v@.len() == r,
                forall|q: int| 0 <= q < r ==> v@[q] == self@[q * self.cols_spec() + col_index],
            decreases nrows - r,
        {
            proof {
                self.lemma_row_block_in_bounds(r as int);
            }
            let idx = r * self.num_cols + col_index;
            v.push(self.data[idx]);
            r += 1;
        }
        proof {
            assert(v@ =~= self.col_spec(col_index as int));
        }
        v
    }

    /// Returns a vector holding a copy of the elements of the column at
    /// the given index, in row order, or `None` if the column index is
    /// out of bounds.
    pub fn col(&self, col_index: usize) -> (r: Option<Vec<T>>) where T: Copy
        requires
            self.wf(),
        ensures
            match r {
                Some(v) => col_index < self.cols_spec() && v@ == self.col_spec(col_index as int),
                None => col_index >= self.cols_spec(),
            },
    {
        if col_index < self.num_cols {
            Some(self.col_copy(col_index))
        } else {
            None
        }
    }

    /// Collects a mutable reference to every element of one column of a
    /// row-major buffer: one reference per whole row, each to the slot at
    /// `col_index` within its row.
    fn column_refs<'a>(s: &'a mut [T], width: usize, col_index: usize) -> (r: Vec<&'a mut T>)
        requires
            width > 0,
            col_index < width,
            old(s)@.len() as int % width as int == 0,
        ensures
            r@.len() == old(s)@.len() as int / width as int,
            forall|k: int|
                0 <= k < r@.len() ==> *(#[trigger] r@[k]) == old(s)@[slot(k, width as int,
                col_index as int)],
            final(s)@ =~= Seq::new(
                old(s)@.len(),
                |p: int|
                    if in_column(p, width as int, col_index as int) {
                        *final(r@[row_of(p, width as int)])
                    } else {
                        old(s)@[p]
                    },
            ),
        decreases old(s)@.len(),
    {
        let ghost orig = s@;
        let ghost n = s@.len() as int;
        let ghost w = width as int;
        let ghost j = col_index as int;
        proof {
            lemma_column_arith(w, j);
        }
        if s.len() < width {
            proof {
                vstd::arithmetic::div_mod::lemma_small_mod(n as nat, w as nat);
                assert(n == 0);
            }
            Vec::new()
        } else {
            proof {
                assert((n - w) % w == 0 && n / w == (n - w) / w + 1) by {
                    vstd::arithmetic::div_mod::lemma_mod_sub_multiples_vanish(n, w);
                    vstd::arithmetic::div_mod::lemma_hoist_over_denominator(n - w, 1, w as nat);
                }
            }
            let ghost m = n / w;
            proof {
                assert(n == m * w) by {
                    vstd::arithmetic::div_mod::lemma_fundamental_div_mod(n, w);
                }
            }
            let ghost s0 = s;
            let (chunk, rest) = s.split_at_mut(width);
            let ghost chunk0 = chunk;
            let ghost rest0 = rest;
            let (_front, tail) = chunk.split_at_mut(col_index);
            let ghost front0 = _front;
            let ghost tail0 = tail;
            let e_opt = tail.first_mut();
            let mut r = Self::column_refs(rest, width, col_index);
            match e_opt {
                Some(e) => {
                    let ghost e0 = e;
                    let ghost r_rest = r@;
                    r.insert(0, e);
                    proof {
                        assert(r@.len() == r_rest.len() + 1);
                        assert forall|q: int| 0 <= q < r_rest.len() implies #[trigger] r_rest[q]
                            == r@[q + 1] by {}
                        assert forall|k: int| 0 <= k < r@.len() implies *(#[trigger] r@[k])
                            == orig[slot(k, w, j)] by {
                            if k == 0 {
                                assert(slot(0, w, j) == j);
                            } else {
                                assert(r_rest[k - 1] == r@[k]);
                                assert(0 <= slot(k - 1, w, j) && slot(k, w, j)
                                    < m * w) by (nonlinear_arith)
                                    requires
                                        1 <= k < m,
                                        0 <= j < w,
                                ;
                                assert(*r_rest[k - 1] == orig.subrange(w, n)[slot(k - 1, w, j)]);
                                assert(orig.subrange(w, n)[slot(k - 1, w, j)] == orig[slot(
                                    k - 1,
                                    w,
                                    j,
                                ) + w]);
                                assert(slot(k - 1, w, j) + w == slot(k, w, j));
                            }
                        }
                        assert(final(s0)@ == final(chunk0)@ + final(rest0)@);
                        assert(final(chunk0)@ == final(front0)@ + final(tail0)@);
                        assert(final(front0)@ == orig.subrange(0, j));
                        assert(final(tail0)@ == orig.subrange(j, w).update(0, *final(e0)));
                        assert(final(rest0)@ == Seq::new(
                            (n - w) as nat,
                            |p: int|
                                if in_column(p, w, j) {
                                    *final(r_rest[row_of(p, w)])
                                } else {
                                    orig.subrange(w, n)[p]
                                },
                        ));
                        assert forall|p: int| 0 <= p < n implies final(s0)@[p] == (if in_column(
                            p,
                            w,
                            j,
                        ) {
                            *final(r@[row_of(p, w)])
                        } else {
                            orig[p]
                        }) by {
                            if p < w {
                                assert(final(s0)@[p] == final(chunk0)@[p]);
                                if p < j {
                                    assert(final(chunk0)@[p] == orig[p]);
                                } else if p == j {
                                    assert(final(chunk0)@[p] == *final(e0));
                                    assert(*final(r@[0]) == *final(e0));
                                } else {
                                    assert(final(chunk0)@[p] == orig.subrange(j, w)[p - j]);
                                }
                            } else {
                                assert(final(s0)@[p] == final(rest0)@[p - w]);
                                if in_column(p, w, j) {
                                    assert(0 <= row_of(p - w, w) < r_rest.len()) by {
                                        vstd::arithmetic::div_mod::lemma_div_pos_is_pos(p - w, w);
                                        assert(n - w == (m - 1) * w) by (nonlinear_arith)
                                            requires
                                                n == m * w,
                                        ;
                                        vstd::arithmetic::div_mod::lemma_div_by_multiple_is_strongly_ordered(
                                            p - w,
                                            n - w,
                                            m - 1,
                                            w,
                                        );
                                    }
                                    assert(final(rest0)@[p - w] == *final(r_rest[row_of(
                                        p - w,
                                        w,
                                    )]));
                                    assert(r_rest[row_of(p - w, w)] == r@[row_of(p, w)]);
                                } else {
                                    assert(final(rest0)@[p - w] == orig.subrange(w, n)[p - w]);
                                }
                            }
                        }
                        assert(final(s0)@ =~= Seq::new(
                            orig.len(),
                            |p: int|
                                if in_column(p, w, j) {
                                    *final(r@[row_of(p, w)])
                                } else {
                                    orig[p]
                                },
                        ));
                    }
                },
                None => {
                    proof {
                        assert(false);
                    }
                },
            }
            r
        }
    }

    /// Returns mutable references to the elements of the column at the
    /// given index, one per row and in row order, or `None` if the column
    /// index is out of bounds. The rest of the array is untouched,
    /// whatever the caller writes through the references.
    pub fn col_mut(&mut self, col_index: usize) -> (r: Option<Vec<&mut T>>)
        requires
            old(self).wf(),
        ensures
            match r {
                Some(refs) => {
                    &&& col_index < old(self).cols_spec()
                    &&& refs@.len() == old(self).rows_spec()
                    &&& forall|k: int|
                        0 <= k < refs@.len() ==> *(#[trigger] refs@[k]) == old(self)@[slot(
                            k,
                            old(self).cols_spec(),
                            col_index as int,
                        )]
                    &&& final(self)@ =~= Seq::new(
                        old(self)@.len(),
                        |p: int|
                            if in_column(p, old(self).cols_spec(), col_index as int) {
                                *final(refs@[row_of(p, old(self).cols_spec())])
                            } else {
                                old(self)@[p]
                            },
                    )
                    &&& final(self).cols_spec() == old(self).cols_spec()
                    &&& final(self).wf()
                },
                None => col_index >= old(self).cols_spec() && final(self)@ == old(self)@
                    && final(self).cols_spec() == old(self).cols_spec(),
            },
    {
        if col_index < self.num_cols {
            let width = self.num_cols;
            let slice = self.data.as_mut_slice();
            Some(Self::column_refs(slice, width, col_index))
        } else {
            None
        }
    }

    /// Returns the columns, each as a vector holding a copy of the
    /// column's elements, in column order.
    pub fn cols(&self) -> (r: Vec<Vec<T>>) where T: Copy
        requires
            self.wf(),
        ensures
            r@.len() == self.cols_spec(),
            forall|j: int| 0 <= j < r@.len() ==> (#[trigger] r@[j])@ == self.col_spec(j),
    {
        let mut out: Vec<Vec<T>> = Vec::new();
        let mut j: usize = 0;
        while j < self.num_cols
            invariant
                self.wf(),
                j <= self.cols_spec(),
                out@.len() == j,
                forall|p: int| 0 <= p < j ==> (#[trigger] out@[p])@ == self.col_spec(p),
            decreases self.cols_spec() - j,
        {
            out.push(self.col_copy(j));
            j += 1;
        }
        out
    }

    /// Returns a slice of the underlying buffer (row-major order).
    pub fn elements(&self) -> (r: &[T])
        ensures
            r@ == self@,
    {
        self.data.as_slice()
    }

    /// Returns a mutable slice of the underlying buffer (row-major order).
    /// A slice cannot change its length, so the layout invariant is kept
    /// however the elements are changed.
    pub fn elements_mut(&mut self) -> (r: &mut [T])
        ensures
            r@ == old(self)@,
            final(self)@ == final(r)@,
            final(self).cols_spec() == old(self).cols_spec(),
    {
        self.data.as_mut_slice()
    }
}

} // verus!

