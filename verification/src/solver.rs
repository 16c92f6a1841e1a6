//! The linear program of one coalition: the columns and rows that the operators
//! of the coalition can use.
use crate::error::{Fault, ShapleyError};
use crate::lists::{count_bound, count_where, gather, gather_holds, gather_member};
use crate::lp_builder::{inner, LpBuilderOutput, Share};
use crate::quantity::Real;
use crate::sparse::CscMatrix;
use crate::text::join;
use vstd::prelude::*;

verus! {

/// The entries of a column in row `r`, among the first `k`, as entries of the row.
pub open spec fn part_of_row<T>(col: Seq<(usize, T)>, r: int, j: int, k: int) -> Seq<(usize, T)> {
    gather(
        k,
        |i: int|
            if col[i].0 == r {
                seq![(j as usize, col[i].1)]
            } else {
                Seq::empty()
            },
    )
}

/// An entry of a row in a column is an entry of the column.
pub proof fn part_entry<T>(col: Seq<(usize, T)>, r: int, j: int, k: int, m: int) -> (at: int)
    requires
        0 <= m < part_of_row(col, r, j, k).len(),
    ensures
        0 <= at < k,
        col[at].0 == r,
        part_of_row(col, r, j, k)[m] == (j as usize, col[at].1),
    decreases k,
{
    let front = part_of_row(col, r, j, k - 1);
    assert(part_of_row(col, r, j, k) == front + if col[k - 1].0 == r {
        seq![(j as usize, col[k - 1].1)]
    } else {
        Seq::empty()
    });
    if m < front.len() {
        part_entry(col, r, j, k - 1, m)
    } else {
        k - 1
    }
}

/// The entries of row `r` in the first `n` columns, by column.
pub open spec fn row_of<T>(cols: Seq<Seq<(usize, T)>>, r: int, n: int) -> Seq<(usize, T)> {
    gather(n, |j: int| part_of_row(cols[j], r, j, cols[j].len() as int))
}

/// The rows of a matrix of `m` rows with these columns.
pub open spec fn rows_of<T>(cols: Seq<Seq<(usize, T)>>, m: int) -> Seq<Seq<(usize, T)>> {
    Seq::new(m as nat, |r: int| row_of(cols, r, cols.len() as int))
}

/// Every entry of the rows names a column below `n`.
pub open spec fn rows_within<T>(rows: Seq<Seq<(usize, T)>>, n: int) -> bool {
    forall|r: int, k: int|
        0 <= r < rows.len() && 0 <= k < rows[r].len() ==> (#[trigger] rows[r][k]).0 < n
}

/// The rows of a matrix name only its columns.
pub proof fn rows_name_columns<T>(cols: Seq<Seq<(usize, T)>>, m: int)
    requires
        cols.len() <= usize::MAX,
    ensures
        rows_within(rows_of(cols, m), cols.len() as int),
{
    let rows = rows_of(cols, m);
    assert forall|r: int, k: int| 0 <= r < rows.len() && 0 <= k < rows[r].len() implies (
    #[trigger] rows[r][k]).0 < cols.len() by {
        let f = |j: int| part_of_row(cols[j], r, j, cols[j].len() as int);
        let (j, i) = gather_member(cols.len() as int, f, k);
        let g = |i: int|
            if cols[j][i].0 == r {
                seq![(j as usize, cols[j][i].1)]
            } else {
                Seq::empty()
            };
        let (a, b) = gather_member(cols[j].len() as int, g, i);
    }
}

/// Lists the entries of a matrix row by row.
pub fn rows_from_csc<T: Copy>(matrix: &CscMatrix<T>) -> (r: Vec<Vec<(usize, T)>>)
    requires
        matrix.wf(),
        matrix.rows_fit(),
    ensures
        inner(r@) == rows_of(matrix.cols(), matrix.m as int),
        rows_within(inner(r@), matrix.n as int),
{
    let ghost cols = matrix.cols();
    let mut rows: Vec<Vec<(usize, T)>> = Vec::new();
    for r in 0..matrix.m
        invariant
            rows@.len() == r,
            forall|k: int| 0 <= k < r ==> (#[trigger] rows@[k])@ == Seq::<(usize, T)>::empty(),
    {
        rows.push(Vec::new());
    }
    for j in 0..matrix.n
        invariant
            matrix.wf(),
            matrix.rows_fit(),
            cols == matrix.cols(),
            rows@.len() == matrix.m,
            forall|r: int| 0 <= r < matrix.m ==> (#[trigger] rows@[r])@ == row_of(cols, r, j as int),
    {
        let begin: usize = matrix.colptr[j];
        let end: usize = matrix.colptr[j + 1];
        let ghost before = rows@;
        let ghost col = cols[j as int];
        proof {
            assert(matrix.colptr@[j as int] <= matrix.colptr@[j + 1]);
            assert(matrix.colptr@[j + 1] <= matrix.colptr@[matrix.n as int]);
            assert forall|r: int| 0 <= r < matrix.m implies (#[trigger] rows@[r])@ == before[r]@
                + part_of_row(col, r, j as int, 0) by {
                assert(before[r]@ =~= before[r]@ + part_of_row(col, r, j as int, 0));
            }
        }
        for at in begin..end
            invariant
                matrix.wf(),
                matrix.rows_fit(),
                j < matrix.n,
                cols == matrix.cols(),
                col == cols[j as int],
                begin == matrix.colptr@[j as int],
                end == matrix.colptr@[j + 1],
                end <= matrix.rowval@.len(),
                rows@.len() == matrix.m,
                forall|r: int|
                    0 <= r < matrix.m ==> (#[trigger] rows@[r])@ == before[r]@ + part_of_row(
                        col,
                        r,
                        j as int,
                        at - begin,
                    ),
        {
            let row: usize = matrix.rowval[at];
            let value: T = matrix.nzval[at];
            assert(col[at - begin] == (row, value));
            let ghost so_far = rows@;
            rows[row].push((j, value));
            assert forall|r: int| 0 <= r < matrix.m implies (#[trigger] rows@[r])@ == before[r]@
                + part_of_row(col, r, j as int, at + 1 - begin) by {
                assert(so_far[r]@ == before[r]@ + part_of_row(col, r, j as int, at - begin));
                assert(rows@[r]@ =~= before[r]@ + part_of_row(col, r, j as int, at + 1 - begin));
            }
        }
        assert forall|r: int| 0 <= r < matrix.m implies (#[trigger] rows@[r])@ == row_of(
            cols,
            r,
            j + 1,
        ) by {
            assert(before[r]@ == row_of(cols, r, j as int));
            assert(col.len() == end - begin);
        }
    }
    proof {
        assert(inner(rows@) =~= rows_of(cols, matrix.m as int));
        rows_name_columns(cols, matrix.m as int);
    }
    rows
}

/// The constraints of the whole network row by row, made once for all coalitions.
#[derive(Debug)]
pub struct PrecomputedRows {
    pub eq_rows: Vec<Vec<(usize, i32)>>,
    pub ub_rows: Vec<Vec<(usize, Share)>>,
}

impl PrecomputedRows {
    /// The rows are those of the matrices of a linear program.
    pub open spec fn of(self, primitives: LpBuilderOutput) -> bool {
        &&& inner(self.eq_rows@) == rows_of(primitives.a_eq.cols(), primitives.a_eq.m as int)
        &&& inner(self.ub_rows@) == rows_of(primitives.a_ub.cols(), primitives.a_ub.m as int)
    }

    /// Lists the constraints row by row.
    pub fn new(primitives: &LpBuilderOutput) -> (r: Self)
        requires
            primitives.a_eq.wf(),
            primitives.a_eq.rows_fit(),
            primitives.a_ub.wf(),
            primitives.a_ub.rows_fit(),
        ensures
            r.of(*primitives),
            rows_within(inner(r.eq_rows@), primitives.a_eq.n as int),
            rows_within(inner(r.ub_rows@), primitives.a_ub.n as int),
    {
        PrecomputedRows {
            eq_rows: rows_from_csc(&primitives.a_eq),
            ub_rows: rows_from_csc(&primitives.a_ub),
        }
    }
}

/// An operator with this mask is in the coalition.
pub open spec fn belongs(operator: u32, coalition: u32) -> bool {
    operator & coalition != 0
}

/// What has these two operators is at the coalition's disposal: both of them are in
/// it.
pub open spec fn is_usable(near: Seq<u32>, far: Seq<u32>, coalition: u32, i: int) -> bool {
    belongs(near[i], coalition) && belongs(far[i], coalition)
}

/// The places of what is at the coalition's disposal.
pub open spec fn usable_list(near: Seq<u32>, far: Seq<u32>, coalition: u32) -> Seq<usize> {
    gather(
        near.len() as int,
        |i: int|
            if is_usable(near, far, coalition, i) {
                seq![i as usize]
            } else {
                Seq::empty()
            },
    )
}

/// How many of the first `n` are at the coalition's disposal.
pub open spec fn usable_before(near: Seq<u32>, far: Seq<u32>, coalition: u32, n: int) -> nat {
    count_where(n, |i: int| is_usable(near, far, coalition, i))
}

/// A row with the columns at the coalition's disposal only, counted among those.
pub open spec fn narrowed<T>(
    row: Seq<(usize, T)>,
    near: Seq<u32>,
    far: Seq<u32>,
    coalition: u32,
) -> Seq<(usize, T)> {
    gather(
        row.len() as int,
        |k: int|
            if is_usable(near, far, coalition, row[k].0 as int) {
                seq![
                    (
                        usable_before(near, far, coalition, row[k].0 as int) as usize,
                        row[k].1,
                    ),
                ]
            } else {
                Seq::empty()
            },
    )
}

/// Tables that are filled anew for each coalition.
#[derive(Debug)]
pub struct CoalitionBuffers {
    /// For each column its number in the coalition, or `usize::MAX`.
    pub col_remap: Vec<usize>,
    /// The columns at the coalition's disposal.
    pub keep_cols: Vec<usize>,
    /// The inequalities that concern the coalition.
    pub keep_rows: Vec<usize>,
}

impl CoalitionBuffers {
    /// Tables for a number of columns.
    pub fn new(n_cols: usize) -> (r: Self)
        ensures
            r.col_remap@ == Seq::new(n_cols as nat, |i: int| usize::MAX),
            r.keep_cols@.len() == 0,
            r.keep_rows@.len() == 0,
    {
        let mut col_remap: Vec<usize> = Vec::with_capacity(n_cols);
        for i in 0..n_cols
            invariant
                col_remap@ == Seq::new(i as nat, |i: int| usize::MAX),
        {
            col_remap.push(usize::MAX);
            assert(col_remap@ =~= Seq::new((i + 1) as nat, |i: int| usize::MAX));
        }
        CoalitionBuffers {
            col_remap,
            keep_cols: Vec::with_capacity(n_cols),
            keep_rows: Vec::with_capacity(256),
        }
    }

    /// Empties the tables and keeps their size.
    pub fn reset(&mut self)
        ensures
            final(self).col_remap@ == Seq::new(old(self).col_remap@.len(), |i: int| usize::MAX),
            final(self).keep_cols@.len() == 0,
            final(self).keep_rows@.len() == 0,
    {
        let n: usize = self.col_remap.len();
        for i in 0..n
            invariant
                n == self.col_remap@.len(),
                n == old(self).col_remap@.len(),
                forall|k: int| 0 <= k < i ==> #[trigger] self.col_remap@[k] == usize::MAX,
        {
            self.col_remap[i] = usize::MAX;
        }
        assert(self.col_remap@ =~= Seq::new(old(self).col_remap@.len(), |i: int| usize::MAX));
        self.keep_cols.clear();
        self.keep_rows.clear();
    }

    /// The tables are those of the coalition.
    pub open spec fn describes(
        self,
        coalition: u32,
        col_op1: Seq<u32>,
        col_op2: Seq<u32>,
        row_op1: Seq<u32>,
        row_op2: Seq<u32>,
    ) -> bool {
        &&& self.keep_cols@ == usable_list(col_op1, col_op2, coalition)
        &&& self.keep_rows@ == usable_list(row_op1, row_op2, coalition)
        &&& self.col_remap@.len() >= col_op1.len()
        &&& forall|i: int|
            0 <= i < col_op1.len() ==> #[trigger] self.col_remap@[i] == if is_usable(
                col_op1,
                col_op2,
                coalition,
                i,
            ) {
                usable_before(col_op1, col_op2, coalition, i) as usize
            } else {
                usize::MAX
            }
    }

    /// Fills the tables for a coalition.
    pub fn select(
        &mut self,
        coalition_mask: u32,
        col_op1_mask: &[u32],
        col_op2_mask: &[u32],
        row_op1_mask: &[u32],
        row_op2_mask: &[u32],
    )
        requires
            col_op2_mask@.len() == col_op1_mask@.len(),
            row_op2_mask@.len() == row_op1_mask@.len(),
        ensures
            final(self).describes(
                coalition_mask,
                col_op1_mask@,
                col_op2_mask@,
                row_op1_mask@,
                row_op2_mask@,
            ),
    {
        let n: usize = col_op1_mask.len();
        self.reset();
        while self.col_remap.len() < n
            invariant
                self.keep_cols@.len() == 0,
                self.keep_rows@.len() == 0,
                forall|k: int|
                    0 <= k < self.col_remap@.len() ==> #[trigger] self.col_remap@[k] == usize::MAX,
            decreases n - self.col_remap@.len(),
        {
            self.col_remap.push(usize::MAX);
        }
        let ghost p = |i: int| is_usable(col_op1_mask@, col_op2_mask@, coalition_mask, i);
        let ghost f = |i: int|
            if is_usable(col_op1_mask@, col_op2_mask@, coalition_mask, i) {
                seq![i as usize]
            } else {
                Seq::empty()
            };
        let mut new_col: usize = 0;
        assert(self.keep_cols@ =~= gather(0, f));
        for i in 0..n
            invariant
                n == col_op1_mask@.len(),
                col_op2_mask@.len() == col_op1_mask@.len(),
                p == (|i: int| is_usable(col_op1_mask@, col_op2_mask@, coalition_mask, i)),
                f == (|i: int|
                    if is_usable(col_op1_mask@, col_op2_mask@, coalition_mask, i) {
                        seq![i as usize]
                    } else {
                        Seq::empty()
                    }),
                self.keep_rows@.len() == 0,
                self.keep_cols@ == gather(i as int, f),
                self.col_remap@.len() >= n,
                new_col == count_where(i as int, p),
                new_col <= i,
                forall|k: int|
                    0 <= k < i ==> #[trigger] self.col_remap@[k] == if p(k) {
                        count_where(k, p) as usize
                    } else {
                        usize::MAX
                    },
                forall|k: int|
                    i <= k < self.col_remap@.len() ==> #[trigger] self.col_remap@[k] == usize::MAX,
        {
            let ghost before = self.keep_cols@;
            if (col_op1_mask[i] & coalition_mask) != 0 && (col_op2_mask[i] & coalition_mask) != 0 {
                assert(p(i as int));
                self.col_remap[i] = new_col;
                self.keep_cols.push(i);
                new_col = new_col + 1;
            }
            assert(self.keep_cols@ =~= before + f(i as int));
        }
        let ghost g = |i: int|
            if is_usable(row_op1_mask@, row_op2_mask@, coalition_mask, i) {
                seq![i as usize]
            } else {
                Seq::empty()
            };
        assert(self.keep_rows@ =~= gather(0, g));
        let ghost cols = self.keep_cols@;
        let ghost remap = self.col_remap@;
        for i in 0..row_op1_mask.len()
            invariant
                row_op2_mask@.len() == row_op1_mask@.len(),
                g == (|i: int|
                    if is_usable(row_op1_mask@, row_op2_mask@, coalition_mask, i) {
                        seq![i as usize]
                    } else {
                        Seq::empty()
                    }),
                self.keep_cols@ == cols,
                self.col_remap@ == remap,
                self.keep_rows@ == gather(i as int, g),
        {
            let ghost before = self.keep_rows@;
            if (row_op1_mask[i] & coalition_mask) != 0 && (row_op2_mask[i] & coalition_mask) != 0 {
                self.keep_rows.push(i);
            }
            assert(self.keep_rows@ =~= before + g(i as int));
        }
    }
}

/// Narrows a row to the columns at the coalition's disposal.
fn narrow_row<T: Copy>(
    row: &[(usize, T)],
    col_remap: &[usize],
    Ghost(near): Ghost<Seq<u32>>,
    Ghost(far): Ghost<Seq<u32>>,
    Ghost(coalition): Ghost<u32>,
) -> (r: Vec<(usize, T)>)
    requires
        forall|k: int| 0 <= k < row@.len() ==> (#[trigger] row@[k]).0 < near.len(),
        near.len() <= usize::MAX,
        col_remap@.len() >= near.len(),
        forall|i: int|
            0 <= i < near.len() ==> #[trigger] col_remap@[i] == if is_usable(
                near,
                far,
                coalition,
                i,
            ) {
                usable_before(near, far, coalition, i) as usize
            } else {
                usize::MAX
            },
    ensures
        r@ == narrowed(row@, near, far, coalition),
{
    let ghost f = |k: int|
        if is_usable(near, far, coalition, row@[k].0 as int) {
            seq![(usable_before(near, far, coalition, row@[k].0 as int) as usize, row@[k].1)]
        } else {
            Seq::empty()
        };
    let mut out: Vec<(usize, T)> = Vec::new();
    assert(out@ =~= gather(0, f));
    for k in 0..row.len()
        invariant
            forall|k: int| 0 <= k < row@.len() ==> (#[trigger] row@[k]).0 < near.len(),
            near.len() <= usize::MAX,
            col_remap@.len() >= near.len(),
            forall|i: int|
                0 <= i < near.len() ==> #[trigger] col_remap@[i] == if is_usable(
                    near,
                    far,
                    coalition,
                    i,
                ) {
                    usable_before(near, far, coalition, i) as usize
                } else {
                    usize::MAX
                },
            f == (|k: int|
                if is_usable(near, far, coalition, row@[k].0 as int) {
                    seq![
                        (
                            usable_before(near, far, coalition, row@[k].0 as int) as usize,
                            row@[k].1,
                        ),
                    ]
                } else {
                    Seq::empty()
                }),
            out@ == gather(k as int, f),
    {
        let (old_col, value) = row[k];
        let ghost before = out@;
        assert(row@[k as int].0 < near.len());
        let new_col: usize = col_remap[old_col];
        proof {
            count_bound(old_col as int, |i: int| is_usable(near, far, coalition, i));
        }
        if new_col != usize::MAX {
            out.push((new_col, value));
        }
        assert(out@ =~= before + f(k as int));
    }
    out
}

/// The linear program of one coalition: the columns of the whole network that it
/// keeps, all equalities, and the inequalities that concern it, each with its place
/// among those of the whole network.
#[derive(Debug)]
pub struct CoalitionProgram {
    pub cols: Vec<usize>,
    pub eq_rows: Vec<Vec<(usize, i32)>>,
    pub ub_places: Vec<usize>,
    pub ub_rows: Vec<Vec<(usize, Share)>>,
}

impl CoalitionProgram {
    /// The linear program is that of the coalition.
    pub open spec fn describes(
        self,
        rows: PrecomputedRows,
        coalition: u32,
        col_op1: Seq<u32>,
        col_op2: Seq<u32>,
        row_op1: Seq<u32>,
        row_op2: Seq<u32>,
    ) -> bool {
        &&& self.cols@ == usable_list(col_op1, col_op2, coalition)
        &&& inner(self.eq_rows@) == inner(rows.eq_rows@).map_values(
            |row: Seq<(usize, i32)>| narrowed(row, col_op1, col_op2, coalition),
        )
        &&& self.ub_places@ == usable_list(row_op1, row_op2, coalition)
        &&& inner(self.ub_rows@) == self.ub_places@.map_values(
            |at: usize| narrowed(inner(rows.ub_rows@)[at as int], col_op1, col_op2, coalition),
        )
    }
}

/// What is said where a coalition has no column.
pub open spec fn no_columns() -> Fault {
    Fault::MatrixConstructionError("No columns selected for coalition"@)
}

/// Narrows the linear program of the whole network to a coalition.
pub fn coalition_program(
    precomputed: &PrecomputedRows,
    buffers: &mut CoalitionBuffers,
    coalition_mask: u32,
    col_op1_mask: &[u32],
    col_op2_mask: &[u32],
    row_op1_mask: &[u32],
    row_op2_mask: &[u32],
) -> (r: Result<CoalitionProgram, ShapleyError>)
    requires
        col_op2_mask@.len() == col_op1_mask@.len(),
        row_op2_mask@.len() == row_op1_mask@.len(),
        row_op1_mask@.len() <= precomputed.ub_rows@.len(),
        rows_within(inner(precomputed.eq_rows@), col_op1_mask@.len() as int),
        rows_within(inner(precomputed.ub_rows@), col_op1_mask@.len() as int),
    ensures
        r is Ok <==> exists|i: int|
            0 <= i < col_op1_mask@.len() && #[trigger] is_usable(
                col_op1_mask@,
                col_op2_mask@,
                coalition_mask,
                i,
            ),
        r matches Ok(program) ==> program.describes(
            *precomputed,
            coalition_mask,
            col_op1_mask@,
            col_op2_mask@,
            row_op1_mask@,
            row_op2_mask@,
        ),
        r matches Err(e) ==> e@ == no_columns(),
        final(buffers).describes(
            coalition_mask,
            col_op1_mask@,
            col_op2_mask@,
            row_op1_mask@,
            row_op2_mask@,
        ),
{
    buffers.select(coalition_mask, col_op1_mask, col_op2_mask, row_op1_mask, row_op2_mask);
    let ghost near = col_op1_mask@;
    let ghost far = col_op2_mask@;
    let ghost f = |i: int|
        if is_usable(near, far, coalition_mask, i) {
            seq![i as usize]
        } else {
            Seq::empty()
        };
    if buffers.keep_cols.len() == 0 {
        proof {
            if exists|i: int| 0 <= i < near.len() && #[trigger] is_usable(near, far, coalition_mask, i) {
                let i = choose|i: int|
                    0 <= i < near.len() && #[trigger] is_usable(near, far, coalition_mask, i);
                assert(f(i).len() == 1);
                gather_holds(near.len() as int, f, i, 0);
            }
        }
        return Err(
            ShapleyError::MatrixConstructionError("No columns selected for coalition".to_owned()),
        );
    }
    proof {
        let (i, j) = gather_member(near.len() as int, f, 0);
        assert(is_usable(near, far, coalition_mask, i));
    }
    let n_cols: usize = col_op1_mask.len();
    let mut cols: Vec<usize> = Vec::new();
    for k in 0..buffers.keep_cols.len()
        invariant
            cols@ == buffers.keep_cols@.take(k as int),
    {
        cols.push(buffers.keep_cols[k]);
        assert(cols@ =~= buffers.keep_cols@.take(k + 1));
    }
    assert(cols@ =~= buffers.keep_cols@);
    let mut eq_rows: Vec<Vec<(usize, i32)>> = Vec::new();
    let ghost eq = inner(precomputed.eq_rows@);
    for r in 0..precomputed.eq_rows.len()
        invariant
            eq == inner(precomputed.eq_rows@),
            near == col_op1_mask@,
            far == col_op2_mask@,
            n_cols == near.len(),
            rows_within(eq, near.len() as int),
            buffers.describes(coalition_mask, near, far, row_op1_mask@, row_op2_mask@),
            eq_rows@.len() == r,
            forall|k: int|
                0 <= k < r ==> (#[trigger] eq_rows@[k])@ == narrowed(
                    eq[k],
                    near,
                    far,
                    coalition_mask,
                ),
    {
        let row = &precomputed.eq_rows[r];
        assert(row@ == eq[r as int]);
        assert forall|k: int| 0 <= k < row@.len() implies (#[trigger] row@[k]).0 < near.len() by {
            assert(eq[r as int][k].0 < near.len());
        }
        eq_rows.push(
            narrow_row(
                row.as_slice(),
                buffers.col_remap.as_slice(),
                Ghost(near),
                Ghost(far),
                Ghost(coalition_mask),
            ),
        );
    }
    assert(inner(eq_rows@) =~= eq.map_values(
        |row: Seq<(usize, i32)>| narrowed(row, near, far, coalition_mask),
    ));
    let mut ub_places: Vec<usize> = Vec::new();
    let mut ub_rows: Vec<Vec<(usize, Share)>> = Vec::new();
    let ghost ub = inner(precomputed.ub_rows@);
    let ghost g = |i: int|
        if is_usable(row_op1_mask@, row_op2_mask@, coalition_mask, i) {
            seq![i as usize]
        } else {
            Seq::empty()
        };
    for r in 0..buffers.keep_rows.len()
        invariant
            ub == inner(precomputed.ub_rows@),
            near == col_op1_mask@,
            far == col_op2_mask@,
            n_cols == near.len(),
            rows_within(ub, near.len() as int),
            row_op1_mask@.len() <= precomputed.ub_rows@.len(),
            g == (|i: int|
                if is_usable(row_op1_mask@, row_op2_mask@, coalition_mask, i) {
                    seq![i as usize]
                } else {
                    Seq::empty()
                }),
            buffers.describes(coalition_mask, near, far, row_op1_mask@, row_op2_mask@),
            ub_places@ == buffers.keep_rows@.take(r as int),
            ub_rows@.len() == r,
            forall|k: int|
                0 <= k < r ==> (#[trigger] ub_rows@[k])@ == narrowed(
                    ub[buffers.keep_rows@[k] as int],
                    near,
                    far,
                    coalition_mask,
                ),
    {
        let at: usize = buffers.keep_rows[r];
        proof {
            let (i, j) = gather_member(row_op1_mask@.len() as int, g, r as int);
        }
        let row = &precomputed.ub_rows[at];
        assert(row@ == ub[at as int]);
        assert forall|k: int| 0 <= k < row@.len() implies (#[trigger] row@[k]).0 < near.len() by {
            assert(ub[at as int][k].0 < near.len());
        }
        ub_rows.push(
            narrow_row(
                row.as_slice(),
                buffers.col_remap.as_slice(),
                Ghost(near),
                Ghost(far),
                Ghost(coalition_mask),
            ),
        );
        ub_places.push(at);
        assert(ub_places@ =~= buffers.keep_rows@.take(r + 1));
    }
    assert(ub_places@ =~= buffers.keep_rows@);
    assert(inner(ub_rows@) =~= ub_places@.map_values(
        |at: usize| narrowed(ub[at as int], near, far, coalition_mask),
    ));
    Ok(CoalitionProgram { cols, eq_rows, ub_places, ub_rows })
}

/// How the solver of a linear program ended.
#[derive(Debug)]
pub enum ModelStatus {
    Optimal,
    Infeasible,
    UnboundedOrInfeasible,
    /// The time for one linear program ran out.
    ReachedTimeLimit,
    /// Any other end, by its name.
    Other(String),
}

/// How the linear program of a coalition ended.
#[derive(Clone, Copy, Debug, PartialEq, Eq, Structural)]
pub enum SolveStatus {
    Solved,
    Infeasible,
}

/// What came of the linear program of a coalition.
#[derive(Clone, Copy, Debug, PartialEq, Eq, Structural)]
pub struct CoalitionResult {
    pub status: SolveStatus,
    pub objective_value: Real,
}

/// Reads how the solver ended. An infeasible program counts as such with no
/// objective; an end that is neither optimal nor infeasible is an error.
pub fn read_status(status: ModelStatus, objective: Real) -> (r: Result<
    CoalitionResult,
    ShapleyError,
>)
    ensures
        match status {
            ModelStatus::Optimal => r == Ok::<CoalitionResult, ShapleyError>(
                (CoalitionResult { status: SolveStatus::Solved, objective_value: objective }),
            ),
            ModelStatus::Infeasible | ModelStatus::UnboundedOrInfeasible => r == Ok::<
                CoalitionResult,
                ShapleyError,
            >(
                (CoalitionResult {
                    status: SolveStatus::Infeasible,
                    objective_value: Real { bits: 0 },
                }),
            ),
            ModelStatus::ReachedTimeLimit => r matches Err(e) && e@ == Fault::LpSolver(
                "HiGHS solver failed: ReachedTimeLimit"@,
            ),
            ModelStatus::Other(name) => r matches Err(e) && e@ == Fault::LpSolver(
                "HiGHS solver failed: "@ + name@,
            ),
        },
{
    match status {
        ModelStatus::Optimal => Ok(
            CoalitionResult { status: SolveStatus::Solved, objective_value: objective },
        ),
        ModelStatus::Infeasible => Ok(
            CoalitionResult { status: SolveStatus::Infeasible, objective_value: Real { bits: 0 } },
        ),
        ModelStatus::UnboundedOrInfeasible => Ok(
            CoalitionResult { status: SolveStatus::Infeasible, objective_value: Real { bits: 0 } },
        ),
        ModelStatus::ReachedTimeLimit => Err(
            ShapleyError::LpSolver("HiGHS solver failed: ReachedTimeLimit".to_owned()),
        ),
        ModelStatus::Other(name) => Err(
            ShapleyError::LpSolver(join("HiGHS solver failed: ", name.as_str())),
        ),
    }
}

/// What a coalition is worth: the cost that it saves, which is the least cost with
/// its sign turned; nothing where its linear program is infeasible.
pub fn coalition_value(result: CoalitionResult) -> (r: Option<Real>)
    ensures
        r == match result.status {
            SolveStatus::Solved => Some(result.objective_value.turned()),
            SolveStatus::Infeasible => None::<Real>,
        },
{
    match result.status {
        SolveStatus::Solved => Some(result.objective_value.negate()),
        SolveStatus::Infeasible => None,
    }
}

/// What a coalition is worth by the end of the solver on its linear program: the cost that
/// it saves; nothing where the solver came to no least cost.
pub open spec fn worth_shown(status: ModelStatus, objective: Real) -> Option<Real> {
    if status is Optimal {
        Some(objective.turned())
    } else {
        None
    }
}

/// What to do after a coalition was solved on the model of the whole network.
#[derive(Clone, Copy, Debug, PartialEq, Eq, Structural)]
pub enum AfterWarm {
    /// Its value, or nothing where it has none.
    Value(Option<Real>),
    /// Solve its own linear program from scratch.
    Rescue,
}

/// Reads how the solver ended on the model of the whole network. Where its time ran
/// out, the coalition gets a second chance; where it failed otherwise, the coalition has
/// no value.
pub fn after_warm(status: ModelStatus, objective: Real) -> (r: AfterWarm)
    ensures
        r == match status {
            ModelStatus::ReachedTimeLimit => AfterWarm::Rescue,
            _ => AfterWarm::Value(worth_shown(status, objective)),
        },
{
    match status {
        ModelStatus::ReachedTimeLimit => AfterWarm::Rescue,
        other => match read_status(other, objective) {
            Ok(result) => AfterWarm::Value(coalition_value(result)),
            Err(_) => AfterWarm::Value(None),
        },
    }
}

/// Reads how the solver ended on a coalition's own linear program; `limit` is the time
/// for it, in words. Where the time ran out, nothing is computed from what is known so
/// far; where the solver failed otherwise, the coalition has no value.
pub fn after_cold(status: ModelStatus, objective: Real, limit: &str) -> (r: Result<
    Option<Real>,
    ShapleyError,
>)
    ensures
        match status {
            ModelStatus::ReachedTimeLimit => r matches Err(e) && e@ == Fault::LpSolver(
                "a coalition exceeded the LP time limit of "@ + limit@,
            ),
            _ => r == Ok::<Option<Real>, ShapleyError>(worth_shown(status, objective)),
        },
{
    match status {
        ModelStatus::ReachedTimeLimit => Err(
            ShapleyError::LpSolver(join("a coalition exceeded the LP time limit of ", limit)),
        ),
        other => match read_status(other, objective) {
            Ok(result) => Ok(coalition_value(result)),
            Err(_) => Ok(None),
        },
    }
}

/// Which columns of the model of the whole network are open; the others are held at
/// zero.
#[derive(Debug)]
pub struct ColumnGate {
    pub col_active: Vec<bool>,
}

/// The columns that change, each with its new state, in order.
pub open spec fn flips(before: Seq<bool>, near: Seq<u32>, far: Seq<u32>, coalition: u32) -> Seq<
    (usize, bool),
> {
    gather(
        before.len() as int,
        |i: int|
            if before[i] != is_usable(near, far, coalition, i) {
                seq![(i as usize, is_usable(near, far, coalition, i))]
            } else {
                Seq::empty()
            },
    )
}

impl ColumnGate {
    /// All columns open.
    pub fn all_open(n_cols: usize) -> (r: Self)
        ensures
            r.col_active@ == Seq::new(n_cols as nat, |i: int| true),
    {
        let mut col_active: Vec<bool> = Vec::new();
        for i in 0..n_cols
            invariant
                col_active@ == Seq::new(i as nat, |i: int| true),
        {
            col_active.push(true);
            assert(col_active@ =~= Seq::new((i + 1) as nat, |i: int| true));
        }
        ColumnGate { col_active }
    }

    /// Opens the columns at the coalition's disposal and shuts the others. Gives the
    /// columns that change, and how many are open.
    pub fn switch_to(
        &mut self,
        coalition_mask: u32,
        col_op1_mask: &[u32],
        col_op2_mask: &[u32],
    ) -> (r: (Vec<(usize, bool)>, usize))
        requires
            col_op1_mask@.len() >= old(self).col_active@.len(),
            col_op2_mask@.len() >= old(self).col_active@.len(),
        ensures
            final(self).col_active@ == Seq::new(
                old(self).col_active@.len(),
                |i: int| is_usable(col_op1_mask@, col_op2_mask@, coalition_mask, i),
            ),
            r.0@ == flips(old(self).col_active@, col_op1_mask@, col_op2_mask@, coalition_mask),
            r.1 == usable_before(
                col_op1_mask@,
                col_op2_mask@,
                coalition_mask,
                old(self).col_active@.len() as int,
            ),
    {
        let ghost before = self.col_active@;
        let n: usize = self.col_active.len();
        let ghost p = |i: int| is_usable(col_op1_mask@, col_op2_mask@, coalition_mask, i);
        let ghost f = |i: int|
            if before[i] != is_usable(col_op1_mask@, col_op2_mask@, coalition_mask, i) {
                seq![(i as usize, is_usable(col_op1_mask@, col_op2_mask@, coalition_mask, i))]
            } else {
                Seq::empty()
            };
        let mut changes: Vec<(usize, bool)> = Vec::new();
        let mut open: usize = 0;
        assert(changes@ =~= gather(0, f));
        for i in 0..n
            invariant
                n == before.len(),
                n == self.col_active@.len(),
                col_op1_mask@.len() >= n,
                col_op2_mask@.len() >= n,
                p == (|i: int| is_usable(col_op1_mask@, col_op2_mask@, coalition_mask, i)),
                f == (|i: int|
                    if before[i] != is_usable(col_op1_mask@, col_op2_mask@, coalition_mask, i) {
                        seq![
                            (
                                i as usize,
                                is_usable(col_op1_mask@, col_op2_mask@, coalition_mask, i),
                            ),
                        ]
                    } else {
                        Seq::empty()
                    }),
                changes@ == gather(i as int, f),
                open == count_where(i as int, p),
                open <= i,
                forall|k: int|
                    0 <= k < i ==> #[trigger] self.col_active@[k] == is_usable(
                        col_op1_mask@,
                        col_op2_mask@,
                        coalition_mask,
                        k,
                    ),
                forall|k: int| i <= k < n ==> #[trigger] self.col_active@[k] == before[k],
        {
            let ghost so_far = changes@;
            let active = (col_op1_mask[i] & coalition_mask) != 0 && (col_op2_mask[i]
                & coalition_mask) != 0;
            assert(active == p(i as int));
            if active {
                open = open + 1;
            }
            if active != self.col_active[i] {
                changes.push((i, active));
                self.col_active[i] = active;
            }
            assert(changes@ =~= so_far + f(i as int));
        }
        assert(self.col_active@ =~= Seq::new(
            before.len(),
            |i: int| is_usable(col_op1_mask@, col_op2_mask@, coalition_mask, i),
        ));
        (changes, open)
    }
}

} // verus!
