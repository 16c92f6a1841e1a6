//! Sparse matrices, stored column by column.
use crate::error::ShapleyError;
use crate::lists::gather;
use crate::quantity::Real;
use vstd::prelude::*;

verus! {

/// A matrix in compressed sparse column form.
#[derive(Debug, Clone)]
pub struct CscMatrix<T> {
    /// Number of rows.
    pub m: usize,
    /// Number of columns.
    pub n: usize,
    /// Where each column begins in the two lists below, and where the last ends.
    pub colptr: Vec<usize>,
    /// Row of each entry.
    pub rowval: Vec<usize>,
    /// Value of each entry.
    pub nzval: Vec<T>,
}

/// The entries from `a` up to `b` of a list of rows and a list of values.
pub open spec fn segment<T>(rows: Seq<usize>, vals: Seq<T>, a: int, b: int) -> Seq<(usize, T)> {
    Seq::new((b - a) as nat, |k: int| (rows[a + k], vals[a + k]))
}

/// The places in `ptr` never go down.
pub open spec fn ascending(ptr: Seq<usize>) -> bool {
    forall|i: int, j: int| 0 <= i <= j < ptr.len() ==> #[trigger] ptr[i] <= #[trigger] ptr[j]
}

impl<T> CscMatrix<T> {
    /// The column pointers split the entries into columns.
    pub open spec fn wf(self) -> bool {
        &&& self.colptr@.len() == self.n + 1
        &&& self.colptr@[0] == 0
        &&& ascending(self.colptr@)
        &&& self.colptr@[self.n as int] == self.rowval@.len()
        &&& self.rowval@.len() == self.nzval@.len()
    }

    /// Column `j`: its entries, row and value, in the order in which they are
    /// stored.
    pub open spec fn col(self, j: int) -> Seq<(usize, T)> {
        segment(self.rowval@, self.nzval@, self.colptr@[j] as int, self.colptr@[j + 1] as int)
    }

    /// The columns.
    pub open spec fn cols(self) -> Seq<Seq<(usize, T)>> {
        Seq::new(self.n as nat, |j: int| self.col(j))
    }

    /// Every entry lies in a row of the matrix.
    pub open spec fn rows_fit(self) -> bool {
        forall|k: int| 0 <= k < self.rowval@.len() ==> #[trigger] self.rowval@[k] < self.m
    }
}

/// Every row that the columns name is below `m`.
pub open spec fn columns_fit<T>(cols: Seq<Seq<(usize, T)>>, m: int) -> bool {
    forall|j: int, k: int|
        0 <= j < cols.len() && 0 <= k < cols[j].len() ==> (#[trigger] cols[j][k]).0 < m
}

impl<T: Clone> CscMatrix<T> {
    /// A matrix from its parts.
    pub fn new(m: usize, n: usize, colptr: Vec<usize>, rowval: Vec<usize>, nzval: Vec<T>) -> (r:
        CscMatrix<T>)
        requires
            colptr@.len() == n + 1,
            rowval@.len() == nzval@.len(),
        ensures
            r == (CscMatrix { m, n, colptr, rowval, nzval }),
    {
        CscMatrix { m, n, colptr, rowval, nzval }
    }

    /// Number of entries.
    pub fn nnz(&self) -> (r: usize)
        ensures
            r == self.nzval@.len(),
    {
        self.nzval.len()
    }
}

/// A matrix under construction: entries are added to the open column, which
/// is then closed.
pub struct ColumnWriter<T> {
    pub colptr: Vec<usize>,
    pub rowval: Vec<usize>,
    pub nzval: Vec<T>,
}

impl<T: Clone> ColumnWriter<T> {
    pub open spec fn wf(self) -> bool {
        &&& self.colptr@.len() >= 1
        &&& self.colptr@[0] == 0
        &&& ascending(self.colptr@)
        &&& self.colptr@.last() <= self.rowval@.len()
        &&& self.rowval@.len() == self.nzval@.len()
    }

    /// The columns closed so far.
    pub open spec fn closed_cols(self) -> Seq<Seq<(usize, T)>> {
        Seq::new(
            (self.colptr@.len() - 1) as nat,
            |j: int|
                segment(
                    self.rowval@,
                    self.nzval@,
                    self.colptr@[j] as int,
                    self.colptr@[j + 1] as int,
                ),
        )
    }

    /// The column that is open.
    pub open spec fn open_col(self) -> Seq<(usize, T)> {
        segment(
            self.rowval@,
            self.nzval@,
            self.colptr@.last() as int,
            self.rowval@.len() as int,
        )
    }

    /// No column yet.
    pub fn start() -> (r: ColumnWriter<T>)
        ensures
            r.wf(),
            r.closed_cols() == Seq::<Seq<(usize, T)>>::empty(),
            r.open_col() == Seq::<(usize, T)>::empty(),
    {
        let mut colptr: Vec<usize> = Vec::new();
        colptr.push(0);
        let r = ColumnWriter { colptr, rowval: Vec::new(), nzval: Vec::new() };
        assert(r.closed_cols() =~= Seq::<Seq<(usize, T)>>::empty());
        assert(r.open_col() =~= Seq::<(usize, T)>::empty());
        r
    }

    /// Adds an entry to the open column.
    pub fn entry(&mut self, row: usize, value: T)
        requires
            old(self).wf(),
        ensures
            final(self).wf(),
            final(self).closed_cols() == old(self).closed_cols(),
            final(self).open_col() == old(self).open_col().push((row, value)),
    {
        self.rowval.push(row);
        self.nzval.push(value);
        proof {
            assert(self.open_col() =~= old(self).open_col().push((row, value)));
            assert(self.closed_cols() =~= old(self).closed_cols()) by {
                assert forall|j: int| 0 <= j < self.closed_cols().len() implies (
                #[trigger] self.closed_cols()[j]) == old(self).closed_cols()[j] by {
                    assert(self.colptr@[j + 1] <= self.colptr@.last());
                    assert(self.closed_cols()[j] =~= old(self).closed_cols()[j]);
                }
            }
        }
    }

    /// Closes the open column and opens the next.
    pub fn close(&mut self)
        requires
            old(self).wf(),
        ensures
            final(self).wf(),
            final(self).closed_cols() == old(self).closed_cols().push(old(self).open_col()),
            final(self).open_col() == Seq::<(usize, T)>::empty(),
    {
        self.colptr.push(self.rowval.len());
        proof {
            assert(self.open_col() =~= Seq::<(usize, T)>::empty());
            assert(self.closed_cols() =~= old(self).closed_cols().push(old(self).open_col()));
        }
    }

    /// Adds the entries of column `j` of a matrix, `shift` rows further down.
    pub fn copy_col(&mut self, matrix: &CscMatrix<T>, j: usize, shift: usize) where T: Copy
        requires
            old(self).wf(),
            matrix.wf(),
            j < matrix.n,
            forall|k: int|
                0 <= k < matrix.col(j as int).len() ==> (#[trigger] matrix.col(j as int)[k]).0
                    + shift <= usize::MAX,
        ensures
            final(self).wf(),
            final(self).closed_cols() == old(self).closed_cols(),
            final(self).open_col() == old(self).open_col() + shifted(
                matrix.col(j as int),
                shift as int,
            ),
    {
        let ghost whole = shifted(matrix.col(j as int), shift as int);
        let begin: usize = matrix.colptr[j];
        let end: usize = matrix.colptr[j + 1];
        proof {
            assert(matrix.colptr@[j as int] <= matrix.colptr@[j + 1]);
            assert(matrix.colptr@[j + 1] <= matrix.colptr@[matrix.n as int]);
            assert(self.open_col() =~= old(self).open_col() + whole.take(0));
        }
        for k in begin..end
            invariant
                self.wf(),
                matrix.wf(),
                j < matrix.n,
                begin == matrix.colptr@[j as int],
                end == matrix.colptr@[j + 1],
                end <= matrix.rowval@.len(),
                whole == shifted(matrix.col(j as int), shift as int),
                forall|k: int|
                    0 <= k < matrix.col(j as int).len() ==> (#[trigger] matrix.col(j as int)[k]).0
                        + shift <= usize::MAX,
                self.closed_cols() == old(self).closed_cols(),
                self.open_col() == old(self).open_col() + whole.take(k - begin),
        {
            assert(matrix.col(j as int)[k - begin] == (
                matrix.rowval@[k as int],
                matrix.nzval@[k as int],
            ));
            self.entry(matrix.rowval[k] + shift, matrix.nzval[k]);
            assert(whole.take(k + 1 - begin) =~= whole.take(k - begin).push(whole[k - begin]));
            assert(self.open_col() =~= old(self).open_col() + whole.take(k + 1 - begin));
        }
        assert(whole.take(end - begin) =~= whole);
    }

    /// The matrix of the closed columns.
    pub fn finish(self, m: usize) -> (r: CscMatrix<T>)
        requires
            self.wf(),
            self.open_col().len() == 0,
        ensures
            r.wf(),
            r.m == m,
            r.n == self.closed_cols().len(),
            r.cols() == self.closed_cols(),
            columns_fit(r.cols(), m as int) ==> r.rows_fit(),
    {
        let ghost closed = self.closed_cols();
        let n: usize = self.colptr.len() - 1;
        let r = CscMatrix::new(m, n, self.colptr, self.rowval, self.nzval);
        assert(r.cols() =~= closed);
        proof {
            if columns_fit(r.cols(), m as int) {
                columns_cover(r);
            }
        }
        r
    }
}

/// A column moved `shift` rows down.
pub open spec fn shifted<T>(col: Seq<(usize, T)>, shift: int) -> Seq<(usize, T)> {
    Seq::new(col.len(), |k: int| ((col[k].0 + shift) as usize, col[k].1))
}

/// Every stored entry belongs to a column.
pub proof fn entry_in_column<T>(a: CscMatrix<T>, k: int, upto: int) -> (j: int)
    requires
        a.wf(),
        0 <= k < a.rowval@.len(),
        0 < upto <= a.n,
        k < a.colptr@[upto],
    ensures
        0 <= j < a.n,
        a.colptr@[j] <= k < a.colptr@[j + 1],
    decreases upto,
{
    if a.colptr@[upto - 1] <= k {
        upto - 1
    } else {
        entry_in_column(a, k, upto - 1)
    }
}

/// Where the columns keep to the rows of the matrix, its entries do.
pub proof fn columns_cover<T>(a: CscMatrix<T>)
    requires
        a.wf(),
        columns_fit(a.cols(), a.m as int),
    ensures
        a.rows_fit(),
{
    assert forall|k: int| 0 <= k < a.rowval@.len() implies #[trigger] a.rowval@[k] < a.m by {
        let j = entry_in_column(a, k, a.n as int);
        assert(a.cols()[j][k - a.colptr@[j]].0 == a.rowval@[k]);
    }
}

/// Where the entries keep to the rows of the matrix, its columns do.
pub proof fn columns_within<T>(a: CscMatrix<T>)
    requires
        a.wf(),
        a.rows_fit(),
    ensures
        columns_fit(a.cols(), a.m as int),
{
    assert forall|j: int, k: int| 0 <= j < a.cols().len() && 0 <= k < a.cols()[j].len() implies (
    #[trigger] a.cols()[j][k]).0 < a.m by {
        assert(a.colptr@[j + 1] <= a.colptr@[a.n as int]);
        assert(a.cols()[j][k].0 == a.rowval@[a.colptr@[j] + k]);
    }
}

/// Where an entry of row `r` belongs in a column: behind those of its row and
/// of the rows above.
pub open spec fn slot<T>(col: Seq<(usize, T)>, r: usize) -> int
    decreases col.len(),
{
    if col.len() == 0 || col.last().0 <= r {
        col.len() as int
    } else {
        slot(col.drop_last(), r)
    }
}

/// The entries that `triplets` (row, column, value) name for column `j`,
/// ordered by row, those of one row in the order given.
pub open spec fn placed<T>(triplets: Seq<(usize, usize, T)>, j: int) -> Seq<(usize, T)>
    decreases triplets.len(),
{
    if triplets.len() == 0 {
        Seq::empty()
    } else {
        let before = placed(triplets.drop_last(), j);
        let t = triplets.last();
        if t.1 == j {
            before.insert(slot(before, t.0), (t.0, t.2))
        } else {
            before
        }
    }
}

/// The columns that triplets make up.
pub open spec fn placed_cols<T>(triplets: Seq<(usize, usize, T)>, n: int) -> Seq<Seq<(usize, T)>> {
    Seq::new(n as nat, |j: int| placed(triplets, j))
}

/// The slot lies in the column.
pub proof fn slot_bounds<T>(col: Seq<(usize, T)>, r: usize)
    ensures
        0 <= slot(col, r) <= col.len(),
    decreases col.len(),
{
    if col.len() > 0 && col.last().0 > r {
        slot_bounds(col.drop_last(), r);
    }
}

/// The place for row `r` in a column.
fn find_slot<T>(col: &Vec<(usize, T)>, r: usize) -> (p: usize)
    ensures
        p == slot(col@, r),
        p <= col@.len(),
{
    let mut p: usize = col.len();
    assert(col@.take(p as int) =~= col@);
    while p > 0 && col[p - 1].0 > r
        invariant
            p <= col@.len(),
            slot(col@, r) == slot(col@.take(p as int), r),
        decreases p,
    {
        assert(col@.take(p as int).drop_last() =~= col@.take(p - 1));
        p = p - 1;
    }
    p
}

/// Sorts triplets (row, column, value) into columns.
fn bucket<T: Copy>(triplets: &Vec<(usize, usize, T)>, n: usize) -> (r: Vec<Vec<(usize, T)>>)
    requires
        forall|k: int| 0 <= k < triplets@.len() ==> (#[trigger] triplets@[k]).1 < n,
    ensures
        r@.len() == n,
        forall|j: int| 0 <= j < n ==> (#[trigger] r@[j])@ == placed(triplets@, j),
{
    let mut buckets: Vec<Vec<(usize, T)>> = Vec::new();
    for j in 0..n
        invariant
            buckets@.len() == j,
            forall|i: int|
                0 <= i < j ==> (#[trigger] buckets@[i])@ == Seq::<(usize, T)>::empty(),
    {
        buckets.push(Vec::new());
    }
    for k in 0..triplets.len()
        invariant
            buckets@.len() == n,
            forall|k: int| 0 <= k < triplets@.len() ==> (#[trigger] triplets@[k]).1 < n,
            forall|j: int|
                0 <= j < n ==> (#[trigger] buckets@[j])@ == placed(triplets@.take(k as int), j),
    {
        let (row, column, value) = triplets[k];
        let ghost before = buckets@;
        assert(triplets@.take(k + 1).drop_last() =~= triplets@.take(k as int));
        let p = find_slot(&buckets[column], row);
        buckets[column].insert(p, (row, value));
        assert forall|j: int| 0 <= j < n implies (#[trigger] buckets@[j])@ == placed(
            triplets@.take(k + 1),
            j,
        ) by {
            if j != column {
                assert(buckets@[j] == before[j]);
            }
        }
    }
    assert(triplets@.take(triplets@.len() as int) =~= triplets@);
    buckets
}

/// Builds a matrix from triplets (row, column, value).
pub fn matrix_from_triplets<T: Copy>(
    triplets: &Vec<(usize, usize, T)>,
    n_rows: usize,
    n_cols: usize,
) -> (r: CscMatrix<T>)
    requires
        forall|k: int| 0 <= k < triplets@.len() ==> (#[trigger] triplets@[k]).1 < n_cols,
    ensures
        r.wf(),
        r.m == n_rows,
        r.n == n_cols,
        r.cols() == placed_cols(triplets@, n_cols as int),
        (forall|k: int| 0 <= k < triplets@.len() ==> (#[trigger] triplets@[k]).0 < n_rows)
            ==> r.rows_fit(),
{
    let buckets = bucket(triplets, n_cols);
    let mut out: ColumnWriter<T> = ColumnWriter::start();
    let ghost whole = placed_cols(triplets@, n_cols as int);
    assert(whole.take(0) =~= Seq::<Seq<(usize, T)>>::empty());
    for j in 0..n_cols
        invariant
            out.wf(),
            out.open_col().len() == 0,
            buckets@.len() == n_cols,
            whole == placed_cols(triplets@, n_cols as int),
            forall|j: int| 0 <= j < n_cols ==> (#[trigger] buckets@[j])@ == placed(triplets@, j),
            out.closed_cols() == whole.take(j as int),
    {
        let col = &buckets[j];
        assert(out.open_col() =~= col@.take(0));
        for k in 0..col.len()
            invariant
                out.wf(),
                out.closed_cols() == whole.take(j as int),
                out.open_col() == col@.take(k as int),
        {
            let (row, value) = col[k];
            out.entry(row, value);
            assert(col@.take(k + 1) =~= col@.take(k as int).push(col@[k as int]));
        }
        assert(col@.take(col@.len() as int) =~= col@);
        out.close();
        assert(whole.take(j + 1) =~= whole.take(j as int).push(whole[j as int]));
    }
    assert(whole.take(n_cols as int) =~= whole);
    proof {
        if forall|k: int| 0 <= k < triplets@.len() ==> (#[trigger] triplets@[k]).0 < n_rows {
            assert forall|j: int, k: int|
                0 <= j < whole.len() && 0 <= k < whole[j].len() implies (#[trigger] whole[j][k]).0
                < n_rows by {
                placed_rows(triplets@, j, n_rows as int);
            }
        }
    }
    out.finish(n_rows)
}

/// Columns keep to the rows that the triplets name.
pub proof fn placed_rows<T>(triplets: Seq<(usize, usize, T)>, j: int, m: int)
    requires
        forall|k: int| 0 <= k < triplets.len() ==> (#[trigger] triplets[k]).0 < m,
    ensures
        forall|k: int| 0 <= k < placed(triplets, j).len() ==> (#[trigger] placed(triplets, j)[k]).0
            < m,
    decreases triplets.len(),
{
    if triplets.len() > 0 {
        let front = triplets.drop_last();
        assert forall|k: int| 0 <= k < front.len() implies (#[trigger] front[k]).0 < m by {
            assert(front[k] == triplets[k]);
        }
        placed_rows(front, j, m);
        let before = placed(front, j);
        let t = triplets.last();
        slot_bounds(before, t.0);
        assert(triplets[triplets.len() - 1].0 < m);
        if t.1 == j {
            let p = slot(before, t.0);
            assert forall|k: int| 0 <= k < placed(triplets, j).len() implies (
            #[trigger] placed(triplets, j)[k]).0 < m by {
                if k < p {
                    assert(placed(triplets, j)[k] == before[k]);
                } else if k > p {
                    assert(placed(triplets, j)[k] == before[k - 1]);
                }
            }
        }
    }
}

/// A column is ordered by row.
pub open spec fn rows_ascend<T>(col: Seq<(usize, T)>) -> bool {
    forall|i: int, j: int| 0 <= i <= j < col.len() ==> (#[trigger] col[i]).0 <= (#[trigger] col[j]).0
}

/// Below the slot stand the rows up to `r`, from it on the rows beyond.
pub proof fn slot_splits<T>(col: Seq<(usize, T)>, r: usize)
    requires
        rows_ascend(col),
    ensures
        forall|k: int| 0 <= k < slot(col, r) ==> (#[trigger] col[k]).0 <= r,
        forall|k: int| slot(col, r) <= k < col.len() ==> (#[trigger] col[k]).0 > r,
    decreases col.len(),
{
    if col.len() > 0 && col.last().0 > r {
        let front = col.drop_last();
        assert forall|i: int, j: int| 0 <= i <= j < front.len() implies (#[trigger] front[i]).0 <= (
        #[trigger] front[j]).0 by {
            assert(front[i] == col[i] && front[j] == col[j]);
        }
        slot_splits(front, r);
        slot_bounds(front, r);
        assert forall|k: int| 0 <= k < slot(col, r) implies (#[trigger] col[k]).0 <= r by {
            assert(front[k] == col[k]);
        }
        assert forall|k: int| slot(col, r) <= k < col.len() implies (#[trigger] col[k]).0 > r by {
            if k < front.len() {
                assert(front[k] == col[k]);
            }
        }
    }
}

/// Every column that triplets make up is ordered by row.
pub proof fn placed_ascends<T>(triplets: Seq<(usize, usize, T)>, j: int)
    ensures
        rows_ascend(placed(triplets, j)),
    decreases triplets.len(),
{
    if triplets.len() > 0 {
        let before = placed(triplets.drop_last(), j);
        placed_ascends(triplets.drop_last(), j);
        let t = triplets.last();
        slot_splits(before, t.0);
        slot_bounds(before, t.0);
    }
}

/// Builds a matrix from triplets (row, column, value), which are left ordered
/// by column and row.
pub fn from_triplets<T: Copy>(
    triplets: &mut Vec<(usize, usize, T)>,
    n_rows: usize,
    n_cols: usize,
) -> (r: Result<CscMatrix<T>, ShapleyError>)
    requires
        forall|k: int| 0 <= k < old(triplets)@.len() ==> (#[trigger] old(triplets)@[k]).1 < n_cols,
    ensures
        r matches Ok(a) && {
            &&& a.wf()
            &&& a.m == n_rows
            &&& a.n == n_cols
            &&& a.cols() == placed_cols(old(triplets)@, n_cols as int)
            &&& (forall|k: int|
                0 <= k < old(triplets)@.len() ==> (#[trigger] old(triplets)@[k]).0 < n_rows)
                ==> a.rows_fit()
        },
        final(triplets)@ == listed(placed_cols(old(triplets)@, n_cols as int), n_cols as int),
{
    let a = matrix_from_triplets(triplets, n_rows, n_cols);
    let ghost whole = a.cols();
    let mut sorted: Vec<(usize, usize, T)> = Vec::new();
    for j in 0..n_cols
        invariant
            a.wf(),
            a.n == n_cols,
            whole == a.cols(),
            sorted@ == listed(whole, j as int),
    {
        let begin: usize = a.colptr[j];
        let end: usize = a.colptr[j + 1];
        proof {
            assert(a.colptr@[j as int] <= a.colptr@[j + 1]);
            assert(a.colptr@[j + 1] <= a.colptr@[a.n as int]);
            assert(tagged(whole[j as int], j as int).take(0) =~= Seq::<(usize, usize, T)>::empty());
        }
        let ghost here = tagged(whole[j as int], j as int);
        for k in begin..end
            invariant
                a.wf(),
                j < a.n,
                begin == a.colptr@[j as int],
                end == a.colptr@[j + 1],
                end <= a.rowval@.len(),
                whole == a.cols(),
                here == tagged(whole[j as int], j as int),
                sorted@ == listed(whole, j as int) + here.take(k - begin),
        {
            assert(whole[j as int][k - begin] == (a.rowval@[k as int], a.nzval@[k as int]));
            sorted.push((a.rowval[k], j, a.nzval[k]));
            assert(here.take(k + 1 - begin) =~= here.take(k - begin).push(here[k - begin]));
            assert(sorted@ =~= listed(whole, j as int) + here.take(k + 1 - begin));
        }
        assert(here.take(end - begin) =~= here);
    }
    *triplets = sorted;
    Ok(a)
}

/// The entries of a column, each with the place of the column.
pub open spec fn tagged<T>(col: Seq<(usize, T)>, j: int) -> Seq<(usize, usize, T)> {
    Seq::new(col.len(), |k: int| (col[k].0, j as usize, col[k].1))
}

/// The entries of the first `upto` columns as triplets, column after column.
pub open spec fn listed<T>(cols: Seq<Seq<(usize, T)>>, upto: int) -> Seq<(usize, usize, T)>
    decreases upto,
{
    if upto <= 0 {
        Seq::empty()
    } else {
        listed(cols, upto - 1) + tagged(cols[upto - 1], upto - 1)
    }
}

/// Column `j` of a table: what is not zero, by row.
pub open spec fn dense_col(rows: Seq<Vec<Real>>, j: int) -> Seq<(usize, Real)> {
    gather(
        rows.len() as int,
        |i: int|
            if rows[i]@[j].zero() {
                Seq::empty()
            } else {
                seq![(i as usize, rows[i]@[j])]
            },
    )
}

impl CscMatrix<Real> {
    /// Builds a matrix from a table, row by row.
    pub fn from_dense(rows: &[Vec<Real>], n_cols: usize) -> (r: CscMatrix<Real>)
        requires
            forall|i: int| 0 <= i < rows@.len() ==> (#[trigger] rows@[i])@.len() == n_cols,
        ensures
            r.wf(),
            r.rows_fit(),
            r.m == rows@.len(),
            r.n == n_cols,
            r.cols() == Seq::new(n_cols as nat, |j: int| dense_col(rows@, j)),
    {
        let ghost all = Seq::new(n_cols as nat, |j: int| dense_col(rows@, j));
        let mut out: ColumnWriter<Real> = ColumnWriter::start();
        assert(all.take(0) =~= Seq::<Seq<(usize, Real)>>::empty());
        for j in 0..n_cols
            invariant
                forall|i: int| 0 <= i < rows@.len() ==> (#[trigger] rows@[i])@.len() == n_cols,
                all == Seq::new(n_cols as nat, |j: int| dense_col(rows@, j)),
                out.wf(),
                out.open_col() == Seq::<(usize, Real)>::empty(),
                out.closed_cols() == all.take(j as int),
                columns_fit(out.closed_cols(), rows@.len() as int),
        {
            let ghost before = out.closed_cols();
            let ghost f = |i: int|
                if rows@[i]@[j as int].zero() {
                    Seq::empty()
                } else {
                    seq![(i as usize, rows@[i]@[j as int])]
                };
            assert(out.open_col() =~= gather(0, f));
            for i in 0..rows.len()
                invariant
                    forall|i: int| 0 <= i < rows@.len() ==> (#[trigger] rows@[i])@.len() == n_cols,
                    j < n_cols,
                    f == (|i: int|
                        if rows@[i]@[j as int].zero() {
                            Seq::empty()
                        } else {
                            seq![(i as usize, rows@[i]@[j as int])]
                        }),
                    out.wf(),
                    out.closed_cols() == before,
                    out.open_col() == gather(i as int, f),
                    forall|k: int|
                        0 <= k < out.open_col().len() ==> (#[trigger] out.open_col()[k]).0 < i,
            {
                assert(rows@[i as int]@.len() == n_cols);
                let ghost so_far = out.open_col();
                let value: Real = rows[i][j];
                if !value.is_zero() {
                    out.entry(i, value);
                }
                assert(out.open_col() =~= so_far + f(i as int));
            }
            let ghost last = out.open_col();
            out.close();
            assert(all.take(j + 1) =~= all.take(j as int).push(all[j as int]));
            assert forall|p: int, k: int|
                0 <= p < out.closed_cols().len() && 0 <= k < out.closed_cols()[p].len() implies (
            #[trigger] out.closed_cols()[p][k]).0 < rows@.len() by {
                if p < before.len() {
                    assert(before[p][k].0 < rows@.len());
                } else {
                    assert(last[k].0 < rows@.len());
                }
            }
        }
        assert(all.take(n_cols as int) =~= all);
        out.finish(rows.len())
    }
}

} // verus!
