//! The matrices that group edges by the bandwidth they share, and the
//! operations that arrange them side by side.
use crate::error::{Fault, ShapleyError};
use crate::lists::gather;
use crate::sparse::{columns_cover, columns_fit, columns_within, shifted, ColumnWriter, CscMatrix};
use crate::text::{decimal, join, numeral, views};
use crate::types::{ConsolidatedLink, EdgeRow};
use vstd::prelude::*;

verus! {

/// The edge counts against a bandwidth group of which `max_shared` are kept.
pub open spec fn grouped(edge: EdgeRow, max_shared: int) -> bool {
    0 < edge.shared <= max_shared
}

/// The column of an edge that counts `times` times against its group.
pub open spec fn group_column(edge: EdgeRow, max_shared: int, times: nat) -> Seq<(usize, i32)> {
    if grouped(edge, max_shared) {
        Seq::new(times, |k: int| ((edge.shared - 1) as usize, 1i32))
    } else {
        Seq::empty()
    }
}

/// The columns of the matrix that counts the first `n_private` edges.
pub open spec fn j1_cols(edges: Seq<EdgeRow>, n_private: int, max_shared: int) -> Seq<
    Seq<(usize, i32)>,
> {
    Seq::new(
        edges.len(),
        |j: int|
            group_column(
                edges[j],
                max_shared,
                if j < n_private {
                    1
                } else {
                    0
                },
            ),
    )
}

/// How often `j` occurs in `list`.
pub open spec fn occurrences(list: Seq<usize>, j: int) -> nat
    decreases list.len(),
{
    if list.len() == 0 {
        0
    } else {
        occurrences(list.drop_last(), j) + (if list.last() == j {
            1nat
        } else {
            0nat
        })
    }
}

/// The columns of the matrix that counts each edge as often as `listed` names
/// it.
pub open spec fn j2_cols(edges: Seq<EdgeRow>, listed: Seq<usize>, max_shared: int) -> Seq<
    Seq<(usize, i32)>,
> {
    Seq::new(edges.len(), |j: int| group_column(edges[j], max_shared, occurrences(listed, j)))
}

/// Builds the matrix of all private edges: a row for each bandwidth group, a
/// column for each edge, a one where a private edge belongs to the group.
pub fn build_j1_matrix(links: &[ConsolidatedLink], n_private: usize, max_shared: usize) -> (r:
    Result<CscMatrix<i32>, ShapleyError>)
    requires
        n_private <= links@.len(),
    ensures
        r matches Ok(a) && {
            &&& a.wf()
            &&& a.rows_fit()
            &&& a.m == max_shared
            &&& a.n == links@.len()
            &&& a.cols() == j1_cols(views(links@), n_private as int, max_shared as int)
        },
{
    let mut out: ColumnWriter<i32> = ColumnWriter::start();
    let ghost whole = j1_cols(views(links@), n_private as int, max_shared as int);
    assert(whole.take(0) =~= Seq::<Seq<(usize, i32)>>::empty());
    for j in 0..links.len()
        invariant
            out.wf(),
            out.open_col().len() == 0,
            whole == j1_cols(views(links@), n_private as int, max_shared as int),
            out.closed_cols() == whole.take(j as int),
    {
        let link = &links[j];
        if j < n_private && link.shared > 0 && link.shared as usize <= max_shared {
            out.entry(link.shared as usize - 1, 1);
        }
        assert(out.open_col() =~= whole[j as int]);
        out.close();
        assert(whole.take(j + 1) =~= whole.take(j as int).push(whole[j as int]));
    }
    assert(whole.take(links@.len() as int) =~= whole);
    Ok(out.finish(max_shared))
}

/// Builds the matrix of the edges that carry no multicast: a row for each
/// bandwidth group, a column for each edge, a one for each time that
/// `mcast_ineligible` names an edge of the group.
pub fn build_j2_matrix(
    links: &[ConsolidatedLink],
    mcast_ineligible: &[usize],
    max_shared: usize,
) -> (r: Result<CscMatrix<i32>, ShapleyError>)
    ensures
        r matches Ok(a) && {
            &&& a.wf()
            &&& a.rows_fit()
            &&& a.m == max_shared
            &&& a.n == links@.len()
            &&& a.cols() == j2_cols(views(links@), mcast_ineligible@, max_shared as int)
        },
{
    let tally = count_listed(mcast_ineligible, links.len());
    let mut out: ColumnWriter<i32> = ColumnWriter::start();
    let ghost whole = j2_cols(views(links@), mcast_ineligible@, max_shared as int);
    assert(whole.take(0) =~= Seq::<Seq<(usize, i32)>>::empty());
    for j in 0..links.len()
        invariant
            out.wf(),
            out.open_col().len() == 0,
            tally@.len() == links@.len(),
            forall|i: int|
                0 <= i < tally@.len() ==> #[trigger] tally@[i] == occurrences(mcast_ineligible@, i),
            whole == j2_cols(views(links@), mcast_ineligible@, max_shared as int),
            out.closed_cols() == whole.take(j as int),
    {
        let link = &links[j];
        if link.shared > 0 && link.shared as usize <= max_shared {
            assert(out.open_col() =~= group_column(link@, max_shared as int, 0));
            let times: usize = tally[j];
            for k in 0..times
                invariant
                    out.wf(),
                    0 < link.shared <= max_shared,
                    out.closed_cols() == whole.take(j as int),
                    out.open_col() == group_column(link@, max_shared as int, k as nat),
            {
                out.entry(link.shared as usize - 1, 1);
                assert(out.open_col() =~= group_column(link@, max_shared as int, (k + 1) as nat));
            }
        }
        assert(out.open_col() =~= whole[j as int]);
        out.close();
        assert(whole.take(j + 1) =~= whole.take(j as int).push(whole[j as int]));
    }
    assert(whole.take(links@.len() as int) =~= whole);
    Ok(out.finish(max_shared))
}

/// Counts how often each number below `n` is listed.
fn count_listed(list: &[usize], n: usize) -> (r: Vec<usize>)
    ensures
        r@.len() == n,
        forall|i: int| 0 <= i < n ==> #[trigger] r@[i] == occurrences(list@, i),
{
    let mut tally: Vec<usize> = Vec::new();
    for i in 0..n
        invariant
            tally@.len() == i,
            forall|k: int| 0 <= k < i ==> #[trigger] tally@[k] == 0,
    {
        tally.push(0);
    }
    for k in 0..list.len()
        invariant
            tally@.len() == n,
            forall|i: int|
                0 <= i < n ==> #[trigger] tally@[i] == occurrences(list@.take(k as int), i)
                    && tally@[i] <= k,
    {
        assert(list@.take(k + 1).drop_last() =~= list@.take(k as int));
        let at: usize = list[k];
        if at < n {
            let more: usize = tally[at] + 1;
            tally.set(at, more);
        }
    }
    assert(list@.take(list@.len() as int) =~= list@);
    tally
}

/// The sum of the entries of a column that lie in row `r`.
pub open spec fn place_sum(col: Seq<(usize, i32)>, r: int) -> int
    decreases col.len(),
{
    if col.len() == 0 {
        0
    } else {
        place_sum(col.drop_last(), r) + (if col.last().0 == r {
            col.last().1 as int
        } else {
            0int
        })
    }
}

/// The difference of two columns in row `r`.
pub open spec fn place_gap(a: Seq<(usize, i32)>, b: Seq<(usize, i32)>, r: int) -> int {
    place_sum(a, r) - place_sum(b, r)
}

/// `col` lists, in the order of their rows, the places where `a` and `b` differ,
/// each with the difference.
pub open spec fn column_gap(
    col: Seq<(usize, i32)>,
    a: Seq<(usize, i32)>,
    b: Seq<(usize, i32)>,
) -> bool {
    &&& forall|i: int, j: int| 0 <= i < j < col.len() ==> (#[trigger] col[i]).0 < (#[trigger] col[j]).0
    &&& forall|i: int|
        0 <= i < col.len() ==> (#[trigger] col[i]).1 == place_gap(a, b, col[i].0 as int) && col[i].1
            != 0
    &&& forall|r: usize| #[trigger]
        place_gap(a, b, r as int) != 0 ==> exists|i: int| 0 <= i < col.len() && (#[trigger] col[i]).0 == r
}

/// Running totals of a column, by row.
struct Totals {
    rows: Vec<(usize, i128)>,
}

impl Totals {
    /// The total kept for row `r`.
    spec fn total(self, r: int) -> int
    {
        if exists|i: int| 0 <= i < self.rows@.len() && (#[trigger] self.rows@[i]).0 == r {
            let i = choose|i: int| 0 <= i < self.rows@.len() && (#[trigger] self.rows@[i]).0 == r;
            self.rows@[i].1 as int
        } else {
            0
        }
    }

    spec fn wf(self) -> bool {
        forall|i: int, j: int|
            0 <= i < j < self.rows@.len() ==> (#[trigger] self.rows@[i]).0 < (
            #[trigger] self.rows@[j]).0
    }

    /// The total of a row that is kept is the one beside it.
    proof fn total_at(self, i: int)
        requires
            self.wf(),
            0 <= i < self.rows@.len(),
        ensures
            self.total(self.rows@[i].0 as int) == self.rows@[i].1,
    {
        let r = self.rows@[i].0;
        let k = choose|k: int| 0 <= k < self.rows@.len() && (#[trigger] self.rows@[k]).0 == r;
        assert(self.rows@[i].0 == r);
        if k < i {
            assert(self.rows@[k].0 < self.rows@[i].0);
        } else if i < k {
            assert(self.rows@[i].0 < self.rows@[k].0);
        }
    }

    /// Adds to the total of a row.
    fn add_to(&mut self, row: usize, amount: i128)
        requires
            old(self).wf(),
            i128::MIN <= old(self).total(row as int) + amount <= i128::MAX,
        ensures
            final(self).wf(),
            final(self).total(row as int) == old(self).total(row as int) + amount,
            forall|r: int| r != row ==> #[trigger] final(self).total(r) == old(self).total(r),
    {
        let mut at: usize = 0;
        while at < self.rows.len() && self.rows[at].0 < row
            invariant
                at <= self.rows@.len(),
                *self == *old(self),
                forall|k: int| 0 <= k < at ==> (#[trigger] self.rows@[k]).0 < row,
            decreases self.rows@.len() - at,
        {
            at = at + 1;
        }
        if at < self.rows.len() && self.rows[at].0 == row {
            proof {
                self.total_at(at as int);
            }
            let sum: i128 = self.rows[at].1 + amount;
            self.rows.set(at, (row, sum));
            proof {
                assert forall|i: int, j: int| 0 <= i < j < self.rows@.len() implies (
                #[trigger] self.rows@[i]).0 < (#[trigger] self.rows@[j]).0 by {
                    assert(old(self).rows@[i].0 < old(self).rows@[j].0);
                }
                self.total_at(at as int);
                assert forall|r: int| r != row implies #[trigger] self.total(r) == old(self).total(
                    r,
                ) by {
                    self.same_totals(*old(self), r, at as int, false);
                }
            }
        } else {
            self.rows.insert(at, (row, amount));
            proof {
                let before = old(self).rows@;
                assert forall|i: int, j: int| 0 <= i < j < self.rows@.len() implies (
                #[trigger] self.rows@[i]).0 < (#[trigger] self.rows@[j]).0 by {
                    let p = if i < at {
                        i
                    } else {
                        i - 1
                    };
                    let q = if j < at {
                        j
                    } else {
                        j - 1
                    };
                    if i != at && j != at {
                        assert(before[p].0 < before[q].0);
                    } else if i == at {
                        assert(before[at as int].0 > row);
                        if q > at {
                            assert(before[at as int].0 < before[q].0);
                        }
                    }
                }
                assert(old(self).total(row as int) == 0) by {
                    if exists|i: int| 0 <= i < before.len() && (#[trigger] before[i]).0 == row {
                        let i = choose|i: int|
                            0 <= i < before.len() && (#[trigger] before[i]).0 == row;
                        if i > at {
                            assert(before[at as int].0 < before[i].0);
                        }
                    }
                }
                self.total_at(at as int);
                assert forall|r: int| r != row implies #[trigger] self.total(r) == old(self).total(
                    r,
                ) by {
                    self.same_totals(*old(self), r, at as int, true);
                }
            }
        }
    }

    /// A change at one row leaves the totals of the others.
    proof fn same_totals(self, before: Totals, r: int, at: int, inserted: bool)
        requires
            self.wf(),
            before.wf(),
            0 <= at < self.rows@.len(),
            self.rows@[at].0 != r,
            inserted ==> at <= before.rows@.len() && self.rows@ == before.rows@.insert(
                at,
                self.rows@[at],
            ),
            !inserted ==> at < before.rows@.len() && self.rows@ == before.rows@.update(
                at,
                self.rows@[at],
            ) && before.rows@[at].0 == self.rows@[at].0,
        ensures
            self.total(r) == before.total(r),
    {
        let old_rows = before.rows@;
        if exists|i: int| 0 <= i < old_rows.len() && (#[trigger] old_rows[i]).0 == r {
            let i = choose|i: int| 0 <= i < old_rows.len() && (#[trigger] old_rows[i]).0 == r;
            before.total_at(i);
            let j = if inserted && i >= at {
                i + 1
            } else {
                i
            };
            assert(self.rows@[j] == old_rows[i]);
            self.total_at(j);
        } else {
            if exists|j: int| 0 <= j < self.rows@.len() && (#[trigger] self.rows@[j]).0 == r {
                let j = choose|j: int|
                    0 <= j < self.rows@.len() && (#[trigger] self.rows@[j]).0 == r;
                let i = if inserted && j > at {
                    j - 1
                } else {
                    j
                };
                assert(old_rows[i] == self.rows@[j]);
            }
        }
    }
}

/// A sum of entries stays within the number of entries times the largest.
proof fn place_sum_bound(col: Seq<(usize, i32)>, r: int)
    ensures
        -0x8000_0000 * col.len() <= place_sum(col, r) <= 0x8000_0000 * col.len(),
    decreases col.len(),
{
    if col.len() > 0 {
        place_sum_bound(col.drop_last(), r);
    }
}

/// The places where one column of two matrices differs.
fn gap_column(j1: &CscMatrix<i32>, j2: &CscMatrix<i32>, j: usize) -> (out: Vec<(usize, i32)>)
    requires
        j1.wf(),
        j2.wf(),
        j < j1.n,
        j < j2.n,
        forall|r: int|
            i32::MIN <= #[trigger] place_gap(j1.col(j as int), j2.col(j as int), r) <= i32::MAX,
    ensures
        column_gap(out@, j1.col(j as int), j2.col(j as int)),
{
    let ghost a = j1.col(j as int);
    let ghost b = j2.col(j as int);
    let mut totals = Totals { rows: Vec::new() };
    let begin: usize = j1.colptr[j];
    let end: usize = j1.colptr[j + 1];
    proof {
        assert(j1.colptr@[j as int] <= j1.colptr@[j + 1]);
        assert(j1.colptr@[j + 1] <= j1.colptr@[j1.n as int]);
    }
    for k in begin..end
        invariant
            totals.wf(),
            j1.wf(),
            j < j1.n,
            begin == j1.colptr@[j as int],
            end == j1.colptr@[j + 1],
            end <= j1.rowval@.len(),
            a == j1.col(j as int),
            forall|r: int| #[trigger] totals.total(r) == place_sum(a.take(k - begin), r),
    {
        assert(a.take(k + 1 - begin).drop_last() =~= a.take(k - begin));
        assert(a[k - begin] == (j1.rowval@[k as int], j1.nzval@[k as int]));
        proof {
            place_sum_bound(a.take(k - begin), j1.rowval@[k as int] as int);
        }
        totals.add_to(j1.rowval[k], j1.nzval[k] as i128);
    }
    assert(a.take(end - begin) =~= a);
    let begin2: usize = j2.colptr[j];
    let end2: usize = j2.colptr[j + 1];
    proof {
        assert(j2.colptr@[j as int] <= j2.colptr@[j + 1]);
        assert(j2.colptr@[j + 1] <= j2.colptr@[j2.n as int]);
    }
    for k in begin2..end2
        invariant
            totals.wf(),
            j2.wf(),
            j < j2.n,
            begin2 == j2.colptr@[j as int],
            end2 == j2.colptr@[j + 1],
            end2 <= j2.rowval@.len(),
            b == j2.col(j as int),
            a.len() <= usize::MAX,
            forall|r: int| #[trigger]
                totals.total(r) == place_sum(a, r) - place_sum(b.take(k - begin2), r),
    {
        assert(b.take(k + 1 - begin2).drop_last() =~= b.take(k - begin2));
        assert(b[k - begin2] == (j2.rowval@[k as int], j2.nzval@[k as int]));
        proof {
            place_sum_bound(a, j2.rowval@[k as int] as int);
            place_sum_bound(b.take(k - begin2), j2.rowval@[k as int] as int);
        }
        totals.add_to(j2.rowval[k], -(j2.nzval[k] as i128));
    }
    assert(b.take(end2 - begin2) =~= b);
    let mut out: Vec<(usize, i32)> = Vec::new();
    for i in 0..totals.rows.len()
        invariant
            totals.wf(),
            forall|r: int| #[trigger] totals.total(r) == place_gap(a, b, r),
            forall|r: int| i32::MIN <= #[trigger] place_gap(a, b, r) <= i32::MAX,
            forall|p: int, q: int|
                0 <= p < q < out@.len() ==> (#[trigger] out@[p]).0 < (#[trigger] out@[q]).0,
            forall|p: int|
                0 <= p < out@.len() ==> (#[trigger] out@[p]).1 == place_gap(a, b, out@[p].0 as int)
                    && out@[p].1 != 0,
            forall|p: int|
                0 <= p < out@.len() && i < totals.rows@.len() ==> (#[trigger] out@[p]).0
                    < totals.rows@[i as int].0,
            forall|q: int|
                0 <= q < i && (#[trigger] totals.rows@[q]).1 != 0 ==> exists|p: int|
                    0 <= p < out@.len() && (#[trigger] out@[p]).0 == totals.rows@[q].0,
    {
        let (row, sum) = totals.rows[i];
        let ghost before = out@;
        proof {
            totals.total_at(i as int);
            assert(totals.total(row as int) == place_gap(a, b, row as int));
            if i + 1 < totals.rows@.len() {
                assert(totals.rows@[i as int].0 < totals.rows@[i + 1].0);
            }
        }
        if sum != 0 {
            out.push((row, sum as i32));
        }
        assert forall|q: int| 0 <= q < i + 1 && (#[trigger] totals.rows@[q]).1 != 0 implies exists|
            p: int,
        | 0 <= p < out@.len() && (#[trigger] out@[p]).0 == totals.rows@[q].0 by {
            if q < i {
                let p = choose|p: int|
                    0 <= p < before.len() && (#[trigger] before[p]).0 == totals.rows@[q].0;
                assert(out@[p] == before[p]);
            } else {
                assert(out@[out@.len() - 1].0 == totals.rows@[q].0);
            }
        }
    }
    proof {
        assert forall|r: usize| #[trigger] place_gap(a, b, r as int) != 0 implies exists|i: int|
            0 <= i < out@.len() && (#[trigger] out@[i]).0 == r by {
            assert(totals.total(r as int) != 0);
            let q = choose|q: int|
                0 <= q < totals.rows@.len() && (#[trigger] totals.rows@[q]).0 == r as int;
            totals.total_at(q);
            assert(totals.rows@[q].1 != 0);
        }
    }
    out
}

/// The text of a mismatch of the two matrices.
pub open spec fn dimension_fault() -> Fault {
    Fault::MatrixConstructionError("J1 and J2 dimensions must match"@)
}

/// Subtracts the second matrix from the first; only the places where they
/// differ are stored.
pub fn compute_j1_minus_j2(j1: &CscMatrix<i32>, j2: &CscMatrix<i32>) -> (r: Result<
    CscMatrix<i32>,
    ShapleyError,
>)
    requires
        j1.wf(),
        j2.wf(),
        j1.m == j2.m && j1.n == j2.n ==> forall|j: int, r: int|
            0 <= j < j1.n ==> i32::MIN <= #[trigger] place_gap(j1.cols()[j], j2.cols()[j], r)
                <= i32::MAX,
    ensures
        r is Ok <==> j1.m == j2.m && j1.n == j2.n,
        r matches Err(e) ==> e@ == dimension_fault(),
        r matches Ok(a) ==> {
            &&& a.wf()
            &&& a.m == j1.m
            &&& a.n == j1.n
            &&& forall|j: int|
                0 <= j < a.n ==> column_gap(#[trigger] a.cols()[j], j1.cols()[j], j2.cols()[j])
            &&& j1.rows_fit() && j2.rows_fit() ==> a.rows_fit()
        },
{
    if j1.m != j2.m || j1.n != j2.n {
        return Err(
            ShapleyError::MatrixConstructionError("J1 and J2 dimensions must match".to_owned()),
        );
    }
    let mut out: ColumnWriter<i32> = ColumnWriter::start();
    for j in 0..j1.n
        invariant
            out.wf(),
            out.open_col() == Seq::<(usize, i32)>::empty(),
            out.closed_cols().len() == j,
            j1.wf(),
            j2.wf(),
            j1.n == j2.n,
            forall|j: int, r: int|
                0 <= j < j1.n ==> i32::MIN <= #[trigger] place_gap(j1.cols()[j], j2.cols()[j], r)
                    <= i32::MAX,
            forall|i: int|
                0 <= i < j ==> column_gap(
                    #[trigger] out.closed_cols()[i],
                    j1.cols()[i],
                    j2.cols()[i],
                ),
    {
        assert forall|r: int|
            i32::MIN <= #[trigger] place_gap(j1.col(j as int), j2.col(j as int), r)
                <= i32::MAX by {
            assert(place_gap(j1.cols()[j as int], j2.cols()[j as int], r) <= i32::MAX);
        }
        let col = gap_column(j1, j2, j);
        let ghost before = out.closed_cols();
        assert(out.open_col() =~= col@.take(0));
        for k in 0..col.len()
            invariant
                out.wf(),
                out.closed_cols() == before,
                out.open_col() == col@.take(k as int),
        {
            let (row, value) = col[k];
            out.entry(row, value);
            assert(col@.take(k + 1) =~= col@.take(k as int).push(col@[k as int]));
        }
        assert(col@.take(col@.len() as int) =~= col@);
        out.close();
    }
    let ghost cols = out.closed_cols();
    let a = out.finish(j1.m);
    proof {
        if j1.rows_fit() && j2.rows_fit() {
            columns_within(*j1);
            columns_within(*j2);
            assert forall|j: int, k: int|
                0 <= j < a.cols().len() && 0 <= k < a.cols()[j].len() implies (
            #[trigger] a.cols()[j][k]).0 < a.m by {
                let r = a.cols()[j][k].0 as int;
                assert(column_gap(a.cols()[j], j1.cols()[j], j2.cols()[j]));
                if r >= a.m {
                    outside_sum(j1.cols(), j, a.m as int, r);
                    outside_sum(j2.cols(), j, a.m as int, r);
                }
            }
            columns_cover(a);
        }
    }
    Ok(a)
}

/// Beyond the rows of a matrix, a column adds up to nothing.
proof fn outside_sum(cols: Seq<Seq<(usize, i32)>>, j: int, m: int, r: int)
    requires
        columns_fit(cols, m),
        0 <= j < cols.len(),
        r >= m,
    ensures
        place_sum(cols[j], r) == 0,
{
    assert forall|k: int| 0 <= k < cols[j].len() implies (#[trigger] cols[j][k]).0 < m by {
        assert(cols[j][k].0 < m);
    }
    outside_column(cols[j], m, r);
}

proof fn outside_column(col: Seq<(usize, i32)>, m: int, r: int)
    requires
        forall|k: int| 0 <= k < col.len() ==> (#[trigger] col[k]).0 < m,
        r >= m,
    ensures
        place_sum(col, r) == 0,
    decreases col.len(),
{
    if col.len() > 0 {
        assert(col[col.len() - 1].0 < m);
        let front = col.drop_last();
        assert forall|k: int| 0 <= k < front.len() implies (#[trigger] front[k]).0 < m by {
            assert(front[k] == col[k]);
        }
        outside_column(front, m, r);
    }
}

/// Every wanted column is a column of the matrix.
pub open spec fn columns_exist(wanted: Seq<usize>, n: int) -> bool {
    forall|i: int| 0 <= i < wanted.len() ==> #[trigger] wanted[i] < n
}

/// The first wanted column that is not there.
pub open spec fn first_beyond(wanted: Seq<usize>, n: int, i: int) -> bool {
    &&& 0 <= i < wanted.len()
    &&& wanted[i] >= n
    &&& forall|k: int| 0 <= k < i ==> #[trigger] wanted[k] < n
}

/// What is said of a column that is not there.
pub open spec fn column_fault(col: int) -> Fault {
    Fault::MatrixConstructionError(
        "Column index "@ + numeral(col as nat) + " out of bounds"@,
    )
}

/// The wanted columns of `cols`, in the order wanted.
pub open spec fn picked<T>(cols: Seq<Seq<(usize, T)>>, wanted: Seq<usize>) -> Seq<
    Seq<(usize, T)>,
> {
    Seq::new(wanted.len(), |i: int| cols[wanted[i] as int])
}

/// A column keeps its place when it is moved by nothing.
pub proof fn shifted_zero<T>(col: Seq<(usize, T)>)
    ensures
        shifted(col, 0) == col,
{
    assert(shifted(col, 0) =~= col);
}

/// Takes the wanted columns of a matrix.
pub fn pick_columns<T: Copy>(matrix: &CscMatrix<T>, wanted: &[usize]) -> (r: Result<
    CscMatrix<T>,
    ShapleyError,
>)
    requires
        matrix.wf(),
    ensures
        r is Ok <==> columns_exist(wanted@, matrix.n as int),
        r matches Ok(a) ==> {
            &&& a.wf()
            &&& a.m == matrix.m
            &&& a.n == wanted@.len()
            &&& a.cols() == picked(matrix.cols(), wanted@)
            &&& matrix.rows_fit() ==> a.rows_fit()
        },
        r matches Err(e) ==> exists|i: int| #[trigger]
            first_beyond(wanted@, matrix.n as int, i) && e@ == column_fault(wanted@[i] as int),
{
    let mut out: ColumnWriter<T> = ColumnWriter::start();
    let ghost whole = picked(matrix.cols(), wanted@);
    assert(whole.take(0) =~= Seq::<Seq<(usize, T)>>::empty());
    for i in 0..wanted.len()
        invariant
            matrix.wf(),
            out.wf(),
            out.open_col() == Seq::<(usize, T)>::empty(),
            whole == picked(matrix.cols(), wanted@),
            out.closed_cols() == whole.take(i as int),
            forall|k: int| 0 <= k < i ==> #[trigger] wanted@[k] < matrix.n,
    {
        let col = wanted[i];
        if col >= matrix.n {
            let head = join("Column index ", decimal(col as u64).as_str());
            assert(first_beyond(wanted@, matrix.n as int, i as int));
            return Err(
                ShapleyError::MatrixConstructionError(join(head.as_str(), " out of bounds")),
            );
        }
        proof {
            shifted_zero(matrix.col(col as int));
        }
        out.copy_col(matrix, col, 0);
        assert(out.open_col() =~= whole[i as int]);
        out.close();
        assert(whole.take(i + 1) =~= whole.take(i as int).push(whole[i as int]));
    }
    assert(whole.take(wanted@.len() as int) =~= whole);
    let a = out.finish(matrix.m);
    proof {
        if matrix.rows_fit() {
            columns_within(*matrix);
            assert forall|j: int, k: int|
                0 <= j < a.cols().len() && 0 <= k < a.cols()[j].len() implies (
            #[trigger] a.cols()[j][k]).0 < a.m by {
                assert(matrix.cols()[wanted@[j] as int][k].0 < matrix.m);
            }
            columns_cover(a);
        }
    }
    Ok(a)
}

/// Takes the columns of the edges that carry multicast.
pub fn extract_mcast_eligible_columns<T: Copy>(
    matrix: &CscMatrix<T>,
    mcast_eligible: &[usize],
) -> (r: Result<CscMatrix<T>, ShapleyError>)
    requires
        matrix.wf(),
    ensures
        r is Ok <==> columns_exist(mcast_eligible@, matrix.n as int),
        r matches Ok(a) ==> {
            &&& a.wf()
            &&& a.m == matrix.m
            &&& a.n == mcast_eligible@.len()
            &&& a.cols() == picked(matrix.cols(), mcast_eligible@)
            &&& matrix.rows_fit() ==> a.rows_fit()
        },
        r matches Err(e) ==> exists|i: int| #[trigger]
            first_beyond(mcast_eligible@, matrix.n as int, i) && e@ == column_fault(
                mcast_eligible@[i] as int,
            ),
{
    pick_columns(matrix, mcast_eligible)
}

/// The columns of several matrices, one after the other.
pub open spec fn side_by_side<T>(matrices: Seq<&CscMatrix<T>>) -> Seq<Seq<(usize, T)>>
    decreases matrices.len(),
{
    if matrices.len() == 0 {
        Seq::empty()
    } else {
        side_by_side(matrices.drop_last()) + matrices.last().cols()
    }
}

/// All matrices have as many rows as the first.
pub open spec fn same_height<T>(matrices: Seq<&CscMatrix<T>>) -> bool {
    forall|i: int| 0 <= i < matrices.len() ==> (#[trigger] matrices[i]).m == matrices[0].m
}

/// Places matrices side by side.
pub fn hstack_matrices<T: Copy>(matrices: &[&CscMatrix<T>]) -> (r: Result<
    CscMatrix<T>,
    ShapleyError,
>)
    requires
        forall|i: int| 0 <= i < matrices@.len() ==> (#[trigger] matrices@[i]).wf(),
    ensures
        r is Ok <==> matrices@.len() > 0 && same_height(matrices@),
        r matches Ok(a) ==> {
            &&& a.wf()
            &&& a.m == matrices@[0].m
            &&& a.n == side_by_side(matrices@).len()
            &&& a.cols() == side_by_side(matrices@)
            &&& (forall|i: int| 0 <= i < matrices@.len() ==> (#[trigger] matrices@[i]).rows_fit())
                ==> a.rows_fit()
        },
        r matches Err(e) ==> e@ == Fault::MatrixConstructionError(
            if matrices@.len() == 0 {
                "Cannot stack empty matrix list"@
            } else {
                "All matrices must have same number of rows"@
            },
        ),
{
    if matrices.len() == 0 {
        return Err(
            ShapleyError::MatrixConstructionError("Cannot stack empty matrix list".to_owned()),
        );
    }
    let n_rows: usize = matrices[0].m;
    for i in 0..matrices.len()
        invariant
            matrices@.len() > 0,
            n_rows == matrices@[0].m,
            forall|k: int| 0 <= k < i ==> (#[trigger] matrices@[k]).m == n_rows,
    {
        if matrices[i].m != n_rows {
            assert(matrices@[i as int].m != matrices@[0].m);
            return Err(
                ShapleyError::MatrixConstructionError(
                    "All matrices must have same number of rows".to_owned(),
                ),
            );
        }
    }
    let mut out: ColumnWriter<T> = ColumnWriter::start();
    for i in 0..matrices.len()
        invariant
            out.wf(),
            out.open_col() == Seq::<(usize, T)>::empty(),
            forall|i: int| 0 <= i < matrices@.len() ==> (#[trigger] matrices@[i]).wf(),
            out.closed_cols() == side_by_side(matrices@.take(i as int)),
    {
        let matrix = matrices[i];
        let ghost before = out.closed_cols();
        assert(matrix.wf());
        assert(before =~= before + matrix.cols().take(0));
        for j in 0..matrix.n
            invariant
                matrix.wf(),
                out.wf(),
                out.open_col() == Seq::<(usize, T)>::empty(),
                out.closed_cols() == before + matrix.cols().take(j as int),
        {
            proof {
                shifted_zero(matrix.col(j as int));
            }
            out.copy_col(matrix, j, 0);
            assert(out.open_col() =~= matrix.cols()[j as int]);
            out.close();
            assert(matrix.cols().take(j + 1) =~= matrix.cols().take(j as int).push(
                matrix.cols()[j as int],
            ));
            assert(out.closed_cols() =~= before + matrix.cols().take(j + 1));
        }
        assert(matrix.cols().take(matrix.n as int) =~= matrix.cols());
        assert(matrices@.take(i + 1).drop_last() =~= matrices@.take(i as int));
    }
    assert(matrices@.take(matrices@.len() as int) =~= matrices@);
    let a = out.finish(n_rows);
    proof {
        if forall|i: int| 0 <= i < matrices@.len() ==> (#[trigger] matrices@[i]).rows_fit() {
            side_fits(matrices@, n_rows as int);
            columns_cover(a);
        }
    }
    Ok(a)
}

/// Matrices that keep to their rows keep to them side by side.
proof fn side_fits<T>(matrices: Seq<&CscMatrix<T>>, m: int)
    requires
        forall|i: int| 0 <= i < matrices.len() ==> (#[trigger] matrices[i]).wf(),
        forall|i: int| 0 <= i < matrices.len() ==> (#[trigger] matrices[i]).m == m,
        forall|i: int| 0 <= i < matrices.len() ==> (#[trigger] matrices[i]).rows_fit(),
    ensures
        columns_fit(side_by_side(matrices), m),
    decreases matrices.len(),
{
    if matrices.len() > 0 {
        let front = matrices.drop_last();
        assert forall|i: int| 0 <= i < front.len() implies (#[trigger] front[i]).wf()
            && front[i].m == m && front[i].rows_fit() by {
            assert(front[i] == matrices[i]);
        }
        side_fits(front, m);
        let last = matrices[matrices.len() - 1];
        columns_within(*last);
        let all = side_by_side(matrices);
        let head = side_by_side(front);
        assert forall|j: int, k: int| 0 <= j < all.len() && 0 <= k < all[j].len() implies (
        #[trigger] all[j][k]).0 < m by {
            if j < head.len() {
                assert(head[j][k].0 < m);
            } else {
                assert(last.cols()[j - head.len()][k].0 < m);
            }
        }
    }
}

/// The columns of matrices side by side, matrix by matrix.
pub proof fn side_gathered<T>(matrices: Seq<&CscMatrix<T>>, f: spec_fn(int) -> Seq<Seq<(usize, T)>>)
    requires
        forall|i: int| 0 <= i < matrices.len() ==> #[trigger] f(i) == matrices[i].cols(),
    ensures
        side_by_side(matrices) == gather(matrices.len() as int, f),
    decreases matrices.len(),
{
    if matrices.len() > 0 {
        let front = matrices.drop_last();
        assert forall|i: int| 0 <= i < front.len() implies #[trigger] f(i) == front[i].cols() by {
            assert(front[i] == matrices[i]);
        }
        side_gathered(front, f);
        assert(f(matrices.len() - 1) == matrices.last().cols());
    }
}

/// Where nothing is taken away, the difference is the column itself.
pub proof fn gap_of_nothing(
    col: Seq<(usize, i32)>,
    edge: EdgeRow,
    max_shared: int,
    times: nat,
    taken: Seq<(usize, i32)>,
)
    requires
        times <= 1,
        taken.len() == 0,
        column_gap(col, group_column(edge, max_shared, times), taken),
    ensures
        col == group_column(edge, max_shared, times),
{
    let a = group_column(edge, max_shared, times);
    let row = (edge.shared - 1) as usize;
    reveal_with_fuel(place_sum, 2);
    if a.len() == 0 {
        if col.len() > 0 {
            assert(place_gap(a, taken, col[0].0 as int) == 0);
        }
        assert(col =~= a);
    } else {
        assert(a.len() == 1);
        assert(a.drop_last() =~= Seq::<(usize, i32)>::empty());
        assert(place_gap(a, taken, row as int) == 1);
        let i = choose|i: int| 0 <= i < col.len() && (#[trigger] col[i]).0 == row;
        assert(col[i].1 == 1);
        assert forall|k: int| 0 <= k < col.len() implies (#[trigger] col[k]).0 == row by {
            assert(place_gap(a, taken, col[k].0 as int) != 0);
        }
        if col.len() > 1 {
            assert(col[0].0 < col[1].0);
        }
        assert(col =~= a);
    }
}

} // verus!
