//! What sparse matrices hold, place by place.
use crate::error::Fault;
use crate::lists::{count_where, gather_member};
use crate::multicast::{
    column_fault, column_gap, columns_exist, dimension_fault, first_beyond, group_column,
    j1_cols, j2_cols, occurrences, picked, place_gap, place_sum, same_height, side_by_side,
};
use crate::quantity::Real;
use crate::solver::no_columns;
use crate::sparse::{dense_col, listed, placed, placed_cols, slot, tagged, CscMatrix};
use crate::text::numeral;
use crate::types::EdgeRow;
use vstd::prelude::*;

verus! {

/// What a column holds in a row: the entries there together.
pub open spec fn held(col: Seq<(usize, i32)>, r: int) -> int
    decreases col.len(),
{
    if col.len() == 0 {
        0
    } else {
        held(col.drop_last(), r) + if col.last().0 == r {
            col.last().1 as int
        } else {
            0int
        }
    }
}

proof fn held_is_sum(col: Seq<(usize, i32)>, r: int)
    ensures
        place_sum(col, r) == held(col, r),
    decreases col.len(),
{
    if col.len() > 0 {
        held_is_sum(col.drop_last(), r);
    }
}

/// A column of so many ones in one row.
proof fn held_in_group(edge: EdgeRow, top: int, times: nat, r: int)
    ensures
        held(group_column(edge, top, times), r) == if 0 < edge.shared <= top && r == edge.shared
            - 1 {
            times as int
        } else {
            0
        },
    decreases times,
{
    let col = group_column(edge, top, times);
    if 0 < edge.shared <= top && times > 0 {
        held_in_group(edge, top, (times - 1) as nat, r);
        assert(col.drop_last() =~= group_column(edge, top, (times - 1) as nat));
        assert(col.last() == ((edge.shared - 1) as usize, 1i32));
    } else {
        assert(col.len() == 0);
    }
}

/// The matrix of all private edges has a one just where an edge among these has the group of
/// the row, and nothing elsewhere.
pub proof fn private_edges_count_once(
    edges: Seq<EdgeRow>,
    n_private: int,
    top: int,
    j: int,
    r: int,
)
    requires
        0 <= j < edges.len(),
        0 <= r < top,
    ensures
        j1_cols(edges, n_private, top).len() == edges.len(),
        held(j1_cols(edges, n_private, top)[j], r) == if j < n_private && edges[j].shared == r + 1 {
            1int
        } else {
            0int
        },
{
    held_in_group(
        edges[j],
        top,
        if j < n_private {
            1
        } else {
            0
        },
        r,
    );
}

proof fn times_listed(list: Seq<usize>, j: int, n: int)
    requires
        0 <= n <= list.len(),
    ensures
        occurrences(list.take(n), j) == count_where(n, |k: int| list[k] == j),
    decreases n,
{
    if n > 0 {
        times_listed(list, j, n - 1);
        assert(list.take(n).drop_last() =~= list.take(n - 1));
        assert(list.take(n).last() == list[n - 1]);
    }
}

/// The matrix of listed edges has in the row of an edge's group as many as the edge is
/// listed, and nothing elsewhere.
pub proof fn listed_edges_count(
    edges: Seq<EdgeRow>,
    list: Seq<usize>,
    top: int,
    j: int,
    r: int,
)
    requires
        0 <= j < edges.len(),
        0 <= r < top,
    ensures
        j2_cols(edges, list, top).len() == edges.len(),
        held(j2_cols(edges, list, top)[j], r) == if edges[j].shared == r + 1 {
            count_where(list.len() as int, |k: int| list[k] == j) as int
        } else {
            0int
        },
{
    times_listed(list, j, list.len() as int);
    assert(list.take(list.len() as int) =~= list);
    held_in_group(edges[j], top, occurrences(list, j), r);
}

/// A difference of matrices holds at every place the difference of what they hold; its
/// entries stand by rows, and none is zero.
pub proof fn differences_are_held(
    col: Seq<(usize, i32)>,
    a: Seq<(usize, i32)>,
    b: Seq<(usize, i32)>,
    r: usize,
)
    requires
        column_gap(col, a, b),
    ensures
        held(col, r as int) == held(a, r as int) - held(b, r as int),
        forall|i: int, j: int|
            0 <= i < j < col.len() ==> (#[trigger] col[i]).0 < (#[trigger] col[j]).0,
        forall|i: int| 0 <= i < col.len() ==> (#[trigger] col[i]).1 != 0,
{
    held_is_sum(a, r as int);
    held_is_sum(b, r as int);
    if exists|i: int| 0 <= i < col.len() && (#[trigger] col[i]).0 == r {
        let i = choose|i: int| 0 <= i < col.len() && (#[trigger] col[i]).0 == r;
        held_once(col, i, col.len() as int);
        assert(col.take(col.len() as int) =~= col);
    } else {
        held_nowhere(col, r as int, col.len() as int);
        assert(col.take(col.len() as int) =~= col);
        assert(place_gap(a, b, r as int) == 0);
    }
}

proof fn held_nowhere(col: Seq<(usize, i32)>, r: int, n: int)
    requires
        0 <= n <= col.len(),
        forall|i: int| 0 <= i < n ==> (#[trigger] col[i]).0 != r,
    ensures
        held(col.take(n), r) == 0,
    decreases n,
{
    if n > 0 {
        held_nowhere(col, r, n - 1);
        assert(col.take(n).drop_last() =~= col.take(n - 1));
        assert(col.take(n).last() == col[n - 1]);
    }
}

proof fn held_once(col: Seq<(usize, i32)>, i: int, n: int)
    requires
        0 <= i < n <= col.len(),
        forall|i: int, j: int|
            0 <= i < j < col.len() ==> (#[trigger] col[i]).0 < (#[trigger] col[j]).0,
    ensures
        held(col.take(n), col[i].0 as int) == col[i].1,
    decreases n,
{
    assert(col.take(n).drop_last() =~= col.take(n - 1));
    assert(col.take(n).last() == col[n - 1]);
    if i == n - 1 {
        assert forall|k: int| 0 <= k < n - 1 implies (#[trigger] col[k]).0 != col[i].0 by {
            assert(col[k].0 < col[i].0);
        }
        held_nowhere(col, col[i].0 as int, n - 1);
    } else {
        held_once(col, i, n - 1);
        assert(col[i].0 < col[n - 1].0);
    }
}

/// How many columns the first `i` matrices have.
pub open spec fn width<T>(matrices: Seq<&CscMatrix<T>>, i: int) -> int
    decreases i,
{
    if i <= 0 {
        0
    } else {
        width(matrices, i - 1) + matrices[i - 1].n
    }
}

/// Side by side, matrices keep their columns, one matrix after the other.
pub proof fn matrices_stand_side_by_side<T>(matrices: Seq<&CscMatrix<T>>, i: int, j: int)
    requires
        0 <= i < matrices.len(),
        0 <= j < matrices[i].n,
    ensures
        side_by_side(matrices).len() == width(matrices, matrices.len() as int),
        0 <= width(matrices, i) + j < side_by_side(matrices).len(),
        side_by_side(matrices)[width(matrices, i) + j] == matrices[i].cols()[j],
    decreases matrices.len(),
{
    let front = matrices.drop_last();
    let n = matrices.len() as int;
    width_kept(matrices, front, n - 1);
    width_kept(matrices, front, i);
    side_width(front);
    width_grows(matrices, i);
    if i < n - 1 {
        matrices_stand_side_by_side(front, i, j);
    }
}

proof fn width_grows<T>(matrices: Seq<&CscMatrix<T>>, i: int)
    ensures
        width(matrices, i) >= 0,
    decreases i,
{
    if i > 0 {
        width_grows(matrices, i - 1);
    }
}

proof fn side_width<T>(matrices: Seq<&CscMatrix<T>>)
    ensures
        side_by_side(matrices).len() == width(matrices, matrices.len() as int),
    decreases matrices.len(),
{
    if matrices.len() > 0 {
        let front = matrices.drop_last();
        side_width(front);
        width_kept(matrices, front, front.len() as int);
    }
}

proof fn width_kept<T>(a: Seq<&CscMatrix<T>>, b: Seq<&CscMatrix<T>>, i: int)
    requires
        i <= a.len(),
        i <= b.len(),
        b == a.drop_last(),
    ensures
        width(a, i) == width(b, i),
    decreases i,
{
    if i > 0 {
        width_kept(a, b, i - 1);
    }
}

/// Columns that are picked are those wanted, in the order wanted.
pub proof fn wanted_columns_are_picked<T>(
    cols: Seq<Seq<(usize, T)>>,
    wanted: Seq<usize>,
    i: int,
)
    requires
        0 <= i < wanted.len(),
    ensures
        picked(cols, wanted).len() == wanted.len(),
        picked(cols, wanted)[i] == cols[wanted[i] as int],
{
}

/// A matrix made of triplets has in each column just the triplets of the column, each as
/// often as it was given, by rows; those of one row stay in the order given.
pub proof fn triplets_are_placed<T>(
    triplets: Seq<(usize, usize, T)>,
    n: int,
    j: int,
    entry: (usize, T),
)
    requires
        0 <= j < n,
    ensures
        placed_cols(triplets, n).len() == n,
        placed_cols(triplets, n)[j].to_multiset().count(entry) == count_where(
            triplets.len() as int,
            |k: int| triplets[k].1 == j && (triplets[k].0, triplets[k].2) == entry,
        ),
        forall|a: int, b: int|
            0 <= a <= b < placed_cols(triplets, n)[j].len() ==> (#[trigger] placed_cols(
                triplets,
                n,
            )[j][a]).0 <= (#[trigger] placed_cols(triplets, n)[j][b]).0,
{
    placed_count(triplets, j, entry, triplets.len() as int);
    assert(triplets.take(triplets.len() as int) =~= triplets);
    crate::sparse::placed_ascends(triplets, j);
}

proof fn placed_count<T>(
    triplets: Seq<(usize, usize, T)>,
    j: int,
    entry: (usize, T),
    m: int,
)
    requires
        0 <= m <= triplets.len(),
    ensures
        placed(triplets.take(m), j).to_multiset().count(entry) == count_where(
            m,
            |k: int| triplets[k].1 == j && (triplets[k].0, triplets[k].2) == entry,
        ),
    decreases m,
{
    broadcast use vstd::seq_lib::group_to_multiset_ensures;

    let p = |k: int| triplets[k].1 == j && (triplets[k].0, triplets[k].2) == entry;
    if m > 0 {
        placed_count(triplets, j, entry, m - 1);
        assert(triplets.take(m).drop_last() =~= triplets.take(m - 1));
        let t = triplets.take(m).last();
        assert(t == triplets[m - 1]);
        let before = placed(triplets.take(m - 1), j);
        if t.1 == j {
            crate::sparse::slot_bounds(before, t.0);
            let at = slot(before, t.0);
            vstd::seq_lib::to_multiset_insert(before, at, (t.0, t.2));
        }
    } else {
        assert(placed(triplets.take(0), j) =~= Seq::empty());
    }
}

/// The columns of a table hold what is not zero, by rows.
pub proof fn tables_keep_what_is_not_zero(rows: Seq<Vec<Real>>, j: int, i: int)
    requires
        0 <= i < rows.len() <= usize::MAX,
    ensures
        dense_col(rows, j).contains((i as usize, rows[i]@[j])) <==> rows[i]@[j].bits
            != 0 && rows[i]@[j].bits != 0x8000_0000_0000_0000,
        forall|a: int, b: int|
            0 <= a < b < dense_col(rows, j).len() ==> (#[trigger] dense_col(rows, j)[a]).0 < (
            #[trigger] dense_col(rows, j)[b]).0,
        forall|a: int|
            0 <= a < dense_col(rows, j).len() ==> (#[trigger] dense_col(rows, j)[a]).0 < rows.len()
                && dense_col(rows, j)[a].1 == rows[dense_col(rows, j)[a].0 as int]@[j],
{
    let n = rows.len() as int;
    let f = |i: int|
        if rows[i]@[j].zero() {
            Seq::empty()
        } else {
            seq![(i as usize, rows[i]@[j])]
        };
    let col = dense_col(rows, j);
    if !rows[i]@[j].zero() {
        assert(f(i) == seq![(i as usize, rows[i]@[j])]);
        crate::lists::gather_holds(n, f, i, 0);
    }
    if col.contains((i as usize, rows[i]@[j])) {
        let a = choose|a: int| 0 <= a < col.len() && col[a] == (i as usize, rows[i]@[j]);
        let (x, z) = gather_member(n, f, a);
    }
    assert forall|a: int| 0 <= a < col.len() implies (#[trigger] col[a]).0 < rows.len()
        && col[a].1 == rows[col[a].0 as int]@[j] by {
        let (x, z) = gather_member(n, f, a);
    }
    assert forall|a: int, b: int| 0 <= a < b < col.len() implies (#[trigger] col[a]).0 < (
    #[trigger] col[b]).0 by {
        let (x, u) = gather_member(n, f, a);
        let (y, v) = gather_member(n, f, b);
        if y <= x {
            crate::statements::demands::more_pieces(y, x, f);
        }
    }
}

/// Triplets that a matrix was made of are left ordered by column and, within a column, by
/// row; none is lost, none is added.
pub proof fn triplets_are_left_ordered<T>(
    triplets: Seq<(usize, usize, T)>,
    n: int,
    t: (usize, usize, T),
)
    requires
        forall|k: int| 0 <= k < triplets.len() ==> (#[trigger] triplets[k]).1 < n,
        0 <= n <= usize::MAX,
    ensures
        ({
            let left = listed(placed_cols(triplets, n), n);
            &&& forall|a: int, b: int|
                0 <= a <= b < left.len() ==> (#[trigger] left[a]).1 < (#[trigger] left[b]).1
                    || left[a].1 == left[b].1 && left[a].0 <= left[b].0
            &&& left.to_multiset().count(t) == count_where(
                triplets.len() as int,
                |k: int| triplets[k] == t,
            )
        }),
{
    listing_is_ordered(triplets, n, n);
    listing_counts(triplets, n, n, t);
    let p = |k: int| triplets[k] == t;
    if t.1 < n {
        let (j, entry) = (t.1 as int, (t.0, t.2));
        let q = |k: int| triplets[k].1 == j && (triplets[k].0, triplets[k].2) == entry;
        triplets_are_placed(triplets, n, j, entry);
        crate::lists::count_same(triplets.len() as int, p, q);
    } else {
        let q = |k: int| false;
        crate::lists::count_same(triplets.len() as int, p, q);
        none_counted(triplets.len() as int, q);
    }
}

proof fn none_counted(n: int, q: spec_fn(int) -> bool)
    requires
        forall|k: int| !#[trigger] q(k),
    ensures
        count_where(n, q) == 0,
    decreases n,
{
    if n > 0 {
        none_counted(n - 1, q);
        assert(!q(n - 1));
    }
}

proof fn listing_is_ordered<T>(triplets: Seq<(usize, usize, T)>, n: int, m: int)
    requires
        0 <= m <= n <= usize::MAX,
    ensures
        ({
            let left = listed(placed_cols(triplets, n), m);
            &&& forall|a: int| 0 <= a < left.len() ==> (#[trigger] left[a]).1 < m
            &&& forall|a: int, b: int|
                0 <= a <= b < left.len() ==> (#[trigger] left[a]).1 < (#[trigger] left[b]).1
                    || left[a].1 == left[b].1 && left[a].0 <= left[b].0
        }),
    decreases m,
{
    if m > 0 {
        listing_is_ordered(triplets, n, m - 1);
        let cols = placed_cols(triplets, n);
        let before = listed(cols, m - 1);
        let left = listed(cols, m);
        crate::sparse::placed_ascends(triplets, m - 1);
        assert forall|a: int, b: int| 0 <= a <= b < left.len() implies (#[trigger] left[a]).1 < (
        #[trigger] left[b]).1 || left[a].1 == left[b].1 && left[a].0 <= left[b].0 by {
            if b < before.len() {
                assert(left[a] == before[a] && left[b] == before[b]);
            } else if a < before.len() {
                assert(left[a] == before[a]);
                assert(left[b].1 == m - 1);
            } else {
                assert(cols[m - 1][a - before.len()].0 <= cols[m - 1][b - before.len()].0);
            }
        }
        assert forall|a: int| 0 <= a < left.len() implies (#[trigger] left[a]).1 < m by {
            if a < before.len() {
                assert(left[a] == before[a]);
            }
        }
    }
}

proof fn listing_counts<T>(
    triplets: Seq<(usize, usize, T)>,
    n: int,
    m: int,
    t: (usize, usize, T),
)
    requires
        0 <= m <= n <= usize::MAX,
    ensures
        listed(placed_cols(triplets, n), m).to_multiset().count(t) == if t.1 < m {
            placed_cols(triplets, n)[t.1 as int].to_multiset().count((t.0, t.2))
        } else {
            0
        },
    decreases m,
{
    broadcast use vstd::seq_lib::group_to_multiset_ensures;

    let cols = placed_cols(triplets, n);
    if m > 0 {
        listing_counts(triplets, n, m - 1, t);
        let before = listed(cols, m - 1);
        let here = tagged(cols[m - 1], m - 1);
        vstd::seq_lib::lemma_multiset_commutative(before, here);
        tagged_counts(cols[m - 1], m - 1, t);
    } else {
        assert(listed(cols, m) =~= Seq::empty());
    }
}

proof fn tagged_counts<T>(col: Seq<(usize, T)>, j: int, t: (usize, usize, T))
    requires
        0 <= j <= usize::MAX,
    ensures
        tagged(col, j).to_multiset().count(t) == if t.1 == j {
            col.to_multiset().count((t.0, t.2))
        } else {
            0
        },
    decreases col.len(),
{
    broadcast use vstd::seq_lib::group_to_multiset_ensures;

    if col.len() > 0 {
        let front = col.drop_last();
        tagged_counts(front, j, t);
        assert(col =~= front.push(col.last()));
        assert(tagged(col, j) =~= tagged(front, j).push(
            (col.last().0, j as usize, col.last().1),
        ));
    } else {
        assert(tagged(col, j) =~= Seq::empty());
        assert(col =~= Seq::empty());
    }
}

/// When matrices are put side by side or columns picked, and what is said where they are
/// not: two matrices must be of one height, a column must be there, and of several that are
/// not the first is named.
pub proof fn matrices_fail_for_reasons<T>(
    matrices: Seq<&CscMatrix<T>>,
    wanted: Seq<usize>,
    n: int,
    i: int,
)
    ensures
        same_height(matrices) <==> forall|a: int, b: int|
            0 <= a < matrices.len() && 0 <= b < matrices.len() ==> (#[trigger] matrices[a]).m == (
            #[trigger] matrices[b]).m,
        columns_exist(wanted, n) <==> !exists|k: int|
            0 <= k < wanted.len() && #[trigger] wanted[k] >= n,
        first_beyond(wanted, n, i) ==> 0 <= i < wanted.len() && wanted[i] >= n && !columns_exist(
            wanted,
            n,
        ) && forall|k: int| 0 <= k < wanted.len() && #[trigger] wanted[k] >= n ==> i <= k,
        column_fault(i) == Fault::MatrixConstructionError(
            "Column index "@ + numeral(i as nat) + " out of bounds"@,
        ),
        dimension_fault() == Fault::MatrixConstructionError("J1 and J2 dimensions must match"@),
        no_columns() == Fault::MatrixConstructionError("No columns selected for coalition"@),
{
}

} // verus!
