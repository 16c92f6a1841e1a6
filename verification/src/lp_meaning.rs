//! What the linear programs mean: their points, and what a point costs.
use crate::lists::{count_bound, count_grows, count_where, gather, gather_holds, gather_member};
use crate::lp_builder::{inner, Share};
use crate::solver::{
    is_usable, narrowed, rows_within, usable_before, usable_list, CoalitionProgram, PrecomputedRows,
};
use vstd::prelude::*;

verus! {

/// What a row adds up to at a point: each entry, weighed by `w`, times the point's
/// value in the entry's column.
pub open spec fn dot<T>(row: Seq<(usize, T)>, w: spec_fn(T) -> real, x: Seq<real>) -> real
    decreases row.len(),
{
    if row.len() == 0 {
        0real
    } else {
        dot(row.drop_last(), w, x) + w(row.last().1) * x[row.last().0 as int]
    }
}

/// A whole number as a coefficient.
pub open spec fn whole_weight() -> spec_fn(i32) -> real {
    |c: i32| c as real
}

/// A fraction as a coefficient.
pub open spec fn share_weight() -> spec_fn(Share) -> real {
    |c: Share| c.num as real / c.den as real
}

/// What a point costs in the first `n` columns.
pub open spec fn expense(cost: Seq<real>, x: Seq<real>, n: int) -> real
    decreases n,
{
    if n <= 0 {
        0real
    } else {
        expense(cost, x, n - 1) + cost[n - 1] * x[n - 1]
    }
}

/// The members of `all` at the given places.
pub open spec fn at_places(all: Seq<real>, places: Seq<usize>) -> Seq<real> {
    Seq::new(places.len(), |q: int| all[places[q] as int])
}

/// A point of the linear program of a coalition.
pub open spec fn is_point(
    program: CoalitionProgram,
    b_eq: Seq<real>,
    b_ub: Seq<real>,
    y: Seq<real>,
) -> bool {
    &&& y.len() == program.cols@.len()
    &&& forall|q: int| 0 <= q < y.len() ==> #[trigger] y[q] >= 0real
    &&& forall|r: int|
        0 <= r < program.eq_rows@.len() ==> dot(
            (#[trigger] program.eq_rows@[r])@,
            whole_weight(),
            y,
        ) == b_eq[r]
    &&& forall|r: int|
        0 <= r < program.ub_rows@.len() ==> dot(
            (#[trigger] program.ub_rows@[r])@,
            share_weight(),
            y,
        ) <= b_ub[program.ub_places@[r] as int]
}

/// A point of the linear program of the whole network in which the columns that are
/// not at the coalition's disposal are held at zero.
pub open spec fn is_pinned_point(
    rows: PrecomputedRows,
    near: Seq<u32>,
    far: Seq<u32>,
    coalition: u32,
    b_eq: Seq<real>,
    b_ub: Seq<real>,
    x: Seq<real>,
) -> bool {
    &&& x.len() == near.len()
    &&& forall|i: int| 0 <= i < x.len() ==> #[trigger] x[i] >= 0real
    &&& forall|i: int|
        0 <= i < x.len() && !is_usable(near, far, coalition, i) ==> #[trigger] x[i] == 0real
    &&& forall|r: int|
        0 <= r < rows.eq_rows@.len() ==> dot((#[trigger] rows.eq_rows@[r])@, whole_weight(), x)
            == b_eq[r]
    &&& forall|r: int|
        0 <= r < rows.ub_rows@.len() ==> dot((#[trigger] rows.ub_rows@[r])@, share_weight(), x)
            <= b_ub[r]
}

/// The point of the whole network that a point of the coalition stands for.
pub open spec fn spread(near: Seq<u32>, far: Seq<u32>, coalition: u32, y: Seq<real>) -> Seq<real> {
    Seq::new(
        near.len(),
        |i: int|
            if is_usable(near, far, coalition, i) {
                y[usable_before(near, far, coalition, i) as int]
            } else {
                0real
            },
    )
}

/// A row without columns of the coalition is limited by nothing that the coalition
/// does.
pub open spec fn is_idle(
    row: Seq<(usize, Share)>,
    near: Seq<u32>,
    far: Seq<u32>,
    coalition: u32,
) -> bool {
    forall|k: int|
        0 <= k < row.len() ==> !is_usable(near, far, coalition, (#[trigger] row[k]).0 as int)
}

/// A narrowed row adds up to what the whole row does at the spread point.
pub proof fn narrowed_dot<T>(
    row: Seq<(usize, T)>,
    w: spec_fn(T) -> real,
    near: Seq<u32>,
    far: Seq<u32>,
    coalition: u32,
    y: Seq<real>,
    k: int,
)
    requires
        0 <= k <= row.len(),
        forall|i: int| 0 <= i < row.len() ==> (#[trigger] row[i]).0 < near.len(),
        near.len() <= usize::MAX,
    ensures
        dot(
            gather(
                k,
                |k: int|
                    if is_usable(near, far, coalition, row[k].0 as int) {
                        seq![
                            (
                                usable_before(near, far, coalition, row[k].0 as int) as usize,
                                row[k].1,
                            ),
                        ]
                    } else {
                        Seq::empty()
                    },
            ),
            w,
            y,
        ) == dot(row.take(k), w, spread(near, far, coalition, y)),
    decreases k,
{
    let f = |k: int|
        if is_usable(near, far, coalition, row[k].0 as int) {
            seq![(usable_before(near, far, coalition, row[k].0 as int) as usize, row[k].1)]
        } else {
            Seq::empty()
        };
    let x = spread(near, far, coalition, y);
    if k > 0 {
        narrowed_dot(row, w, near, far, coalition, y, k - 1);
        let head = gather(k - 1, f);
        let all = gather(k, f);
        let (col, value) = row[k - 1];
        assert(row[k - 1].0 < near.len());
        assert(row.take(k).drop_last() =~= row.take(k - 1));
        assert(row.take(k).last() == row[k - 1]);
        count_bound(col as int, |i: int| is_usable(near, far, coalition, i));
        if is_usable(near, far, coalition, col as int) {
            assert(all =~= head.push((usable_before(near, far, coalition, col as int) as usize, value)));
            assert(all.drop_last() =~= head);
            assert(x[col as int] == y[usable_before(near, far, coalition, col as int) as int]);
        } else {
            assert(all =~= head);
            assert(x[col as int] == 0real);
            let c = w(value);
            assert(c * 0real == 0real) by (nonlinear_arith);
        }
    }
}

/// A row that touches only zeros adds up to zero.
pub proof fn idle_dot(
    row: Seq<(usize, Share)>,
    near: Seq<u32>,
    far: Seq<u32>,
    coalition: u32,
    y: Seq<real>,
)
    requires
        forall|i: int| 0 <= i < row.len() ==> (#[trigger] row[i]).0 < near.len(),
        is_idle(row, near, far, coalition),
    ensures
        dot(row, share_weight(), spread(near, far, coalition, y)) == 0real,
    decreases row.len(),
{
    if row.len() > 0 {
        let front = row.drop_last();
        assert forall|i: int| 0 <= i < front.len() implies (#[trigger] front[i]).0 < near.len()
            && !is_usable(near, far, coalition, front[i].0 as int) by {
            assert(front[i] == row[i]);
        }
        idle_dot(front, near, far, coalition, y);
        let last = row[row.len() - 1];
        assert(spread(near, far, coalition, y)[last.0 as int] == 0real);
        let c = share_weight()(last.1);
        assert(c * 0real == 0real) by (nonlinear_arith);
    }
}

/// A point of the coalition's program is one, spread out, of the program of the whole
/// network with the columns outside the coalition held at zero, just where it also keeps
/// to the rows that the coalition leaves out.
pub proof fn pinning_keeps_all_rows(
    program: CoalitionProgram,
    rows: PrecomputedRows,
    coalition: u32,
    col_op1: Seq<u32>,
    col_op2: Seq<u32>,
    row_op1: Seq<u32>,
    row_op2: Seq<u32>,
    b_eq: Seq<real>,
    b_ub: Seq<real>,
    y: Seq<real>,
)
    requires
        program.describes(rows, coalition, col_op1, col_op2, row_op1, row_op2),
        rows_within(inner(rows.eq_rows@), col_op1.len() as int),
        rows_within(inner(rows.ub_rows@), col_op1.len() as int),
        col_op1.len() <= usize::MAX,
        row_op1.len() == rows.ub_rows@.len(),
        y.len() == program.cols@.len(),
    ensures
        is_pinned_point(
            rows,
            col_op1,
            col_op2,
            coalition,
            b_eq,
            b_ub,
            spread(col_op1, col_op2, coalition, y),
        ) <==> is_point(program, b_eq, b_ub, y) && forall|r: int|
            0 <= r < rows.ub_rows@.len() && !is_usable(row_op1, row_op2, coalition, r) ==> dot(
                (#[trigger] rows.ub_rows@[r])@,
                share_weight(),
                spread(col_op1, col_op2, coalition, y),
            ) <= b_ub[r],
{
    let x = spread(col_op1, col_op2, coalition, y);
    let eq = inner(rows.eq_rows@);
    let ub = inner(rows.ub_rows@);
    assert(program.eq_rows@.len() == inner(program.eq_rows@).len());
    assert(rows.eq_rows@.len() == eq.len());
    assert(program.ub_rows@.len() == inner(program.ub_rows@).len());
    assert forall|r: int| 0 <= r < eq.len() implies dot(
        (#[trigger] program.eq_rows@[r])@,
        whole_weight(),
        y,
    ) == dot(rows.eq_rows@[r]@, whole_weight(), x) by {
        assert(inner(program.eq_rows@)[r] == narrowed(eq[r], col_op1, col_op2, coalition));
        assert(inner(program.eq_rows@)[r] == program.eq_rows@[r]@);
        assert(eq[r] == rows.eq_rows@[r]@);
        assert forall|i: int| 0 <= i < eq[r].len() implies (#[trigger] eq[r][i]).0
            < col_op1.len() by {}
        narrowed_dot(eq[r], whole_weight(), col_op1, col_op2, coalition, y, eq[r].len() as int);
        assert(eq[r].take(eq[r].len() as int) =~= eq[r]);
    }
    let f = |i: int|
        if is_usable(row_op1, row_op2, coalition, i) {
            seq![i as usize]
        } else {
            Seq::empty()
        };
    let places = program.ub_places@;
    assert(rows.ub_rows@.len() == rows.ub_rows.len());
    assert(program.ub_rows@.len() == places.len());
    assert forall|k: int| 0 <= k < places.len() implies dot(
        (#[trigger] program.ub_rows@[k])@,
        share_weight(),
        y,
    ) == dot(rows.ub_rows@[places[k] as int]@, share_weight(), x) && places[k] < ub.len()
        && is_usable(row_op1, row_op2, coalition, places[k] as int) by {
        let (a, b) = gather_member(row_op1.len() as int, f, k);
        let row = ub[places[k] as int];
        assert(inner(program.ub_rows@)[k] == narrowed(row, col_op1, col_op2, coalition));
        assert(inner(program.ub_rows@)[k] == program.ub_rows@[k]@);
        assert forall|i: int| 0 <= i < row.len() implies (#[trigger] row[i]).0
            < col_op1.len() by {
            assert(ub[places[k] as int][i].0 < col_op1.len());
        }
        narrowed_dot(row, share_weight(), col_op1, col_op2, coalition, y, row.len() as int);
        assert(row.take(row.len() as int) =~= row);
    }
    let p = |i: int| is_usable(col_op1, col_op2, coalition, i);
    usable_count(col_op1, col_op2, coalition, col_op1.len() as int);
    assert(y.len() == count_where(col_op1.len() as int, p));
    if is_point(program, b_eq, b_ub, y) && forall|r: int|
        0 <= r < rows.ub_rows@.len() && !is_usable(row_op1, row_op2, coalition, r) ==> dot(
            (#[trigger] rows.ub_rows@[r])@,
            share_weight(),
            x,
        ) <= b_ub[r] {
        assert forall|i: int| 0 <= i < x.len() implies #[trigger] x[i] >= 0real by {
            if p(i) {
                count_grows(i + 1, col_op1.len() as int, p, p);
                assert(y[count_where(i, p) as int] >= 0real);
            }
        }
        assert forall|r: int| 0 <= r < rows.eq_rows@.len() implies dot(
            (#[trigger] rows.eq_rows@[r])@,
            whole_weight(),
            x,
        ) == b_eq[r] by {
            assert(dot(program.eq_rows@[r]@, whole_weight(), y) == b_eq[r]);
        }
        assert forall|r: int| 0 <= r < rows.ub_rows@.len() implies dot(
            (#[trigger] rows.ub_rows@[r])@,
            share_weight(),
            x,
        ) <= b_ub[r] by {
            if is_usable(row_op1, row_op2, coalition, r) {
                assert(f(r) == seq![r as usize]);
                gather_holds(row_op1.len() as int, f, r, 0);
                let k = gather(r, f).len() as int;
                assert(places[k] == r);
                assert(dot(program.ub_rows@[k]@, share_weight(), y) <= b_ub[places[k] as int]);
            }
        }
    }
    if is_pinned_point(rows, col_op1, col_op2, coalition, b_eq, b_ub, x) {
        assert forall|q: int| 0 <= q < y.len() implies #[trigger] y[q] >= 0real by {
            let i = nth_where(col_op1.len() as int, p, q);
            assert(x[i] == y[q]);
        }
        assert forall|r: int| 0 <= r < program.eq_rows@.len() implies dot(
            (#[trigger] program.eq_rows@[r])@,
            whole_weight(),
            y,
        ) == b_eq[r] by {
            assert(dot(rows.eq_rows@[r]@, whole_weight(), x) == b_eq[r]);
        }
        assert forall|k: int| 0 <= k < program.ub_rows@.len() implies dot(
            (#[trigger] program.ub_rows@[k])@,
            share_weight(),
            y,
        ) <= b_ub[places[k] as int] by {
            assert(dot(program.ub_rows@[k]@, share_weight(), y) == dot(
                rows.ub_rows@[places[k] as int]@,
                share_weight(),
                x,
            ));
            assert(dot(rows.ub_rows@[places[k] as int]@, share_weight(), x)
                <= b_ub[places[k] as int]);
        }
    }
}

/// Holding the columns outside a coalition at zero gives the same linear program as
/// leaving them out: a point of the coalition's program is one, spread out, of the
/// program of the whole network, and the other way round. The rows left out must
/// touch no column of the coalition and ask for nothing below zero.
pub proof fn pinning_equals_leaving_out(
    program: CoalitionProgram,
    rows: PrecomputedRows,
    coalition: u32,
    col_op1: Seq<u32>,
    col_op2: Seq<u32>,
    row_op1: Seq<u32>,
    row_op2: Seq<u32>,
    b_eq: Seq<real>,
    b_ub: Seq<real>,
    y: Seq<real>,
)
    requires
        program.describes(rows, coalition, col_op1, col_op2, row_op1, row_op2),
        rows_within(inner(rows.eq_rows@), col_op1.len() as int),
        rows_within(inner(rows.ub_rows@), col_op1.len() as int),
        col_op1.len() <= usize::MAX,
        row_op1.len() == rows.ub_rows@.len(),
        y.len() == program.cols@.len(),
        forall|r: int|
            0 <= r < rows.ub_rows@.len() && !is_usable(row_op1, row_op2, coalition, r) ==> is_idle(
                (#[trigger] rows.ub_rows@[r])@,
                col_op1,
                col_op2,
                coalition,
            ) && b_ub[r] >= 0real,
    ensures
        is_point(program, b_eq, b_ub, y) <==> is_pinned_point(
            rows,
            col_op1,
            col_op2,
            coalition,
            b_eq,
            b_ub,
            spread(col_op1, col_op2, coalition, y),
        ),
{
    let x = spread(col_op1, col_op2, coalition, y);
    let ub = inner(rows.ub_rows@);
    pinning_keeps_all_rows(
        program,
        rows,
        coalition,
        col_op1,
        col_op2,
        row_op1,
        row_op2,
        b_eq,
        b_ub,
        y,
    );
    assert(rows.ub_rows@.len() == ub.len());
    assert forall|r: int|
        0 <= r < rows.ub_rows@.len() && !is_usable(row_op1, row_op2, coalition, r) implies dot(
        (#[trigger] rows.ub_rows@[r])@,
        share_weight(),
        x,
    ) <= b_ub[r] by {
        let row = rows.ub_rows@[r]@;
        assert forall|i: int| 0 <= i < row.len() implies (#[trigger] row[i]).0 < col_op1.len() by {
            assert(ub[r][i].0 < col_op1.len());
        }
        idle_dot(row, col_op1, col_op2, coalition, y);
    }
}

/// As many places are listed as meet the condition.
proof fn gathered_count(n: int, p: spec_fn(int) -> bool)
    ensures
        gather(
            n,
            |i: int|
                if p(i) {
                    seq![i as usize]
                } else {
                    Seq::empty()
                },
        ).len() == count_where(n, p),
    decreases n,
{
    if n > 0 {
        gathered_count(n - 1, p);
    }
}

/// As many are listed as are at the coalition's disposal.
pub proof fn usable_count(near: Seq<u32>, far: Seq<u32>, coalition: u32, n: int)
    ensures
        gather(
            n,
            |i: int|
                if is_usable(near, far, coalition, i) {
                    seq![i as usize]
                } else {
                    Seq::empty()
                },
        ).len() == usable_before(near, far, coalition, n),
{
    let p = |i: int| is_usable(near, far, coalition, i);
    let f = |i: int|
        if is_usable(near, far, coalition, i) {
            seq![i as usize]
        } else {
            Seq::empty()
        };
    let g = |i: int|
        if p(i) {
            seq![i as usize]
        } else {
            Seq::empty()
        };
    gathered_count(n, p);
    crate::lists::gather_same(n, f, g);
}

/// The position that is the `q`th to meet the condition.
proof fn nth_where(n: int, p: spec_fn(int) -> bool, q: int) -> (i: int)
    requires
        0 <= q < count_where(n, p),
    ensures
        0 <= i < n,
        p(i),
        count_where(i, p) == q,
    decreases n,
{
    if p(n - 1) && count_where(n - 1, p) == q {
        n - 1
    } else {
        nth_where(n - 1, p, q)
    }
}

/// A point costs the same spread out.
pub proof fn spreading_keeps_the_cost(
    near: Seq<u32>,
    far: Seq<u32>,
    coalition: u32,
    cost: Seq<real>,
    y: Seq<real>,
)
    requires
        near.len() <= usize::MAX,
        y.len() == usable_list(near, far, coalition).len(),
    ensures
        expense(at_places(cost, usable_list(near, far, coalition)), y, y.len() as int) == expense(
            cost,
            spread(near, far, coalition, y),
            near.len() as int,
        ),
{
    expense_upto(near, far, coalition, cost, y, near.len() as int);
    usable_count(near, far, coalition, near.len() as int);
}

proof fn expense_upto(
    near: Seq<u32>,
    far: Seq<u32>,
    coalition: u32,
    cost: Seq<real>,
    y: Seq<real>,
    n: int,
)
    requires
        near.len() <= usize::MAX,
        0 <= n <= near.len(),
    ensures
        expense(
            at_places(cost, usable_list(near, far, coalition)),
            y,
            usable_before(near, far, coalition, n) as int,
        ) == expense(cost, spread(near, far, coalition, y), n),
    decreases n,
{
    let p = |i: int| is_usable(near, far, coalition, i);
    let x = spread(near, far, coalition, y);
    if n > 0 {
        expense_upto(near, far, coalition, cost, y, n - 1);
        if p(n - 1) {
            let f = |i: int|
                if is_usable(near, far, coalition, i) {
                    seq![i as usize]
                } else {
                    Seq::empty()
                };
            assert(f(n - 1) == seq![(n - 1) as usize]);
            gather_holds(near.len() as int, f, n - 1, 0);
            usable_count(near, far, coalition, n - 1);
            let q = count_where(n - 1, p) as int;
            assert(at_places(cost, usable_list(near, far, coalition))[q] == cost[n - 1]);
            assert(x[n - 1] == y[q]);
        } else {
            let c = cost[n - 1];
            assert(x[n - 1] == 0real);
            assert(c * 0real == 0real) by (nonlinear_arith);
        }
    }
}

/// Every point in which the columns outside the coalition are held at zero is the
/// spread of a point of the coalition.
pub proof fn pinned_points_are_spread(
    near: Seq<u32>,
    far: Seq<u32>,
    coalition: u32,
    x: Seq<real>,
) -> (y: Seq<real>)
    requires
        near.len() <= usize::MAX,
        x.len() == near.len(),
        forall|i: int|
            0 <= i < x.len() && !is_usable(near, far, coalition, i) ==> #[trigger] x[i] == 0real,
    ensures
        y == at_places(x, usable_list(near, far, coalition)),
        spread(near, far, coalition, y) == x,
{
    let p = |i: int| is_usable(near, far, coalition, i);
    let list = usable_list(near, far, coalition);
    let y = at_places(x, list);
    let f = |i: int|
        if is_usable(near, far, coalition, i) {
            seq![i as usize]
        } else {
            Seq::empty()
        };
    assert forall|i: int| 0 <= i < x.len() implies #[trigger] spread(near, far, coalition, y)[i]
        == x[i] by {
        if p(i) {
            assert(f(i) == seq![i as usize]);
            gather_holds(near.len() as int, f, i, 0);
            usable_count(near, far, coalition, i);
            assert(list[count_where(i, p) as int] == i);
        }
    }
    assert(spread(near, far, coalition, y) =~= x);
    y
}

} // verus!
