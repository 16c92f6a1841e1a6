//! Who belongs to a coalition, and what a coalition keeps of a linear program.
use crate::games::is_member;
use crate::lists::{count_grows, count_where, gather, gather_member};
use crate::lp_builder::inner;
use crate::quantity::Real;
use crate::routing::{chosen_list, column_sum};
use crate::shapley::{
    carried_over, coalition_mask, gate_of, is_counted, marginal_of, marginals_of, mask_of,
    outage_of, outages_of, Marginal, Outage,
};
use crate::solver::{
    belongs, flips, is_usable, narrowed, part_of_row, row_of, rows_of, usable_before,
    usable_list, worth_shown, CoalitionProgram, ModelStatus, PrecomputedRows,
};
use crate::statements::walks::has;
use crate::text::{place, place_found};
use vstd::arithmetic::power2::pow2;
use vstd::prelude::*;

verus! {

/// The operator is in the coalition: it is always there, or a player whose bit is set.
pub open spec fn takes_part(operator: Seq<char>, players: Seq<Seq<char>>, index: u32) -> bool {
    ||| operator == "Public"@ || operator == "Private"@ || operator == Seq::<char>::empty()
    ||| exists|k: int| 0 <= k < players.len() && #[trigger] players[k] == operator && has(index, k)
}

/// The bits of an operator meet those of a coalition just where the operator takes part.
pub proof fn members_take_part(operator: Seq<char>, players: Seq<Seq<char>>, index: u32)
    requires
        players.no_duplicates(),
        players.len() <= 31,
    ensures
        belongs(mask_of(operator, players), coalition_mask(index)) <==> takes_part(
            operator,
            players,
            index,
        ),
{
    assert(operator.len() == 0 <==> operator == Seq::<char>::empty()) by {
        if operator.len() == 0 {
            assert(operator =~= Seq::empty());
        }
    }
    assert(0x8000_0000u32 & (index | 0x8000_0000u32) != 0) by (bit_vector);
    assert(0u32 & (index | 0x8000_0000u32) == 0) by (bit_vector);
    if players.contains(operator) {
        place_found(players, operator);
        let k = place(players, operator);
        let b = k as u32;
        assert(((1u32 << b) & (index | 0x8000_0000u32) != 0) == (index & (1u32 << b) != 0))
            by (bit_vector)
            requires
                b < 31,
        ;
        assert(players[k] == operator);
    }
    if exists|k: int| 0 <= k < players.len() && #[trigger] players[k] == operator && has(index, k) {
        let k = choose|k: int|
            0 <= k < players.len() && #[trigger] players[k] == operator && has(index, k);
        assert(players.contains(operator));
    }
}

/// The bits that bar values from being taken over are those of the players that changed.
pub proof fn the_gate_bars_what_changed(
    changed: Seq<Seq<char>>,
    players: Seq<Seq<char>>,
    k: int,
)
    requires
        players.no_duplicates(),
        players.len() <= 32,
        0 <= k < 32,
    ensures
        has(gate_of(changed, players), k) <==> k < players.len() && changed.contains(players[k]),
    decreases changed.len(),
{
    let b = k as u32;
    if changed.len() == 0 {
        assert(0u32 & (1u32 << b) == 0) by (bit_vector);
    } else {
        let front = changed.drop_last();
        let last = changed.last();
        the_gate_bars_what_changed(front, players, k);
        let rest = gate_of(front, players);
        if players.contains(last) {
            place_found(players, last);
            let p = place(players, last) as u32;
            assert(((rest | (1u32 << p)) & (1u32 << b) != 0) == (rest & (1u32 << b) != 0 || p == b))
                by (bit_vector)
                requires
                    p < 32,
                    b < 32,
            ;
        } else {
            assert((rest | 0u32) == rest) by (bit_vector);
        }
        if k < players.len() {
            if changed.contains(players[k]) {
                let i = choose|i: int| 0 <= i < changed.len() && changed[i] == players[k];
                if i < front.len() {
                    assert(front[i] == players[k]);
                } else {
                    assert(players.contains(last));
                }
            }
            if front.contains(players[k]) {
                let i = choose|i: int| 0 <= i < front.len() && front[i] == players[k];
                assert(changed[i] == players[k]);
            }
            if last == players[k] {
                assert(changed[changed.len() - 1] == players[k]);
            }
        }
    }
}

/// A value is taken over from an earlier run just where the coalition holds no player that
/// changed, and the run has the coalition.
pub proof fn values_are_taken_over(
    seed: Map<u32, Option<Real>>,
    changed: Seq<Seq<char>>,
    players: Seq<Seq<char>>,
    index: u32,
)
    requires
        players.no_duplicates(),
        players.len() <= 31,
    ensures
        carried_over(seed, gate_of(changed, players), index) == if seed.contains_key(
            index | 0x8000_0000u32,
        ) && forall|k: int|
            0 <= k < players.len() && has(index, k) ==> !changed.contains(#[trigger] players[k]) {
            Some(seed[index | 0x8000_0000u32])
        } else {
            None
        },
{
    let gate = gate_of(changed, players);
    assert(index & gate == 0 <==> forall|k: int|
        0 <= k < players.len() && has(index, k) ==> !changed.contains(#[trigger] players[k])) by {
        if index & gate == 0 {
            assert forall|k: int| 0 <= k < players.len() && has(index, k) implies !changed.contains(
                #[trigger] players[k],
            ) by {
                the_gate_bars_what_changed(changed, players, k);
                let b = k as u32;
                assert(gate & (1u32 << b) == 0) by (bit_vector)
                    requires
                        index & gate == 0,
                        index & (1u32 << b) != 0,
                        b < 32,
                ;
            }
        } else {
            let c = index & gate;
            let k = crate::statements::walks::some_bit(c, 32);
            let b = k as u32;
            assert(index & (1u32 << b) != 0 && gate & (1u32 << b) != 0) by (bit_vector)
                requires
                    (index & gate) & (1u32 << b) != 0,
            ;
            the_gate_bars_what_changed(changed, players, k);
            assert(has(index, k) && changed.contains(players[k]));
        }
    }
}

/// A coalition keeps, in order, just the columns both of whose operators take part.
pub proof fn columns_are_kept(near: Seq<u32>, far: Seq<u32>, coalition: u32)
    requires
        near.len() <= usize::MAX,
    ensures
        ({
            let list = usable_list(near, far, coalition);
            let kept = |i: int| near[i] & coalition != 0 && far[i] & coalition != 0;
            &&& list.len() == count_where(near.len() as int, kept)
            &&& forall|i: int|
                0 <= i < near.len() && #[trigger] near[i] & coalition != 0 && far[i] & coalition != 0
                    ==> list[count_where(i, kept) as int] == i
            &&& forall|q: int|
                0 <= q < list.len() ==> {
                    let i = (#[trigger] list[q]) as int;
                    i < near.len() && near[i] & coalition != 0 && far[i] & coalition != 0
                }
            &&& forall|p: int, q: int|
                0 <= p < q < list.len() ==> (#[trigger] list[p]) < (#[trigger] list[q])
        }),
{
    let n = near.len() as int;
    let kept = |i: int| near[i] & coalition != 0 && far[i] & coalition != 0;
    let g = |i: int| i as usize;
    chosen_list(n, kept, g);
    let f = |i: int|
        if is_usable(near, far, coalition, i) {
            seq![i as usize]
        } else {
            Seq::empty()
        };
    let h = |i: int|
        if kept(i) {
            seq![g(i)]
        } else {
            Seq::empty()
        };
    crate::lists::gather_same(n, f, h);
    let list = usable_list(near, far, coalition);
    assert forall|i: int|
        0 <= i < near.len() && #[trigger] near[i] & coalition != 0 && far[i] & coalition
            != 0 implies list[count_where(i, kept) as int] == i by {
        assert(kept(i));
    }
    assert forall|q: int| 0 <= q < list.len() implies {
        let i = (#[trigger] list[q]) as int;
        i < near.len() && near[i] & coalition != 0 && far[i] & coalition != 0
    } by {
        let i = crate::lists::nth_place(n, kept, q);
        assert(kept(i));
    }
    assert forall|p: int, q: int| 0 <= p < q < list.len() implies (#[trigger] list[p]) < (
    #[trigger] list[q]) by {
        let i = crate::lists::nth_place(n, kept, p);
        let j = crate::lists::nth_place(n, kept, q);
        assert(kept(i) && kept(j));
        if j <= i {
            count_grows(j, i, kept, kept);
        }
    }
}

/// A row narrowed to a coalition keeps, in order, just the entries in columns that the
/// coalition keeps, each with its value and the place of its column among those.
pub proof fn entries_are_kept<T>(
    row: Seq<(usize, T)>,
    near: Seq<u32>,
    far: Seq<u32>,
    coalition: u32,
)
    requires
        near.len() <= usize::MAX,
        forall|k: int| 0 <= k < row.len() ==> (#[trigger] row[k]).0 < near.len(),
    ensures
        ({
            let list = usable_list(near, far, coalition);
            let part = narrowed(row, near, far, coalition);
            let kept = |k: int|
                near[row[k].0 as int] & coalition != 0 && far[row[k].0 as int] & coalition != 0;
            &&& part.len() == count_where(row.len() as int, kept)
            &&& forall|k: int|
                0 <= k < row.len() && near[(#[trigger] row[k]).0 as int] & coalition != 0
                    && far[row[k].0 as int] & coalition != 0 ==> {
                    let entry = part[count_where(k, kept) as int];
                    &&& entry.1 == row[k].1
                    &&& entry.0 < list.len()
                    &&& list[entry.0 as int] == row[k].0
                }
        }),
{
    let n = row.len() as int;
    let list = usable_list(near, far, coalition);
    let part = narrowed(row, near, far, coalition);
    let kept = |k: int|
        near[row[k].0 as int] & coalition != 0 && far[row[k].0 as int] & coalition != 0;
    let g = |k: int|
        (usable_before(near, far, coalition, row[k].0 as int) as usize, row[k].1);
    chosen_list(n, kept, g);
    let f = |k: int|
        if is_usable(near, far, coalition, row[k].0 as int) {
            seq![(usable_before(near, far, coalition, row[k].0 as int) as usize, row[k].1)]
        } else {
            Seq::empty()
        };
    let h = |k: int|
        if kept(k) {
            seq![g(k)]
        } else {
            Seq::empty()
        };
    crate::lists::gather_same(n, f, h);
    columns_are_kept(near, far, coalition);
    let used = |i: int| near[i] & coalition != 0 && far[i] & coalition != 0;
    assert forall|k: int|
        0 <= k < row.len() && near[(#[trigger] row[k]).0 as int] & coalition != 0
            && far[row[k].0 as int] & coalition != 0 implies {
        let entry = part[count_where(k, kept) as int];
        &&& entry.1 == row[k].1
        &&& entry.0 < list.len()
        &&& list[entry.0 as int] == row[k].0
    } by {
        assert(kept(k));
        let i = row[k].0 as int;
        crate::lists::count_same(i, |i: int| is_usable(near, far, coalition, i), used);
        assert(used(i));
        assert(near[i] & coalition != 0);
        crate::lists::count_bound(i, used);
        count_grows(i + 1, near.len() as int, used, used);
        let q = count_where(i, used) as int;
        assert(q < list.len() && list[q] == i);
        assert(usable_before(near, far, coalition, i) == q);
        assert(part[count_where(k, kept) as int] == g(k));
    }
}

/// What a coalition's linear program is: its columns and rows by their places in the whole
/// one, each row narrowed; all equalities, and the inequalities both of whose operators take
/// part.
pub proof fn programs_are_narrowed(
    program: CoalitionProgram,
    rows: PrecomputedRows,
    coalition: u32,
    near: Seq<u32>,
    far: Seq<u32>,
    row_near: Seq<u32>,
    row_far: Seq<u32>,
)
    requires
        program.describes(rows, coalition, near, far, row_near, row_far),
    ensures
        program.cols@ == usable_list(near, far, coalition),
        program.ub_places@ == usable_list(row_near, row_far, coalition),
        program.eq_rows@.len() == rows.eq_rows@.len(),
        forall|r: int|
            0 <= r < rows.eq_rows@.len() ==> (#[trigger] program.eq_rows@[r])@ == narrowed(
                rows.eq_rows@[r]@,
                near,
                far,
                coalition,
            ),
        program.ub_rows@.len() == program.ub_places@.len(),
        forall|k: int|
            0 <= k < program.ub_rows@.len() && program.ub_places@[k] < rows.ub_rows@.len() ==> (
            #[trigger] program.ub_rows@[k])@ == narrowed(
                rows.ub_rows@[program.ub_places@[k] as int]@,
                near,
                far,
                coalition,
            ),
{
    let (eq, ub) = (inner(rows.eq_rows@), inner(rows.ub_rows@));
    assert(eq.len() == rows.eq_rows@.len() && ub.len() == rows.ub_rows@.len());
    assert(inner(program.eq_rows@).len() == program.eq_rows@.len());
    assert(inner(program.ub_rows@).len() == program.ub_rows@.len());
    assert forall|r: int| 0 <= r < rows.eq_rows@.len() implies (
    #[trigger] program.eq_rows@[r])@ == narrowed(rows.eq_rows@[r]@, near, far, coalition) by {
        assert(inner(program.eq_rows@)[r] == program.eq_rows@[r]@);
        assert(eq[r] == rows.eq_rows@[r]@);
    }
    assert forall|k: int|
        0 <= k < program.ub_rows@.len() && program.ub_places@[k] < rows.ub_rows@.len() implies (
    #[trigger] program.ub_rows@[k])@ == narrowed(
        rows.ub_rows@[program.ub_places@[k] as int]@,
        near,
        far,
        coalition,
    ) by {
        assert(inner(program.ub_rows@)[k] == program.ub_rows@[k]@);
        assert(ub[program.ub_places@[k] as int] == rows.ub_rows@[program.ub_places@[k] as int]@);
    }
}

/// The entries of one column, read in the row: what they come to.
proof fn part_sum<T>(col: Seq<(usize, T)>, r: int, j: int, k: int, w: spec_fn(T) -> real)
    requires
        0 <= k <= col.len(),
        0 <= j <= usize::MAX,
    ensures
        column_sum(part_of_row(col, r, j, k), j, w) == column_sum(col.take(k), r, w),
        forall|i: int|
            0 <= i < part_of_row(col, r, j, k).len() ==> (#[trigger] part_of_row(
                col,
                r,
                j,
                k,
            )[i]).0 == j,
    decreases k,
{
    let part = part_of_row(col, r, j, k);
    if k > 0 {
        part_sum(col, r, j, k - 1, w);
        let before = part_of_row(col, r, j, k - 1);
        let piece: Seq<(usize, T)> = if col[k - 1].0 == r {
            seq![(j as usize, col[k - 1].1)]
        } else {
            Seq::empty()
        };
        assert(part_of_row(col, r, j, k) == before + piece);
        assert(col.take(k).drop_last() =~= col.take(k - 1));
        assert(col.take(k).last() == col[k - 1]);
        if col[k - 1].0 == r {
            assert(part.drop_last() =~= before);
            assert(part.last() == (j as usize, col[k - 1].1));
        } else {
            assert(part =~= before);
        }
        assert forall|i: int| 0 <= i < part.len() implies (#[trigger] part[i]).0 == j by {
            if i < before.len() {
                assert(part[i] == before[i]);
            }
        }
    } else {
        assert(col.take(0) =~= Seq::empty());
    }
}

/// Read by rows, a matrix has in each row and column what it has read by columns.
pub proof fn rows_hold_what_columns_hold<T>(
    cols: Seq<Seq<(usize, T)>>,
    m: int,
    r: int,
    j: int,
    w: spec_fn(T) -> real,
)
    requires
        0 <= r < m,
        0 <= j < cols.len() <= usize::MAX,
    ensures
        rows_of(cols, m).len() == m,
        column_sum(rows_of(cols, m)[r], j, w) == column_sum(cols[j], r, w),
{
    row_upto(cols, r, j, cols.len() as int, w);
}

proof fn row_upto<T>(
    cols: Seq<Seq<(usize, T)>>,
    r: int,
    j: int,
    n: int,
    w: spec_fn(T) -> real,
)
    requires
        0 <= n <= cols.len() <= usize::MAX,
        0 <= j < cols.len(),
    ensures
        column_sum(row_of(cols, r, n), j, w) == if j < n {
            column_sum(cols[j], r, w)
        } else {
            0real
        },
    decreases n,
{
    if n > 0 {
        row_upto(cols, r, j, n - 1, w);
        let before = row_of(cols, r, n - 1);
        let col = cols[n - 1];
        let part = part_of_row(col, r, n - 1, col.len() as int);
        assert(row_of(cols, r, n) == before + part);
        crate::routing::sum_of_two(before, part, j, w);
        part_sum(col, r, n - 1, col.len() as int, w);
        assert(col.take(col.len() as int) =~= col);
        if n - 1 != j {
            crate::routing::sum_elsewhere(part, j, w);
        }
    }
}

/// Passing to a coalition, just the columns change that are open and should not be, or shut
/// and should; in order, each with what it becomes.
pub proof fn flips_are_what_changes(
    before: Seq<bool>,
    near: Seq<u32>,
    far: Seq<u32>,
    coalition: u32,
)
    requires
        before.len() <= usize::MAX,
    ensures
        ({
            let list = flips(before, near, far, coalition);
            let open = |i: int| near[i] & coalition != 0 && far[i] & coalition != 0;
            &&& forall|i: int|
                0 <= i < before.len() && #[trigger] before[i] != open(i) ==> list.contains(
                    (i as usize, open(i)),
                )
            &&& forall|q: int|
                0 <= q < list.len() ==> {
                    let (i, b) = #[trigger] list[q];
                    i < before.len() && before[i as int] != open(i as int) && b == open(i as int)
                }
            &&& forall|p: int, q: int|
                0 <= p < q < list.len() ==> (#[trigger] list[p]).0 < (#[trigger] list[q]).0
        }),
{
    let n = before.len() as int;
    let list = flips(before, near, far, coalition);
    let open = |i: int| near[i] & coalition != 0 && far[i] & coalition != 0;
    let p = |i: int| before[i] != open(i);
    let g = |i: int| (i as usize, open(i));
    chosen_list(n, p, g);
    let f = |i: int|
        if before[i] != is_usable(near, far, coalition, i) {
            seq![(i as usize, is_usable(near, far, coalition, i))]
        } else {
            Seq::empty()
        };
    let h = |i: int|
        if p(i) {
            seq![g(i)]
        } else {
            Seq::empty()
        };
    crate::lists::gather_same(n, f, h);
    assert forall|i: int| 0 <= i < before.len() && #[trigger] before[i] != open(
        i,
    ) implies list.contains((i as usize, open(i))) by {
        assert(p(i));
        assert(list[count_where(i, p) as int] == g(i));
    }
    assert forall|q: int| 0 <= q < list.len() implies {
        let (i, b) = #[trigger] list[q];
        i < before.len() && before[i as int] != open(i as int) && b == open(i as int)
    } by {
        let i = crate::lists::nth_place(n, p, q);
        assert(p(i));
    }
    assert forall|a: int, b: int| 0 <= a < b < list.len() implies (#[trigger] list[a]).0 < (
    #[trigger] list[b]).0 by {
        let i = crate::lists::nth_place(n, p, a);
        let j = crate::lists::nth_place(n, p, b);
        assert(p(i) && p(j));
        if j <= i {
            count_grows(j, i, p, p);
        }
    }
}

/// A value counts just where there is one and it is a number that is not infinite.
pub proof fn finite_values_count(value: Option<Real>)
    ensures
        is_counted(value) <==> value is Some && (value->0.bits / 0x10_0000_0000_0000) % 2048 != 2047,
{
}

/// A coalition is worth what it saves: where one comes out at a lower cost than another, it
/// is worth more. Only where the solver found the least cost is there any worth.
pub proof fn lower_costs_are_worth_more(status: ModelStatus, a: Real, b: Real)
    ensures
        worth_shown(status, a) is Some <==> status is Optimal,
        status is Optimal && a.less_than(b) ==> worth_shown(status, b)->0.less_than(
            worth_shown(status, a)->0,
        ),
        status is Optimal ==> worth_shown(status, a)->0.turned() == a,
{
    crate::statements::numbers::turning_round(a, b);
}

/// What a player adds is summed up over the coalitions that hold the player, each once, in
/// order, against the same coalition without the player.
pub proof fn additions_come_in_order(n: int, k: int, i: int, j: int)
    requires
        0 <= k < n <= 20,
        0 <= i < marginals_of(n, k).len(),
        0 <= j < marginals_of(n, k).len(),
    ensures
        ({
            let list = marginals_of(n, k);
            &&& has(list[i].with as u32, k)
            &&& list[i].without == list[i].with - (1u32 << (k as u32))
            &&& i < j ==> list[i].with < list[j].with
        }),
{
    let f = |s: int| marginal_of(n, k, s);
    let key = |m: Marginal| m.with as int;
    let top = pow2(n as nat) as int;
    crate::shapley::pow2_of_20(n);
    in_order(top, f, key, i, j);
    let (s, e) = gather_member(top, f, i);
    assert(f(s).len() <= 1);
    bit_is_member(s as u32, k);
    crate::games::leaving(s, k);
}

/// The parts of a coalition that may be up come from the whole down to the empty one, each
/// once, of those whose value counts.
pub proof fn outages_come_from_the_whole_down(
    values: Seq<Option<Real>>,
    s: int,
    i: int,
    j: int,
)
    requires
        0 <= s < values.len() <= 0x10_0000,
        0 <= i < outages_of(values, s).len(),
        0 <= j < outages_of(values, s).len(),
    ensures
        ({
            let list = outages_of(values, s);
            &&& 0 <= list[i].coalition <= s
            &&& values[list[i].coalition as int] is Some
            &&& values[list[i].coalition as int]->0.finite()
            &&& i < j ==> list[i].coalition > list[j].coalition
        }),
{
    let f = |i: int| outage_of(values, s, s - i);
    let key = |o: Outage| s - o.coalition;
    in_order(s + 1, f, key, i, j);
    let (t, e) = gather_member(s + 1, f, i);
    assert(f(t).len() <= 1);
}

/// Pieces of one member at most, each with the place of its piece for a key, are gathered in
/// the order of their keys.
proof fn in_order<T>(n: int, f: spec_fn(int) -> Seq<T>, key: spec_fn(T) -> int, i: int, j: int)
    requires
        forall|s: int|
            0 <= s < n ==> (#[trigger] f(s)).len() <= 1 && (f(s).len() == 1 ==> key(f(s)[0]) == s),
        0 <= i < gather(n, f).len(),
        0 <= j < gather(n, f).len(),
    ensures
        0 <= key(gather(n, f)[i]) < n,
        i < j ==> key(gather(n, f)[i]) < key(gather(n, f)[j]),
    decreases n,
{
    if n > 0 {
        let before = gather(n - 1, f);
        assert(f(n - 1).len() <= 1);
        if i < before.len() {
            in_order(n - 1, f, key, i, if j < before.len() { j } else { i });
        }
    }
}

proof fn bit_is_member(s: u32, k: int)
    requires
        0 <= k < 32,
    ensures
        has(s, k) == is_member(s as int, k),
        pow2(k as nat) == (1u32 << (k as u32)),
{
    let b = k as u32;
    assert((s & (1u32 << b) != 0) == ((s >> b) % 2 == 1)) by (bit_vector)
        requires
            b < 32,
    ;
    vstd::bits::lemma_u32_shr_is_div(s, b);
    vstd::bits::lemma_u32_pow2_no_overflow(b as nat);
    vstd::bits::lemma_u32_shl_is_mul(1, b);
}

} // verus!
