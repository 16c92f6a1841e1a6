//! What the linear program of a coalition means: routings over the edges at the
//! coalition's disposal, whatever else the network holds.
use crate::consolidation::links::{kinds_of, used_ids};
use crate::multicast::group_column;
use crate::games::{sum, sum_zero};
use crate::lists::{
    count_bound, count_grows, count_where, gather, gather_chosen, gather_holds, gather_member,
    gather_same, gather_singles, nth_place, sorted_ids, sorted_ids_exist,
};
use crate::lp_builder::{
    as_shares, balance, balance_part, balance_row, band_rows, bandwidth_cols, bandwidth_column,
    column_operators, commodities_of, diagonal, equality_cols, equality_column, flags_of,
    flat_index, flow_columns, gather_len, group_opener, group_openers, groups_of, heard_before,
    incidence, inequality_cols, inner, is_heard, is_multicast, is_open_to, is_plain, is_public,
    is_trunk, keep_exists, keep_list, kept_len, lowered, max_shared, max_shared_bounds, mentioned,
    multicast_types, node_names, open_columns, opens_group, operators_len, private_count,
    program_fits_together, row_operators, single_cols, sizes_fit, tie_entries, tie_rows, ties,
    trunk_column, trunk_columns, trunks, trunks_are_edges, LpBuilderOutput, Share, Term,
};
use crate::lp_meaning::{
    at_places, dot, expense, idle_dot, is_pinned_point, is_point, narrowed_dot,
    pinning_keeps_all_rows, share_weight, spread, spreading_keeps_the_cost, whole_weight,
};
use crate::quantity::Real;
use crate::reuse::{first_with, masks_of, opener_once};
use crate::shapley::mask_of;
use crate::solver::{
    belongs, is_usable, narrowed, part_entry, part_of_row, row_of, rows_name_columns, usable_list,
    CoalitionProgram, PrecomputedRows,
};
use crate::sparse::{placed, shifted, slot, slot_bounds};
use crate::text::{lex_less, lex_less_irreflexive, place, place_found, sorted_list_exists, views};
use crate::types::{EdgeRow, FlowRow};
use crate::warm::{
    all_heard, band_entry, band_row_operators, column_edge, column_has_operators,
    dropped_rows_are_idle, every_row_has_operators, groups_numbered, no_group_without_private,
    placed_entry, private_first, table_place, tie_row_operators,
};
use vstd::prelude::*;

verus! {

/// The edge is at the coalition's disposal.
pub open spec fn is_own(edge: EdgeRow, players: Seq<Seq<char>>, coalition: u32) -> bool {
    belongs(mask_of(edge.operator1, players), coalition) && belongs(
        mask_of(edge.operator2, players),
        coalition,
    )
}

/// The edges at the coalition's disposal, in order.
pub open spec fn own_edges(edges: Seq<EdgeRow>, players: Seq<Seq<char>>, coalition: u32) -> Seq<
    EdgeRow,
> {
    gather(
        edges.len() as int,
        |i: int|
            if is_own(edges[i], players, coalition) {
                seq![edges[i]]
            } else {
                Seq::empty()
            },
    )
}

/// What a column of a coalition's linear program stands for: the flow of a commodity
/// over an edge, or what a trunk carries for a multicast group.
pub enum Lane {
    Flow { commodity: int, edge: int },
    Trunk { group: int, trunk: int },
}

/// The columns over given edges: for each commodity the edges open to it, then for each
/// multicast group the trunks.
pub open spec fn lanes_of(own: Seq<EdgeRow>, flows: Seq<FlowRow>) -> Seq<Lane> {
    let commodities = commodities_of(flows);
    gather(
        commodities.len() as int,
        |k: int|
            gather(
                own.len() as int,
                |j: int|
                    if is_open_to(own[j], commodities[k]) {
                        seq![Lane::Flow { commodity: k, edge: j }]
                    } else {
                        Seq::empty()
                    },
            ),
    ) + gather(
        groups_of(flows).len() as int,
        |g: int|
            gather(
                trunks(own).len() as int,
                |t: int| seq![Lane::Trunk { group: g, trunk: t }],
            ),
    )
}

/// One where the condition holds.
pub open spec fn unit(condition: bool) -> real {
    if condition {
        1real
    } else {
        0real
    }
}

/// What a lane adds to the balance of a commodity at a node: a unit that leaves, less a
/// unit that arrives.
pub open spec fn net_coefficient(
    own: Seq<EdgeRow>,
    lane: Lane,
    commodity: int,
    node: Seq<char>,
) -> real {
    match lane {
        Lane::Flow { commodity: k, edge: j } => if k == commodity {
            unit(own[j].device1 == node) - unit(own[j].device2 == node)
        } else {
            0real
        },
        Lane::Trunk { .. } => 0real,
    }
}

/// What a lane adds to the load of a bandwidth group: a multicast commodity counts on
/// plain edges, any other on private ones, and what trunks carry counts on the trunks.
pub open spec fn load_coefficient(
    own: Seq<EdgeRow>,
    flows: Seq<FlowRow>,
    lane: Lane,
    group: u32,
) -> real {
    match lane {
        Lane::Flow { commodity: k, edge: j } => unit(
            own[j].shared == group && if is_multicast(flows, commodities_of(flows)[k]) {
                is_plain(own[j])
            } else {
                !is_public(own[j])
            },
        ),
        Lane::Trunk { group: _, trunk: t } => unit(
            own[trunks(own)[t] as int].shared == group,
        ),
    }
}

/// What a lane adds to the tie of a multicast flow on a trunk: the flow over its
/// receivers, less what the trunk carries.
pub open spec fn tie_coefficient(
    own: Seq<EdgeRow>,
    flows: Seq<FlowRow>,
    lane: Lane,
    d: int,
    trunk: int,
) -> real {
    match lane {
        Lane::Flow { commodity: k, edge: j } => if k == commodities_of(flows).index_of(
            flows[d].kind,
        ) && j == trunks(own)[trunk] {
            1real / flows[d].receivers as real
        } else {
            0real
        },
        Lane::Trunk { group: g, trunk: t } => -unit(
            g == groups_of(flows).index_of(flows[d].original) && t == trunk,
        ),
    }
}

/// What lanes come to, each weighed by a coefficient, at a point.
pub open spec fn lane_total(lanes: Seq<Lane>, c: spec_fn(Lane) -> real, y: Seq<real>) -> real {
    expense(Seq::new(lanes.len(), |q: int| c(lanes[q])), y, lanes.len() as int)
}

/// What the flows of a commodity bring to a node: what starts there, less what ends
/// there. `amount(d)` is how much flow `d` carries.
pub open spec fn supply(
    flows: Seq<FlowRow>,
    amount: spec_fn(int) -> real,
    commodity: int,
    node: Seq<char>,
) -> real {
    sum(
        flows.len() as int,
        |d: int|
            if commodities_of(flows).index_of(flows[d].kind) == commodity {
                amount(d) * (unit(flows[d].start == node) - unit(flows[d].end == node))
            } else {
                0real
            },
    )
}

/// Edge `j` is the first of its bandwidth group.
pub open spec fn opens_own_group(own: Seq<EdgeRow>, j: int) -> bool {
    &&& 0 <= j < own.len()
    &&& own[j].shared > 0
    &&& forall|i: int| 0 <= i < j ==> (#[trigger] own[i]).shared != own[j].shared
}

/// The bandwidth groups in which a coalition is limited: those whose first edge in the
/// whole network is at its disposal.
pub open spec fn led_groups(
    edges: Seq<EdgeRow>,
    players: Seq<Seq<char>>,
    coalition: u32,
) -> spec_fn(u32) -> bool {
    |id: u32|
        exists|x: int| #[trigger]
            opens_group(edges, id, x) && is_own(edges[x], players, coalition)
}

/// The limits that a coalition is under by its own linear program: in each group whose
/// first edge is at its disposal, the bandwidth of that edge.
pub open spec fn own_limits(
    edges: Seq<EdgeRow>,
    players: Seq<Seq<char>>,
    coalition: u32,
) -> spec_fn(u32) -> Option<Real> {
    |id: u32|
        if led_groups(edges, players, coalition)(id) {
            Some(group_opener(edges, id).bandwidth)
        } else {
            None
        }
}

/// The limits of the whole network: in each group the bandwidth of its first edge.
pub open spec fn all_limits(edges: Seq<EdgeRow>) -> spec_fn(u32) -> Option<Real> {
    |id: u32| Some(group_opener(edges, id).bandwidth)
}

/// A point is a routing: nothing is below zero, every commodity balances at every node,
/// no bandwidth group carries more than its limit, and on every trunk each multicast flow
/// fits into what the trunk carries. `bound(id)` is the limit of group `id`, if there is
/// one; `worth(b)` is the number that `b` stands for.
pub open spec fn is_routing(
    own: Seq<EdgeRow>,
    bound: spec_fn(u32) -> Option<Real>,
    flows: Seq<FlowRow>,
    amount: spec_fn(int) -> real,
    worth: spec_fn(Real) -> real,
    y: Seq<real>,
) -> bool {
    let lanes = lanes_of(own, flows);
    &&& y.len() == lanes.len()
    &&& forall|q: int| 0 <= q < y.len() ==> #[trigger] y[q] >= 0real
    &&& forall|k: int, v: Seq<char>|
        0 <= k < commodities_of(flows).len() ==> #[trigger] balances(own, flows, amount, y, k, v)
    &&& forall|j: int|
        #[trigger] opens_own_group(own, j) ==> keeps_to(
            own,
            flows,
            worth,
            y,
            own[j].shared,
            bound(own[j].shared),
        )
    &&& forall|d: int, t: int|
        0 <= d < flows.len() && is_heard(flows[d]) && 0 <= t < trunks(own).len()
            ==> #[trigger] holds_tie(own, flows, worth, y, d, t)
}

/// What the edges of a bandwidth group carry stays within the limit, if there is one.
pub open spec fn keeps_to(
    own: Seq<EdgeRow>,
    flows: Seq<FlowRow>,
    worth: spec_fn(Real) -> real,
    y: Seq<real>,
    id: u32,
    bound: Option<Real>,
) -> bool {
    bound is Some ==> lane_total(
        lanes_of(own, flows),
        |lane: Lane| load_coefficient(own, flows, lane, id),
        y,
    ) <= worth(bound->0)
}

/// A commodity balances at a node.
pub open spec fn balances(
    own: Seq<EdgeRow>,
    flows: Seq<FlowRow>,
    amount: spec_fn(int) -> real,
    y: Seq<real>,
    k: int,
    v: Seq<char>,
) -> bool {
    lane_total(lanes_of(own, flows), |lane: Lane| net_coefficient(own, lane, k, v), y) == supply(
        flows,
        amount,
        k,
        v,
    )
}

/// A multicast flow fits into what a trunk carries.
pub open spec fn holds_tie(
    own: Seq<EdgeRow>,
    flows: Seq<FlowRow>,
    worth: spec_fn(Real) -> real,
    y: Seq<real>,
    d: int,
    t: int,
) -> bool {
    lane_total(lanes_of(own, flows), |lane: Lane| tie_coefficient(own, flows, lane, d, t), y)
        <= worth(Real { bits: 0 })
}

/// The sum of the entries of a column in row `r`, each weighed by `w`.
pub open spec fn column_sum<T>(col: Seq<(usize, T)>, r: int, w: spec_fn(T) -> real) -> real
    decreases col.len(),
{
    if col.len() == 0 {
        0real
    } else {
        column_sum(col.drop_last(), r, w) + if col.last().0 == r {
            w(col.last().1)
        } else {
            0real
        }
    }
}

/// Rows one after the other add up to their sums.
proof fn dot_of_two<T>(
    a: Seq<(usize, T)>,
    b: Seq<(usize, T)>,
    w: spec_fn(T) -> real,
    x: Seq<real>,
)
    ensures
        dot(a + b, w, x) == dot(a, w, x) + dot(b, w, x),
    decreases b.len(),
{
    if b.len() == 0 {
        assert(a + b =~= a);
    } else {
        dot_of_two(a, b.drop_last(), w, x);
        assert((a + b).drop_last() =~= a + b.drop_last());
        assert((a + b).last() == b.last());
    }
}

/// The entries of a row in one column add up to their sum times the column's value.
proof fn dot_of_part<T>(
    col: Seq<(usize, T)>,
    r: int,
    j: int,
    k: int,
    w: spec_fn(T) -> real,
    x: Seq<real>,
)
    requires
        0 <= k <= col.len(),
        0 <= j <= usize::MAX,
    ensures
        dot(part_of_row(col, r, j, k), w, x) == column_sum(col.take(k), r, w) * x[j],
    decreases k,
{
    let value = x[j];
    if k == 0 {
        assert(part_of_row(col, r, j, 0).len() == 0);
        assert(0real * value == 0real) by (nonlinear_arith);
    } else {
        dot_of_part(col, r, j, k - 1, w, x);
        let front = part_of_row(col, r, j, k - 1);
        let (row, entry) = col[k - 1];
        assert(part_of_row(col, r, j, k) == front + if row == r {
            seq![(j as usize, entry)]
        } else {
            Seq::empty()
        });
        assert(col.take(k).drop_last() =~= col.take(k - 1));
        assert(col.take(k).last() == col[k - 1]);
        let s = column_sum(col.take(k - 1), r, w);
        if row == r {
            let one = seq![(j as usize, entry)];
            dot_of_two(front, one, w, x);
            assert(one.drop_last() =~= Seq::<(usize, T)>::empty());
            assert(dot(one, w, x) == w(entry) * value) by {
                reveal_with_fuel(dot, 2);
            }
            let c = w(entry);
            assert((s + c) * value == s * value + c * value) by (nonlinear_arith);
        } else {
            assert(front + Seq::<(usize, T)>::empty() =~= front);
            assert(s + 0real == s);
        }
    }
}

/// The sums of the columns in row `r`.
pub open spec fn row_sums<T>(cols: Seq<Seq<(usize, T)>>, r: int, w: spec_fn(T) -> real) -> Seq<
    real,
> {
    Seq::new(cols.len(), |c: int| column_sum(cols[c], r, w))
}

/// A row adds up column by column.
proof fn dot_by_columns<T>(
    cols: Seq<Seq<(usize, T)>>,
    r: int,
    n: int,
    w: spec_fn(T) -> real,
    x: Seq<real>,
)
    requires
        0 <= n <= cols.len() <= usize::MAX,
    ensures
        dot(row_of(cols, r, n), w, x) == expense(row_sums(cols, r, w), x, n),
    decreases n,
{
    if n > 0 {
        dot_by_columns(cols, r, n - 1, w, x);
        let col = cols[n - 1];
        let part = part_of_row(col, r, n - 1, col.len() as int);
        assert(row_of(cols, r, n) == row_of(cols, r, n - 1) + part);
        dot_of_two(row_of(cols, r, n - 1), part, w, x);
        dot_of_part(col, r, n - 1, col.len() as int, w, x);
        assert(col.take(col.len() as int) =~= col);
    }
}

/// A row narrowed to a coalition adds up over the coalition's columns.
proof fn narrowed_by_columns<T>(
    cols: Seq<Seq<(usize, T)>>,
    r: int,
    w: spec_fn(T) -> real,
    near: Seq<u32>,
    far: Seq<u32>,
    coalition: u32,
    y: Seq<real>,
)
    requires
        cols.len() == near.len(),
        near.len() <= usize::MAX,
        y.len() == usable_list(near, far, coalition).len(),
    ensures
        dot(narrowed(row_of(cols, r, cols.len() as int), near, far, coalition), w, y) == expense(
            at_places(row_sums(cols, r, w), usable_list(near, far, coalition)),
            y,
            y.len() as int,
        ),
{
    let n = cols.len() as int;
    let row = row_of(cols, r, n);
    let x = spread(near, far, coalition, y);
    assert forall|i: int| 0 <= i < row.len() implies (#[trigger] row[i]).0 < near.len() by {
        let f = |j: int| part_of_row(cols[j], r, j, cols[j].len() as int);
        let (j, m) = gather_member(n, f, i);
        let at = part_entry(cols[j], r, j, cols[j].len() as int, m);
    }
    narrowed_dot(row, w, near, far, coalition, y, row.len() as int);
    assert(row.take(row.len() as int) =~= row);
    dot_by_columns(cols, r, n, w, x);
    spreading_keeps_the_cost(near, far, coalition, row_sums(cols, r, w), y);
}

/// What is gathered from the members of what is gathered.
proof fn gather_through<A, B>(n: int, f: spec_fn(int) -> Seq<A>, h: spec_fn(A) -> Seq<B>)
    requires
        n >= 0,
    ensures
        gather(gather(n, f).len() as int, |q: int| h(gather(n, f)[q])) == gather(
            n,
            |i: int| gather(f(i).len() as int, |z: int| h(f(i)[z])),
        ),
    decreases n,
{
    let all = gather(n, f);
    let outer = |q: int| h(all[q]);
    let pieces = |i: int| gather(f(i).len() as int, |z: int| h(f(i)[z]));
    if n > 0 {
        gather_through(n - 1, f, h);
        let head = gather(n - 1, f);
        let last = f(n - 1);
        let a = |q: int| h(head[q]);
        let b = |z: int| h(last[z]);
        assert(all == head + last);
        gather_same(head.len() as int, outer, a);
        gather_on(head.len() as int, last.len() as int, outer, b);
        let c = |z: int| h(f(n - 1)[z]);
        gather_same(last.len() as int, b, c);
        assert(pieces(n - 1) == gather(last.len() as int, c));
    }
}

/// What is gathered in two parts.
proof fn gather_on<T>(m: int, n: int, f: spec_fn(int) -> Seq<T>, g: spec_fn(int) -> Seq<T>)
    requires
        0 <= m,
        0 <= n,
        forall|z: int| 0 <= z < n ==> #[trigger] g(z) == f(m + z),
    ensures
        gather(m + n, f) == gather(m, f) + gather(n, g),
    decreases n,
{
    if n == 0 {
        assert(gather(m, f) + gather(0, g) =~= gather(m, f));
    } else {
        gather_on(m, n - 1, f, g);
        assert(g(n - 1) == f(m + (n - 1)));
        assert(gather(m + n, f) == gather(m + n - 1, f) + f(m + n - 1));
        assert(gather(m, f) + gather(n, g) =~= (gather(m, f) + gather(n - 1, g)) + g(n - 1));
    }
}

/// A list of some positions' values: its length, and where each stands.
pub proof fn chosen_list<T>(n: int, p: spec_fn(int) -> bool, g: spec_fn(int) -> T)
    requires
        0 <= n,
    ensures
        ({
            let list = gather(
                n,
                |i: int|
                    if p(i) {
                        seq![g(i)]
                    } else {
                        Seq::empty()
                    },
            );
            &&& list.len() == count_where(n, p)
            &&& forall|i: int|
                0 <= i < n && #[trigger] p(i) ==> count_where(i, p) < list.len()
                    && list[count_where(i, p) as int] == g(i)
        }),
    decreases n,
{
    let f = |i: int|
        if p(i) {
            seq![g(i)]
        } else {
            Seq::empty()
        };
    if n > 0 {
        chosen_list(n - 1, p, g);
        let front = gather(n - 1, f);
        let list = gather(n, f);
        assert forall|i: int| 0 <= i < n && #[trigger] p(i) implies count_where(i, p) < list.len()
            && list[count_where(i, p) as int] == g(i) by {
            if i < n - 1 {
                assert(front[count_where(i, p) as int] == g(i));
            }
        }
    }
}

/// Members mapped one by one are the pieces mapped.
proof fn gather_mapped<A, B>(n: int, f: spec_fn(int) -> Seq<A>, g: spec_fn(A) -> B)
    requires
        0 <= n,
    ensures
        Seq::new(gather(n, f).len(), |q: int| g(gather(n, f)[q])) == gather(
            n,
            |i: int| Seq::new(f(i).len(), |z: int| g(f(i)[z])),
        ),
    decreases n,
{
    let pieces = |i: int| Seq::new(f(i).len(), |z: int| g(f(i)[z]));
    let all = gather(n, f);
    if n > 0 {
        gather_mapped(n - 1, f, g);
        let head = gather(n - 1, f);
        let before = Seq::new(head.len(), |q: int| g(head[q]));
        assert(Seq::new(all.len(), |q: int| g(all[q])) =~= before + pieces(n - 1));
    } else {
        assert(Seq::new(all.len(), |q: int| g(all[q])) =~= gather(n, pieces));
    }
}

/// A table gathered place by place is gathered row by row.
proof fn gather_table<T>(k: int, n: int, f: spec_fn(int) -> Seq<T>)
    requires
        0 <= k,
        0 <= n,
    ensures
        gather(k * n, f) == gather(k, |b: int| gather(n, |i: int| f(b * n + i))),
    decreases k,
{
    let rows = |b: int| gather(n, |i: int| f(b * n + i));
    if k == 0 {
        assert(0 * n == 0) by (nonlinear_arith);
    } else {
        gather_table(k - 1, n, f);
        assert(k * n == (k - 1) * n + n) by (nonlinear_arith);
        assert((k - 1) * n >= 0) by (nonlinear_arith)
            requires
                k >= 1,
                n >= 0,
        ;
        gather_on((k - 1) * n, n, f, |i: int| f((k - 1) * n + i));
    }
}

/// The edge is at the coalition's disposal, by its place.
pub open spec fn own_at(
    edges: Seq<EdgeRow>,
    players: Seq<Seq<char>>,
    coalition: u32,
) -> spec_fn(int) -> bool {
    |i: int| is_own(edges[i], players, coalition)
}

/// The trunk is at the coalition's disposal, by its place among the trunks.
pub open spec fn own_trunk_at(
    edges: Seq<EdgeRow>,
    players: Seq<Seq<char>>,
    coalition: u32,
) -> spec_fn(int) -> bool {
    |e: int| is_own(edges[trunks(edges)[e] as int], players, coalition)
}

/// Edges keep their order among those at the coalition's disposal.
pub proof fn own_places(edges: Seq<EdgeRow>, players: Seq<Seq<char>>, coalition: u32)
    ensures
        ({
            let own = own_edges(edges, players, coalition);
            let p = own_at(edges, players, coalition);
            &&& own.len() == count_where(edges.len() as int, p)
            &&& forall|i: int|
                0 <= i < edges.len() && #[trigger] p(i) ==> count_where(i, p) < own.len()
                    && own[count_where(i, p) as int] == edges[i]
        }),
{
    let p = own_at(edges, players, coalition);
    let f = |i: int|
        if is_own(edges[i], players, coalition) {
            seq![edges[i]]
        } else {
            Seq::empty()
        };
    let g = |i: int|
        if p(i) {
            seq![edges[i]]
        } else {
            Seq::empty()
        };
    gather_same(edges.len() as int, f, g);
    gather_chosen::<EdgeRow, EdgeRow>(edges, edges.len() as int, p, |j: int, e: EdgeRow| seq![e]);
}

/// The trunks at the coalition's disposal are those of its edges, in order.
pub proof fn own_trunks(edges: Seq<EdgeRow>, players: Seq<Seq<char>>, coalition: u32)
    requires
        edges.len() <= usize::MAX,
    ensures
        ({
            let own = own_edges(edges, players, coalition);
            let p = own_at(edges, players, coalition);
            let tp = own_trunk_at(edges, players, coalition);
            &&& trunks(own).len() == count_where(trunks(edges).len() as int, tp)
            &&& forall|e: int|
                0 <= e < trunks(edges).len() && #[trigger] tp(e) ==> count_where(e, tp) < trunks(
                    own,
                ).len() && trunks(own)[count_where(e, tp) as int] == count_where(
                    trunks(edges)[e] as int,
                    p,
                )
        }),
{
    let n = edges.len() as int;
    let p = own_at(edges, players, coalition);
    let tp = own_trunk_at(edges, players, coalition);
    let own = own_edges(edges, players, coalition);
    let all = trunks(edges);
    own_places(edges, players, coalition);
    trunks_are_edges(edges);
    // The trunks of the coalition's edges, gathered over all edges.
    let h = |j: int, e: EdgeRow|
        if is_trunk(e) {
            seq![j as usize]
        } else {
            Seq::empty()
        };
    gather_chosen(edges, n, p, h);
    let chosen = |i: int|
        if p(i) {
            seq![edges[i]]
        } else {
            Seq::empty()
        };
    let given = |i: int|
        if is_own(edges[i], players, coalition) {
            seq![edges[i]]
        } else {
            Seq::empty()
        };
    gather_same(n, chosen, given);
    let by_own = |j: int| h(j, own[j]);
    let listed = |j: int|
        if is_trunk(own[j]) {
            seq![j as usize]
        } else {
            Seq::empty()
        };
    gather_same(own.len() as int, by_own, listed);
    // The same, gathered over the trunks of all edges.
    let f = |i: int|
        if is_trunk(edges[i]) {
            seq![i as usize]
        } else {
            Seq::empty()
        };
    let rank = |i: usize|
        if p(i as int) {
            seq![count_where(i as int, p) as usize]
        } else {
            Seq::empty()
        };
    gather_through(n, f, rank);
    let over_edges = |i: int|
        if p(i) {
            h(count_where(i, p) as int, edges[i])
        } else {
            Seq::empty()
        };
    let nested = |i: int| gather(f(i).len() as int, |z: int| rank(f(i)[z]));
    assert forall|i: int| 0 <= i < n implies #[trigger] nested(i) == over_edges(i) by {
        let inner = |z: int| rank(f(i)[z]);
        if is_trunk(edges[i]) {
            assert(f(i).len() == 1 && f(i)[0] == i);
            assert(gather(1, inner) =~= inner(0)) by {
                reveal_with_fuel(gather, 2);
            }
        } else {
            assert(gather(0, inner) =~= Seq::<usize>::empty());
        }
    }
    gather_same(n, nested, over_edges);
    let by_trunk = |e: int| rank(all[e]);
    let g = |e: int| count_where(all[e] as int, p) as usize;
    let picked = |e: int|
        if tp(e) {
            seq![g(e)]
        } else {
            Seq::empty()
        };
    gather_same(all.len() as int, by_trunk, picked);
    chosen_list(all.len() as int, tp, g);
    assert(trunks(own) == gather(all.len() as int, picked));
    assert forall|e: int| 0 <= e < all.len() && #[trigger] tp(e) implies count_where(e, tp)
        < trunks(own).len() && trunks(own)[count_where(e, tp) as int] == count_where(
        all[e] as int,
        p,
    ) by {
        assert(all[e] < n);
        count_bound(all[e] as int, p);
    }
}

/// The lane of a column of the whole network.
pub open spec fn lane_at(
    edges: Seq<EdgeRow>,
    flows: Seq<FlowRow>,
    players: Seq<Seq<char>>,
    coalition: u32,
    c: int,
) -> Lane {
    let n = edges.len() as int;
    let t = trunks(edges).len() as int;
    if c < flow_columns(edges, flows) {
        Lane::Flow {
            commodity: c / n,
            edge: count_where(c % n, own_at(edges, players, coalition)) as int,
        }
    } else {
        let z = c - flow_columns(edges, flows);
        Lane::Trunk {
            group: z / t,
            trunk: count_where(z % t, own_trunk_at(edges, players, coalition)) as int,
        }
    }
}

/// The lane of a column, where its edge is at the coalition's disposal.
spec fn lane_piece(
    edges: Seq<EdgeRow>,
    flows: Seq<FlowRow>,
    players: Seq<Seq<char>>,
    coalition: u32,
) -> spec_fn(usize) -> Seq<Lane> {
    |c: usize|
        if is_own(edges[column_edge(edges, flows, c as int)], players, coalition) {
            seq![lane_at(edges, flows, players, coalition, c as int)]
        } else {
            Seq::empty()
        }
}

/// The lanes of the columns that carry flows.
proof fn flow_lanes(
    edges: Seq<EdgeRow>,
    flows: Seq<FlowRow>,
    players: Seq<Seq<char>>,
    coalition: u32,
)
    requires
        sizes_fit(edges, flows),
        edges.len() <= usize::MAX,
    ensures
        ({
            let open = open_columns(edges, commodities_of(flows));
            let h = lane_piece(edges, flows, players, coalition);
            let own = own_edges(edges, players, coalition);
            let commodities = commodities_of(flows);
            gather(open.len() as int, |q: int| h(open[q])) == gather(
                commodities.len() as int,
                |k: int|
                    gather(
                        own.len() as int,
                        |j: int|
                            if is_open_to(own[j], commodities[k]) {
                                seq![Lane::Flow { commodity: k, edge: j }]
                            } else {
                                Seq::empty()
                            },
                    ),
            )
        }),
{
    let n = edges.len() as int;
    let commodities = commodities_of(flows);
    let kk = commodities.len() as int;
    let h = lane_piece(edges, flows, players, coalition);
    let own = own_edges(edges, players, coalition);
    let p = own_at(edges, players, coalition);
    let total = flow_columns(edges, flows);
    let t = trunks(edges).len() as int;
    assert(trunk_columns(edges, flows) >= 0) by (nonlinear_arith)
        requires
            trunk_columns(edges, flows) == groups_of(flows).len() * t,
            t >= 0,
    ;
    let by_kind = |k: int|
        gather(
            n,
            |i: int|
                if is_open_to(edges[i], commodities[k]) {
                    seq![(i + k * edges.len()) as usize]
                } else {
                    Seq::empty()
                },
        );
    gather_through(kk, by_kind, h);
    let nested = |k: int| gather(by_kind(k).len() as int, |z: int| h(by_kind(k)[z]));
    let wanted = |k: int|
        gather(
            own.len() as int,
            |j: int|
                if is_open_to(own[j], commodities[k]) {
                    seq![Lane::Flow { commodity: k, edge: j }]
                } else {
                    Seq::empty()
                },
        );
    assert forall|k: int| 0 <= k < kk implies #[trigger] nested(k) == wanted(k) by {
        let f = |i: int|
            if is_open_to(edges[i], commodities[k]) {
                seq![(i + k * edges.len()) as usize]
            } else {
                Seq::empty()
            };
        assert(by_kind(k) == gather(n, f));
        gather_through(n, f, h);
        let deep = |i: int| gather(f(i).len() as int, |z: int| h(f(i)[z]));
        let hh = |j: int, e: EdgeRow|
            if is_open_to(e, commodities[k]) {
                seq![Lane::Flow { commodity: k, edge: j }]
            } else {
                Seq::empty()
            };
        let flat = |i: int|
            if p(i) {
                hh(count_where(i, p) as int, edges[i])
            } else {
                Seq::empty()
            };
        assert forall|i: int| 0 <= i < n implies #[trigger] deep(i) == flat(i) by {
            let inner = |z: int| h(f(i)[z]);
            if is_open_to(edges[i], commodities[k]) {
                flat_index(k, i, kk, n);
                let c = i + k * edges.len();
                assert(c == k * n + i);
                assert(c < total);
                vstd::arithmetic::div_mod::lemma_fundamental_div_mod_converse(c, n, k, i);
                assert(f(i).len() == 1 && f(i)[0] == c);
                assert(gather(1, inner) =~= inner(0)) by {
                    reveal_with_fuel(gather, 2);
                }
                assert(column_edge(edges, flows, c) == i);
            } else {
                assert(gather(0, inner) =~= Seq::<Lane>::empty());
            }
        }
        gather_same(n, deep, flat);
        let through = |q: int| h(gather(n, f)[q]);
        let same = |z: int| h(by_kind(k)[z]);
        gather_same(by_kind(k).len() as int, same, through);
        gather_chosen(edges, n, p, hh);
        let chosen = |i: int|
            if p(i) {
                seq![edges[i]]
            } else {
                Seq::empty()
            };
        let given = |i: int|
            if is_own(edges[i], players, coalition) {
                seq![edges[i]]
            } else {
                Seq::empty()
            };
        gather_same(n, chosen, given);
        let by_own = |j: int| hh(j, own[j]);
        let listed = |j: int|
            if is_open_to(own[j], commodities[k]) {
                seq![Lane::Flow { commodity: k, edge: j }]
            } else {
                Seq::empty()
            };
        gather_same(own.len() as int, by_own, listed);
    }
    gather_same(kk, nested, wanted);
    let open = open_columns(edges, commodities);
    assert(open == gather(kk, by_kind));
    let direct = |q: int| h(open[q]);
    let through = |q: int| h(gather(kk, by_kind)[q]);
    gather_same(open.len() as int, direct, through);
}

/// The lanes of the columns that stand for trunks.
proof fn trunk_lanes(
    edges: Seq<EdgeRow>,
    flows: Seq<FlowRow>,
    players: Seq<Seq<char>>,
    coalition: u32,
)
    requires
        sizes_fit(edges, flows),
        edges.len() <= usize::MAX,
    ensures
        ({
            let h = lane_piece(edges, flows, players, coalition);
            let own = own_edges(edges, players, coalition);
            let all = flow_columns(edges, flows);
            gather(trunk_columns(edges, flows), |z: int| h((all + z) as usize)) == gather(
                groups_of(flows).len() as int,
                |g: int|
                    gather(
                        trunks(own).len() as int,
                        |t: int| seq![Lane::Trunk { group: g, trunk: t }],
                    ),
            )
        }),
{
    let h = lane_piece(edges, flows, players, coalition);
    let own = own_edges(edges, players, coalition);
    let all = flow_columns(edges, flows);
    let gg = groups_of(flows).len() as int;
    let t = trunks(edges).len() as int;
    let tp = own_trunk_at(edges, players, coalition);
    let f = |z: int| h((all + z) as usize);
    assert(all >= 0) by (nonlinear_arith)
        requires
            all == commodities_of(flows).len() * edges.len() as int,
    ;
    own_trunks(edges, players, coalition);
    gather_table(gg, t, f);
    let rows = |g: int| gather(t, |e: int| f(g * t + e));
    let wanted = |g: int|
        gather(trunks(own).len() as int, |t: int| seq![Lane::Trunk { group: g, trunk: t }]);
    assert forall|g: int| 0 <= g < gg implies #[trigger] rows(g) == wanted(g) by {
        let row = |e: int| f(g * t + e);
        let lane = |e: int| Lane::Trunk { group: g, trunk: count_where(e, tp) as int };
        let chosen = |e: int|
            if tp(e) {
                seq![lane(e)]
            } else {
                Seq::empty()
            };
        assert forall|e: int| 0 <= e < t implies #[trigger] row(e) == chosen(e) by {
            flat_index(g, e, gg, t);
            let z = g * t + e;
            vstd::arithmetic::div_mod::lemma_fundamental_div_mod_converse(z, t, g, e);
            assert((all + z) as usize == all + z);
            assert(column_edge(edges, flows, all + z) == trunks(edges)[e]);
        }
        gather_same(t, row, chosen);
        chosen_list(t, tp, lane);
        let list = gather(t, chosen);
        let counted = |t: int| seq![Lane::Trunk { group: g, trunk: t }];
        gather_singles(trunks(own).len() as int, counted);
        assert forall|q: int| 0 <= q < list.len() implies #[trigger] list[q] == gather(
            trunks(own).len() as int,
            counted,
        )[q] by {
            let e = nth_place(t, tp, q);
            assert(tp(e) && count_where(e, tp) == q);
            assert(list[q] == lane(e));
            assert(counted(q)[0] == lane(e));
        }
        assert(list =~= gather(trunks(own).len() as int, counted));
    }
    gather_same(gg, rows, wanted);
}

/// The columns of a coalition's linear program stand for the lanes over its edges.
pub proof fn lanes_match(
    out: LpBuilderOutput,
    edges: Seq<EdgeRow>,
    flows: Seq<FlowRow>,
    players: Seq<Seq<char>>,
    coalition: u32,
)
    requires
        out.describes(edges, flows),
        sizes_fit(edges, flows),
        edges.len() <= usize::MAX,
    ensures
        ({
            let near = masks_of(views(out.col_op1@), players);
            let far = masks_of(views(out.col_op2@), players);
            let list = usable_list(near, far, coalition);
            let keep = keep_list(edges, flows);
            let lanes = lanes_of(own_edges(edges, players, coalition), flows);
            &&& near.len() == keep.len()
            &&& list.len() == lanes.len()
            &&& forall|q: int|
                0 <= q < list.len() ==> #[trigger] lanes[q] == lane_at(
                    edges,
                    flows,
                    players,
                    coalition,
                    keep[list[q] as int] as int,
                ) && list[q] < keep.len() && keep[list[q] as int] < flow_columns(edges, flows)
                    + trunk_columns(edges, flows) && is_own(
                    edges[column_edge(edges, flows, keep[list[q] as int] as int)],
                    players,
                    coalition,
                )
        }),
{
    let near = masks_of(views(out.col_op1@), players);
    let far = masks_of(views(out.col_op2@), players);
    let list = usable_list(near, far, coalition);
    let keep = keep_list(edges, flows);
    let own = own_edges(edges, players, coalition);
    let lanes = lanes_of(own, flows);
    let k = commodities_of(flows).len() as int;
    let g = groups_of(flows).len() as int;
    let ops1 = column_operators(edges, k, trunks(edges), g, false);
    let ops2 = column_operators(edges, k, trunks(edges), g, true);
    keep_exists(edges, flows);
    operators_len(edges, k, g, false);
    operators_len(edges, k, g, true);
    kept_len(ops1, keep);
    kept_len(ops2, keep);
    let m = keep.len() as int;
    let usable = |q: int|
        if is_usable(near, far, coalition, q) {
            seq![q as usize]
        } else {
            Seq::empty()
        };
    let h = lane_piece(edges, flows, players, coalition);
    assert forall|q: int| 0 <= q < m implies #[trigger] is_usable(near, far, coalition, q)
        == is_own(edges[column_edge(edges, flows, keep[q] as int)], players, coalition) by {
        let c = keep[q] as int;
        column_has_operators(edges, flows, c, false);
        column_has_operators(edges, flows, c, true);
        assert(near[q] == mask_of(ops1[c], players));
        assert(far[q] == mask_of(ops2[c], players));
    }
    let name = |q: usize| lane_at(edges, flows, players, coalition, keep[q as int] as int);
    gather_mapped(m, usable, name);
    let mapped = |q: int| Seq::new(usable(q).len(), |z: int| name(usable(q)[z]));
    let direct = |q: int| h(keep[q]);
    assert(m <= usize::MAX) by {
        assert(out.a_eq.n == m);
    }
    assert forall|q: int| 0 <= q < m implies #[trigger] mapped(q) == direct(q) by {
        assert(is_usable(near, far, coalition, q) == is_own(
            edges[column_edge(edges, flows, keep[q] as int)],
            players,
            coalition,
        ));
        assert(mapped(q) =~= direct(q));
    }
    gather_same(m, mapped, direct);
    assert(list == gather(m, usable));
    // The kept columns are those open to commodities, then those of trunks.
    let open = open_columns(edges, commodities_of(flows));
    let free = trunk_columns(edges, flows);
    let all = flow_columns(edges, flows);
    assert(free >= 0) by (nonlinear_arith)
        requires
            free == g * trunks(edges).len() as int,
            g >= 0,
    ;
    let first = |q: int| h(open[q]);
    let second = |z: int| h((all + z) as usize);
    gather_on(open.len() as int, free, direct, second);
    gather_same(open.len() as int, direct, first);
    flow_lanes(edges, flows, players, coalition);
    trunk_lanes(edges, flows, players, coalition);
    assert(gather(m, direct) == lanes);
    let named = Seq::new(list.len(), |q: int| name(list[q]));
    assert(named == lanes);
    assert forall|q: int| 0 <= q < list.len() implies #[trigger] lanes[q] == lane_at(
        edges,
        flows,
        players,
        coalition,
        keep[list[q] as int] as int,
    ) && list[q] < keep.len() && keep[list[q] as int] < flow_columns(edges, flows)
        + trunk_columns(edges, flows) && is_own(
        edges[column_edge(edges, flows, keep[list[q] as int] as int)],
        players,
        coalition,
    ) by {
        assert(named[q] == name(list[q]));
        let (i, z) = gather_member(m, usable, q);
        assert(is_usable(near, far, coalition, i));
        assert(list[q] == i);
        assert(keep[i] < all + free);
    }
}

/// The sum of a column of two entries.
pub proof fn sum_of_pair<T>(col: Seq<(usize, T)>, r: int, w: spec_fn(T) -> real)
    requires
        col.len() == 2,
    ensures
        column_sum(col, r, w) == (if col[0].0 == r {
            w(col[0].1)
        } else {
            0real
        }) + (if col[1].0 == r {
            w(col[1].1)
        } else {
            0real
        }),
{
    let front = col.drop_last();
    assert(front.len() == 1 && front.last() == col[0]);
    assert(front.drop_last().len() == 0);
    reveal_with_fuel(column_sum, 3);
}

/// Two places of a table are one only if row and column are.
pub proof fn same_place(a: int, i: int, b: int, j: int, n: int)
    requires
        0 <= i < n,
        0 <= j < n,
        a * n + i == b * n + j,
    ensures
        a == b && i == j,
{
    vstd::arithmetic::div_mod::lemma_fundamental_div_mod_converse(a * n + i, n, a, i);
    vstd::arithmetic::div_mod::lemma_fundamental_div_mod_converse(b * n + j, n, b, j);
}

/// The nodes of a network: each name that edges and flows mention has one place.
pub proof fn node_places(edges: Seq<EdgeRow>, flows: Seq<FlowRow>)
    ensures
        ({
            let nodes = node_names(edges, flows);
            &&& forall|i: int|
                0 <= i < edges.len() ==> nodes.contains((#[trigger] edges[i]).device1)
                    && nodes.contains(edges[i].device2)
            &&& forall|d: int|
                0 <= d < flows.len() ==> nodes.contains((#[trigger] flows[d]).start)
                    && nodes.contains(flows[d].end)
            &&& forall|v: Seq<char>| #[trigger]
                nodes.contains(v) ==> 0 <= place(nodes, v) < nodes.len() && nodes[place(nodes, v)]
                    == v
            &&& forall|p: int|
                0 <= p < nodes.len() ==> place(nodes, #[trigger] nodes[p]) == p
        }),
{
    let nodes = node_names(edges, flows);
    let all = mentioned(edges, flows);
    sorted_list_exists(all);
    let f = |i: int| seq![edges[i].device1, edges[i].device2];
    let g = |i: int| seq![flows[i].start, flows[i].end];
    let base = gather(edges.len() as int, f);
    assert forall|i: int| 0 <= i < edges.len() implies nodes.contains(
        (#[trigger] edges[i]).device1,
    ) && nodes.contains(edges[i].device2) by {
        gather_holds(edges.len() as int, f, i, 0);
        gather_holds(edges.len() as int, f, i, 1);
        let at = gather(i, f).len() as int;
        assert(all[at] == edges[i].device1 && all[at + 1] == edges[i].device2);
        assert(all.contains(edges[i].device1) && all.contains(edges[i].device2));
    }
    assert forall|d: int| 0 <= d < flows.len() implies nodes.contains((#[trigger] flows[d]).start)
        && nodes.contains(flows[d].end) by {
        gather_holds(flows.len() as int, g, d, 0);
        gather_holds(flows.len() as int, g, d, 1);
        let at = (base.len() + gather(d, g).len()) as int;
        assert(all[at] == flows[d].start && all[at + 1] == flows[d].end);
        assert(all.contains(flows[d].start) && all.contains(flows[d].end));
    }
    assert forall|v: Seq<char>| #[trigger] nodes.contains(v) implies 0 <= place(nodes, v)
        < nodes.len() && nodes[place(nodes, v)] == v by {
        place_found(nodes, v);
    }
    assert forall|p: int| 0 <= p < nodes.len() implies place(nodes, #[trigger] nodes[p]) == p by {
        assert(nodes.contains(nodes[p]));
        place_found(nodes, nodes[p]);
        let q = place(nodes, nodes[p]);
        if q < p {
            assert(lex_less(nodes[q], nodes[p]));
            lex_less_irreflexive(nodes[p]);
        }
    }
}

/// What a column of the equalities adds to the balance of a commodity at a node: a unit
/// where the edge leaves the node, less a unit where it reaches it.
pub proof fn equality_entry(edges: Seq<EdgeRow>, flows: Seq<FlowRow>, c: int, k: int, v: int)
    requires
        sizes_fit(edges, flows),
        edges.len() <= usize::MAX,
        0 <= c < flow_columns(edges, flows) + trunk_columns(edges, flows),
        0 <= k < commodities_of(flows).len(),
        0 <= v < node_names(edges, flows).len(),
    ensures
        ({
            let nodes = node_names(edges, flows);
            let n = edges.len() as int;
            column_sum(equality_cols(edges, flows)[c], k * nodes.len() + v, whole_weight())
                == if c < flow_columns(edges, flows) && c / n == k {
                unit(edges[c % n].device1 == nodes[v]) - unit(edges[c % n].device2 == nodes[v])
            } else {
                0real
            }
        }),
{
    let nodes = node_names(edges, flows);
    let n = edges.len() as int;
    let size = nodes.len() as int;
    let kk = commodities_of(flows).len() as int;
    let row = k * nodes.len() + v;
    if c < flow_columns(edges, flows) {
        table_place(c, kk, n);
        let (b, i) = (c / n, c % n);
        equality_column(edges, flows, b, i);
        let e = edges[i];
        node_places(edges, flows);
        let (x, y) = (place(nodes, e.device1), place(nodes, e.device2));
        assert(nodes.contains(e.device1) && nodes.contains(e.device2));
        flat_index(b, x, kk, size);
        flat_index(b, y, kk, size);
        assert(kk * size == size * kk) by (nonlinear_arith);
        let col = equality_cols(edges, flows)[c];
        assert(col == shifted(incidence(e, nodes), b * nodes.len()));
        sum_of_pair(col, row, whole_weight());
        assert((b * size + x == row) == (b == k && x == v)) by {
            if b * size + x == row {
                same_place(b, x, k, v, size);
            }
        }
        assert((b * size + y == row) == (b == k && y == v)) by {
            if b * size + y == row {
                same_place(b, y, k, v, size);
            }
        }
        assert((x == v) == (e.device1 == nodes[v]));
        assert((y == v) == (e.device2 == nodes[v]));
        assert(whole_weight()(1i32) == 1real);
        assert(whole_weight()(-1i32) == -1real);
    } else {
        let m = gather_len_of_diagonal(edges, flows);
        assert(equality_cols(edges, flows)[c].len() == 0);
    }
}

/// A column of the equalities adds to a row what its lane adds to the balance.
proof fn equality_sum(
    edges: Seq<EdgeRow>,
    flows: Seq<FlowRow>,
    players: Seq<Seq<char>>,
    coalition: u32,
    c: int,
    k: int,
    v: int,
)
    requires
        sizes_fit(edges, flows),
        edges.len() <= usize::MAX,
        0 <= c < flow_columns(edges, flows) + trunk_columns(edges, flows),
        is_own(edges[column_edge(edges, flows, c)], players, coalition),
        0 <= k < commodities_of(flows).len(),
        0 <= v < node_names(edges, flows).len(),
    ensures
        ({
            let nodes = node_names(edges, flows);
            column_sum(equality_cols(edges, flows)[c], k * nodes.len() + v, whole_weight())
                == net_coefficient(
                own_edges(edges, players, coalition),
                lane_at(edges, flows, players, coalition, c),
                k,
                nodes[v],
            )
        }),
{
    let n = edges.len() as int;
    let own = own_edges(edges, players, coalition);
    let p = own_at(edges, players, coalition);
    equality_entry(edges, flows, c, k, v);
    if c < flow_columns(edges, flows) {
        table_place(c, commodities_of(flows).len() as int, n);
        let i = c % n;
        own_places(edges, players, coalition);
        assert(p(i));
        assert(own[count_where(i, p) as int] == edges[i]);
    }
}

/// How many columns the block matrix has.
proof fn gather_len_of_diagonal(edges: Seq<EdgeRow>, flows: Seq<FlowRow>) -> (m: int)
    ensures
        m == flow_columns(edges, flows),
        diagonal(
            single_cols(edges, node_names(edges, flows)),
            node_names(edges, flows).len() as int,
            commodities_of(flows).len() as int,
        ).len() == m,
{
    let nodes = node_names(edges, flows);
    let cols = single_cols(edges, nodes);
    let m = nodes.len() as int;
    gather_len(
        commodities_of(flows).len() as int,
        |b: int| lowered(cols, b * m),
        edges.len() as int,
    );
    flow_columns(edges, flows)
}

/// What terms of a balance come to.
pub open spec fn terms_total(terms: Seq<Term>, amount: spec_fn(int) -> real) -> real
    decreases terms.len(),
{
    if terms.len() == 0 {
        0real
    } else {
        terms_total(terms.drop_last(), amount) + if terms.last().starts {
            amount(terms.last().flow as int)
        } else {
            -amount(terms.last().flow as int)
        }
    }
}

/// Terms one after the other come to their sum.
proof fn terms_of_two(a: Seq<Term>, b: Seq<Term>, amount: spec_fn(int) -> real)
    ensures
        terms_total(a + b, amount) == terms_total(a, amount) + terms_total(b, amount),
    decreases b.len(),
{
    if b.len() == 0 {
        assert(a + b =~= a);
    } else {
        terms_of_two(a, b.drop_last(), amount);
        assert((a + b).drop_last() =~= a + b.drop_last());
        assert((a + b).last() == b.last());
    }
}

/// The right side of an equality is what the flows bring to its node.
pub proof fn balance_is_supply(
    edges: Seq<EdgeRow>,
    flows: Seq<FlowRow>,
    amount: spec_fn(int) -> real,
    k: int,
    v: int,
    n: int,
)
    requires
        flows.len() <= usize::MAX,
        0 <= k < commodities_of(flows).len(),
        0 <= v < node_names(edges, flows).len(),
        0 <= n <= flows.len(),
    ensures
        ({
            let nodes = node_names(edges, flows);
            let commodities = commodities_of(flows);
            terms_total(
                gather(
                    n,
                    |d: int| balance_part(flows, nodes, commodities, k * nodes.len() + v, d),
                ),
                amount,
            ) == sum(
                n,
                |d: int|
                    if commodities.index_of(flows[d].kind) == k {
                        amount(d) * (unit(flows[d].start == nodes[v]) - unit(
                            flows[d].end == nodes[v],
                        ))
                    } else {
                        0real
                    },
            )
        }),
    decreases n,
{
    let nodes = node_names(edges, flows);
    let commodities = commodities_of(flows);
    let size = nodes.len() as int;
    let row = k * nodes.len() + v;
    let f = |d: int| balance_part(flows, nodes, commodities, row, d);
    if n > 0 {
        balance_is_supply(edges, flows, amount, k, v, n - 1);
        let d = n - 1;
        let part = f(d);
        terms_of_two(gather(n - 1, f), part, amount);
        node_places(edges, flows);
        let a = commodities.index_of(flows[d].kind);
        let (x, y) = (place(nodes, flows[d].start), place(nodes, flows[d].end));
        assert(nodes.contains(flows[d].start) && nodes.contains(flows[d].end));
        assert((a * size + x == row) == (a == k && x == v)) by {
            if a * size + x == row {
                same_place(a, x, k, v, size);
            }
        }
        assert((a * size + y == row) == (a == k && y == v)) by {
            if a * size + y == row {
                same_place(a, y, k, v, size);
            }
        }
        assert((x == v) == (flows[d].start == nodes[v]));
        assert((y == v) == (flows[d].end == nodes[v]));
        let out = if balance_row(nodes, commodities, flows[d].kind, flows[d].start) == row {
            seq![Term { flow: d as usize, starts: true }]
        } else {
            Seq::empty()
        };
        let into = if balance_row(nodes, commodities, flows[d].kind, flows[d].end) == row {
            seq![Term { flow: d as usize, starts: false }]
        } else {
            Seq::empty()
        };
        assert(part == out + into);
        terms_of_two(out, into, amount);
        let m = amount(d);
        assert(terms_total(out, amount) == if a == k && x == v {
            m
        } else {
            0real
        }) by {
            reveal_with_fuel(terms_total, 2);
            if out.len() > 0 {
                assert(out.drop_last() =~= Seq::<Term>::empty());
            }
        }
        assert(terms_total(into, amount) == if a == k && y == v {
            -m
        } else {
            0real
        }) by {
            reveal_with_fuel(terms_total, 2);
            if into.len() > 0 {
                assert(into.drop_last() =~= Seq::<Term>::empty());
            }
        }
        assert(m * (1real - 1real) == 0real) by (nonlinear_arith);
        assert(m * (1real - 0real) == m) by (nonlinear_arith);
        assert(m * (0real - 1real) == -m) by (nonlinear_arith);
        assert(m * (0real - 0real) == 0real) by (nonlinear_arith);
    }
}

/// Columns one below the other add up to their sums.
pub proof fn sum_of_two<T>(a: Seq<(usize, T)>, b: Seq<(usize, T)>, r: int, w: spec_fn(T) -> real)
    ensures
        column_sum(a + b, r, w) == column_sum(a, r, w) + column_sum(b, r, w),
    decreases b.len(),
{
    if b.len() == 0 {
        assert(a + b =~= a);
    } else {
        sum_of_two(a, b.drop_last(), r, w);
        assert((a + b).drop_last() =~= a + b.drop_last());
        assert((a + b).last() == b.last());
    }
}

/// A column without entries in a row adds nothing to it.
pub proof fn sum_elsewhere<T>(col: Seq<(usize, T)>, r: int, w: spec_fn(T) -> real)
    requires
        forall|k: int| 0 <= k < col.len() ==> (#[trigger] col[k]).0 != r,
    ensures
        column_sum(col, r, w) == 0real,
    decreases col.len(),
{
    if col.len() > 0 {
        let front = col.drop_last();
        assert forall|k: int| 0 <= k < front.len() implies (#[trigger] front[k]).0 != r by {
            assert(front[k] == col[k]);
        }
        sum_elsewhere(front, r, w);
        assert(col[col.len() - 1].0 != r);
    }
}

/// The sum of an entry put anywhere into a column.
proof fn sum_of_inserted<T>(
    col: Seq<(usize, T)>,
    at: int,
    entry: (usize, T),
    r: int,
    w: spec_fn(T) -> real,
)
    requires
        0 <= at <= col.len(),
    ensures
        column_sum(col.insert(at, entry), r, w) == column_sum(col, r, w) + if entry.0 == r {
            w(entry.1)
        } else {
            0real
        },
{
    let (head, tail) = (col.take(at), col.skip(at));
    let one = seq![entry];
    assert(col =~= head + tail);
    assert(col.insert(at, entry) =~= (head + one) + tail);
    sum_of_two(head, tail, r, w);
    sum_of_two(head + one, tail, r, w);
    sum_of_two(head, one, r, w);
    assert(one.drop_last() =~= Seq::<(usize, T)>::empty());
    reveal_with_fuel(column_sum, 2);
}

/// The sum of the triplets of a place.
spec fn triplet_sum<T>(
    triplets: Seq<(usize, usize, T)>,
    r: int,
    c: int,
    w: spec_fn(T) -> real,
) -> real
    decreases triplets.len(),
{
    if triplets.len() == 0 {
        0real
    } else {
        triplet_sum(triplets.drop_last(), r, c, w) + if triplets.last().0 == r
            && triplets.last().1 == c {
            w(triplets.last().2)
        } else {
            0real
        }
    }
}

/// A column made of triplets adds up to the triplets of its places.
proof fn placed_sum<T>(
    triplets: Seq<(usize, usize, T)>,
    c: int,
    r: int,
    w: spec_fn(T) -> real,
)
    ensures
        column_sum(placed(triplets, c), r, w) == triplet_sum(triplets, r, c, w),
    decreases triplets.len(),
{
    if triplets.len() > 0 {
        let front = triplets.drop_last();
        placed_sum(front, c, r, w);
        let before = placed(front, c);
        let t = triplets.last();
        if t.1 == c {
            slot_bounds(before, t.0);
            sum_of_inserted(before, slot(before, t.0), (t.0, t.2), r, w);
        }
    }
}

/// Triplets one after the other.
proof fn triplets_of_two<T>(
    a: Seq<(usize, usize, T)>,
    b: Seq<(usize, usize, T)>,
    r: int,
    c: int,
    w: spec_fn(T) -> real,
)
    ensures
        triplet_sum(a + b, r, c, w) == triplet_sum(a, r, c, w) + triplet_sum(b, r, c, w),
    decreases b.len(),
{
    if b.len() == 0 {
        assert(a + b =~= a);
    } else {
        triplets_of_two(a, b.drop_last(), r, c, w);
        assert((a + b).drop_last() =~= a + b.drop_last());
        assert((a + b).last() == b.last());
    }
}

/// Of gathered triplets only one piece is about a place.
proof fn triplets_of_piece<T>(
    n: int,
    f: spec_fn(int) -> Seq<(usize, usize, T)>,
    at: int,
    r: int,
    c: int,
    w: spec_fn(T) -> real,
)
    requires
        0 <= n,
        forall|i: int|
            0 <= i < n && i != at ==> triplet_sum(#[trigger] f(i), r, c, w) == 0real,
    ensures
        triplet_sum(gather(n, f), r, c, w) == if 0 <= at < n {
            triplet_sum(f(at), r, c, w)
        } else {
            0real
        },
    decreases n,
{
    if n > 0 {
        triplets_of_piece(n - 1, f, at, r, c, w);
        triplets_of_two(gather(n - 1, f), f(n - 1), r, c, w);
        if n - 1 != at {
            assert(triplet_sum(f(n - 1), r, c, w) == 0real);
        }
    }
}

/// Triplets of other rows add nothing.
proof fn triplets_elsewhere<T>(
    triplets: Seq<(usize, usize, T)>,
    r: int,
    c: int,
    w: spec_fn(T) -> real,
)
    requires
        forall|k: int| 0 <= k < triplets.len() ==> (#[trigger] triplets[k]).0 != r,
    ensures
        triplet_sum(triplets, r, c, w) == 0real,
    decreases triplets.len(),
{
    if triplets.len() > 0 {
        let front = triplets.drop_last();
        assert forall|k: int| 0 <= k < front.len() implies (#[trigger] front[k]).0 != r by {
            assert(front[k] == triplets[k]);
        }
        triplets_elsewhere(front, r, c, w);
        assert(triplets[triplets.len() - 1].0 != r);
    }
}

/// The sum of a column that counts an edge at most once.
proof fn group_column_sum(edge: EdgeRow, top: int, times: nat, r: int)
    requires
        times <= 1,
        edge.shared <= top,
        0 <= r,
    ensures
        column_sum(as_shares(group_column(edge, top, times)), r, share_weight()) == unit(
            times == 1 && edge.shared == r + 1,
        ),
{
    let col = as_shares(group_column(edge, top, times));
    reveal_with_fuel(column_sum, 2);
    assert(share_weight()(Share { num: 1, den: 1 }) == 1real) by {
        one_over_one();
    }
    if col.len() > 0 {
        assert(col.len() == 1);
        assert(col.drop_last() =~= Seq::<(usize, Share)>::empty());
    }
}

/// One over one is one.
proof fn one_over_one()
    ensures
        1i32 as real / 1u32 as real == 1real,
        (-1i32) as real / 1u32 as real == -1real,
{
    assert(1real / 1real == 1real) by (nonlinear_arith);
    assert((-1real) / 1real == -1real) by (nonlinear_arith);
}

/// What is asked of a network so that its linear programs stand for routings.
pub open spec fn is_uniform(edges: Seq<EdgeRow>, flows: Seq<FlowRow>) -> bool {
    &&& sizes_fit(edges, flows)
    &&& edges.len() <= usize::MAX
    &&& flows.len() > 0
    &&& flows.len() <= usize::MAX
    &&& private_first(edges)
    &&& groups_numbered(edges)
    &&& all_heard(flows)
}

/// Where there are flows, every group has its row.
pub proof fn rows_of_groups(edges: Seq<EdgeRow>, flows: Seq<FlowRow>)
    requires
        flows.len() > 0,
        groups_numbered(edges),
    ensures
        band_rows(edges, flows) == max_shared(edges),
        commodities_of(flows).len() > 0,
{
    no_group_without_private(edges);
    sorted_ids_exist(kinds_of(flows));
    assert(kinds_of(flows)[0] == flows[0].kind);
    assert(kinds_of(flows).contains(flows[0].kind));
    assert(commodities_of(flows).contains(flows[0].kind));
}

/// What the column of a flow adds to the row of a group: a unit where the edge has the group
/// and the flow counts on it, and likewise for the column of what a trunk carries.
pub proof fn load_column(edges: Seq<EdgeRow>, flows: Seq<FlowRow>, c: int, r: int)
    requires
        is_uniform(edges, flows),
        0 <= c < flow_columns(edges, flows) + trunk_columns(edges, flows),
        0 <= r < max_shared(edges),
    ensures
        ({
            let x = column_edge(edges, flows, c);
            &&& 0 <= x < edges.len()
            &&& column_sum(inequality_cols(edges, flows)[c], r, share_weight()) == unit(
                edges[x].shared == r + 1 && if c < flow_columns(edges, flows) {
                    if is_multicast(flows, commodities_of(flows)[c / edges.len() as int]) {
                        is_plain(edges[x])
                    } else {
                        !is_public(edges[x])
                    }
                } else {
                    is_trunk(edges[x])
                },
            )
        }),
{
    let band = bandwidth_cols(edges, flags_of(flows), groups_of(flows).len() as int);
    let n = edges.len() as int;
    let t = trunks(edges).len() as int;
    let top = max_shared(edges);
    let tied = ties(flows, commodities_of(flows), groups_of(flows), trunks(edges), n);
    let at = max_shared_bounds(edges);
    rows_of_groups(edges, flows);
    let below = shifted(placed(tied, c), top);
    let head = as_shares(band[c]);
    assert(inequality_cols(edges, flows)[c] == head + below);
    sum_of_two(head, below, r, share_weight());
    assert forall|k: int| 0 <= k < below.len() implies (#[trigger] below[k]).0 != r by {
        tie_rows_bound(edges, flows, c, k);
    }
    sum_elsewhere(below, r, share_weight());
    if c < flow_columns(edges, flows) {
        table_place(c, commodities_of(flows).len() as int, n);
        let (k, i) = (c / n, c % n);
        bandwidth_column(edges, flows, k, i);
        assert(is_public(edges[i]) <==> i >= private_count(edges));
        let times: nat = if is_multicast(flows, commodities_of(flows)[k]) {
            if is_plain(edges[i]) {
                1
            } else {
                0
            }
        } else if i < private_count(edges) {
            1
        } else {
            0
        };
        assert(edges[i].shared <= top);
        group_column_sum(edges[i], top, times, r);
    } else {
        let z = c - flow_columns(edges, flows);
        table_place(z, groups_of(flows).len() as int, t);
        let (g, e) = (z / t, z % t);
        trunk_column(edges, flows, g, e);
        trunks_are_edges(edges);
        let i = trunks(edges)[e] as int;
        assert(is_trunk(edges[i]));
        assert(is_public(edges[i]) <==> i >= private_count(edges));
        assert(edges[i].shared <= top);
        group_column_sum(edges[i], top, 1, r);
    }
}

/// A column of the inequalities adds to the row of a group what its lane adds to the
/// group's load.
proof fn load_sum(
    edges: Seq<EdgeRow>,
    flows: Seq<FlowRow>,
    players: Seq<Seq<char>>,
    coalition: u32,
    c: int,
    r: int,
)
    requires
        is_uniform(edges, flows),
        0 <= c < flow_columns(edges, flows) + trunk_columns(edges, flows),
        is_own(edges[column_edge(edges, flows, c)], players, coalition),
        0 <= r < max_shared(edges),
        r < u32::MAX,
    ensures
        column_sum(inequality_cols(edges, flows)[c], r, share_weight()) == load_coefficient(
            own_edges(edges, players, coalition),
            flows,
            lane_at(edges, flows, players, coalition, c),
            (r + 1) as u32,
        ),
{
    let n = edges.len() as int;
    let t = trunks(edges).len() as int;
    let own = own_edges(edges, players, coalition);
    let p = own_at(edges, players, coalition);
    load_column(edges, flows, c, r);
    own_places(edges, players, coalition);
    if c < flow_columns(edges, flows) {
        table_place(c, commodities_of(flows).len() as int, n);
        let i = c % n;
        assert(p(i));
        assert(own[count_where(i, p) as int] == edges[i]);
    } else {
        let z = c - flow_columns(edges, flows);
        table_place(z, groups_of(flows).len() as int, t);
        let e = z % t;
        trunks_are_edges(edges);
        own_trunks(edges, players, coalition);
        let tp = own_trunk_at(edges, players, coalition);
        assert(tp(e));
        let i = trunks(edges)[e] as int;
        assert(p(i));
        assert(own[count_where(i, p) as int] == edges[i]);
        assert(is_trunk(edges[i]));
    }
}

/// The entries of ties lie below the rows of groups, and within the rows there are.
proof fn tie_rows_bound(edges: Seq<EdgeRow>, flows: Seq<FlowRow>, c: int, k: int)
    requires
        is_uniform(edges, flows),
        ({
            let tied = ties(
                flows,
                commodities_of(flows),
                groups_of(flows),
                trunks(edges),
                edges.len() as int,
            );
            0 <= k < placed(tied, c).len()
        }),
    ensures
        ({
            let tied = ties(
                flows,
                commodities_of(flows),
                groups_of(flows),
                trunks(edges),
                edges.len() as int,
            );
            let row = placed(tied, c)[k].0;
            &&& row < tie_rows(edges, flows)
            &&& shifted(placed(tied, c), max_shared(edges))[k].0 == max_shared(edges) + row
        }),
{
    let n = edges.len() as int;
    let t = trunks(edges).len() as int;
    let (commodities, groups) = (commodities_of(flows), groups_of(flows));
    let tied = ties(flows, commodities, groups, trunks(edges), n);
    let at = max_shared_bounds(edges);
    let z = placed_entry(tied, c, k);
    let f = |d: int|
        if is_heard(flows[d]) {
            gather(t, |e: int| tie_entries(flows, commodities, groups, trunks(edges), n, d, e))
        } else {
            Seq::empty()
        };
    let (d, m) = gather_member(flows.len() as int, f, z);
    let h = |e: int| tie_entries(flows, commodities, groups, trunks(edges), n, d, e);
    assert(f(d) == gather(t, h));
    let (e, y) = gather_member(t, h, m);
    tie_row_place(edges, flows, d, e);
}

/// The row of a tie, among the rows of ties.
pub proof fn tie_row_place(edges: Seq<EdgeRow>, flows: Seq<FlowRow>, d: int, e: int)
    requires
        is_uniform(edges, flows),
        0 <= d < flows.len(),
        is_heard(flows[d]),
        0 <= e < trunks(edges).len(),
    ensures
        ({
            let row = heard_before(flows, d) * trunks(edges).len() + e;
            &&& 0 <= row < tie_rows(edges, flows)
            &&& max_shared(edges) + row < usize::MAX
        }),
{
    let heard = |i: int| is_heard(flows[i]);
    let t = trunks(edges).len() as int;
    count_grows(d + 1, flows.len() as int, heard, heard);
    flat_index(heard_before(flows, d) as int, e, heard_before(flows, flows.len() as int) as int, t);
}

/// Different heard flows have different places among those.
pub proof fn heard_places(flows: Seq<FlowRow>, a: int, b: int)
    requires
        0 <= a < flows.len(),
        0 <= b < flows.len(),
        is_heard(flows[a]),
        is_heard(flows[b]),
        heard_before(flows, a) == heard_before(flows, b),
    ensures
        a == b,
{
    let heard = |i: int| is_heard(flows[i]);
    if a < b {
        count_grows(a + 1, b, heard, heard);
    } else if b < a {
        count_grows(b + 1, a, heard, heard);
    }
}

/// Different positions that meet a condition have different places among those.
pub proof fn chosen_places(p: spec_fn(int) -> bool, a: int, b: int)
    requires
        0 <= a,
        0 <= b,
        p(a),
        p(b),
        count_where(a, p) == count_where(b, p),
    ensures
        a == b,
{
    if a < b {
        count_grows(a + 1, b, p, p);
    } else if b < a {
        count_grows(b + 1, a, p, p);
    }
}

/// What the two entries of a tie add to a place of its row.
proof fn tie_entries_sum(
    edges: Seq<EdgeRow>,
    flows: Seq<FlowRow>,
    d: int,
    e: int,
    c: int,
)
    requires
        is_uniform(edges, flows),
        0 <= d < flows.len(),
        is_heard(flows[d]),
        0 <= e < trunks(edges).len(),
    ensures
        ({
            let n = edges.len() as int;
            let t = trunks(edges).len() as int;
            let (commodities, groups) = (commodities_of(flows), groups_of(flows));
            let a = commodities.index_of(flows[d].kind);
            let b = groups.index_of(flows[d].original);
            let row = heard_before(flows, d) * trunks(edges).len() + e;
            &&& 0 <= a < commodities.len()
            &&& 0 <= b < groups.len()
            &&& triplet_sum(
                tie_entries(flows, commodities, groups, trunks(edges), n, d, e),
                row,
                c,
                share_weight(),
            ) == (if c == a * n + trunks(edges)[e] {
                1real / flows[d].receivers as real
            } else {
                0real
            }) - unit(c == commodities.len() * n + b * t + e)
        }),
{
    let n = edges.len() as int;
    let t = trunks(edges).len() as int;
    let (commodities, groups) = (commodities_of(flows), groups_of(flows));
    sorted_ids_exist(kinds_of(flows));
    sorted_ids_exist(multicast_types(flows));
    let a = commodities.index_of(flows[d].kind);
    assert(0 <= a < commodities.len()) by {
        assert(kinds_of(flows)[d] == flows[d].kind);
        assert(kinds_of(flows).contains(flows[d].kind));
        assert(commodities.contains(flows[d].kind));
    }
    let b = groups.index_of(flows[d].original);
    assert(0 <= b < groups.len()) by {
        let p = |d: int|
            if flows[d].multicast {
                seq![flows[d].original]
            } else {
                Seq::empty()
            };
        assert(p(d) == seq![flows[d].original]);
        gather_holds(flows.len() as int, p, d, 0);
        assert(multicast_types(flows).contains(flows[d].original));
        assert(groups.contains(flows[d].original));
    }
    trunks_are_edges(edges);
    let link = trunks(edges)[e] as int;
    flat_index(a, link, commodities.len() as int, n);
    flat_index(b, e, groups.len() as int, t);
    tie_row_place(edges, flows, d, e);
    let pair = tie_entries(flows, commodities, groups, trunks(edges), n, d, e);
    let row = heard_before(flows, d) * trunks(edges).len() + e;
    one_over_one();
    assert(pair.len() == 2);
    let front = pair.drop_last();
    assert(front.len() == 1 && front.last() == pair[0]);
    assert(front.drop_last().len() == 0);
    reveal_with_fuel(triplet_sum, 3);
    assert(pair[0].0 == row && pair[1].0 == row);
    assert(pair[0].1 == a * n + link);
    assert(pair[1].1 == commodities.len() * n + b * t + e);
    assert(1i32 as real == 1real);
}

/// What a column of the inequalities adds to the row that ties a multicast flow to a trunk:
/// a share of the flow in the column of the flow on the trunk, less a unit in the column of
/// what the trunk carries for the group.
pub proof fn tie_column(edges: Seq<EdgeRow>, flows: Seq<FlowRow>, c: int, d: int, e: int)
    requires
        is_uniform(edges, flows),
        0 <= c < flow_columns(edges, flows) + trunk_columns(edges, flows),
        0 <= d < flows.len(),
        is_heard(flows[d]),
        0 <= e < trunks(edges).len(),
    ensures
        ({
            let n = edges.len() as int;
            let t = trunks(edges).len() as int;
            let (commodities, groups) = (commodities_of(flows), groups_of(flows));
            let a = commodities.index_of(flows[d].kind);
            let b = groups.index_of(flows[d].original);
            let row = heard_before(flows, d) * trunks(edges).len() + e;
            &&& 0 <= a < commodities.len()
            &&& 0 <= b < groups.len()
            &&& column_sum(
                inequality_cols(edges, flows)[c],
                max_shared(edges) + row,
                share_weight(),
            ) == (if c == a * n + trunks(edges)[e] {
                1real / flows[d].receivers as real
            } else {
                0real
            }) - unit(c == commodities.len() * n + b * t + e)
        }),
{
    let band = bandwidth_cols(edges, flags_of(flows), groups_of(flows).len() as int);
    let n = edges.len() as int;
    let t = trunks(edges).len() as int;
    let top = max_shared(edges);
    let (commodities, groups) = (commodities_of(flows), groups_of(flows));
    let tied = ties(flows, commodities, groups, trunks(edges), n);
    let at = max_shared_bounds(edges);
    rows_of_groups(edges, flows);
    tie_row_place(edges, flows, d, e);
    let row = heard_before(flows, d) * trunks(edges).len() + e;
    let r = top + row;
    let below = placed(tied, c);
    let head = as_shares(band[c]);
    assert(inequality_cols(edges, flows)[c] == head + shifted(below, top));
    sum_of_two(head, shifted(below, top), r, share_weight());
    assert forall|k: int| 0 <= k < head.len() implies (#[trigger] head[k]).0 != r by {
        band_entry(edges, flows, c, k);
        count_bound(edges.len() as int, |i: int| !is_public(edges[i]));
        assert(edges[column_edge(edges, flows, c)].shared <= top);
    }
    sum_elsewhere(head, r, share_weight());
    assert forall|k: int| 0 <= k < below.len() implies (#[trigger] below[k]).0 + top
        <= usize::MAX by {
        tie_rows_bound(edges, flows, c, k);
    }
    sum_of_shifted(below, top, row, share_weight());
    placed_sum(tied, c, row, share_weight());
    let f = |d: int|
        if is_heard(flows[d]) {
            gather(t, |e: int| tie_entries(flows, commodities, groups, trunks(edges), n, d, e))
        } else {
            Seq::empty()
        };
    assert forall|i: int| 0 <= i < flows.len() && i != d implies triplet_sum(
        #[trigger] f(i),
        row,
        c,
        share_weight(),
    ) == 0real by {
        let piece = f(i);
        assert forall|k: int| 0 <= k < piece.len() implies (#[trigger] piece[k]).0 != row by {
            let h = |e: int| tie_entries(flows, commodities, groups, trunks(edges), n, i, e);
            assert(piece == gather(t, h));
            let (x, y) = gather_member(t, h, k);
            tie_row_place(edges, flows, i, x);
            let other = heard_before(flows, i) * trunks(edges).len() + x;
            if other == row {
                same_place(heard_before(flows, i) as int, x, heard_before(flows, d) as int, e, t);
                heard_places(flows, i, d);
            }
        }
        triplets_elsewhere(piece, row, c, share_weight());
    }
    triplets_of_piece(flows.len() as int, f, d, row, c, share_weight());
    let h = |e: int| tie_entries(flows, commodities, groups, trunks(edges), n, d, e);
    assert(f(d) == gather(t, h));
    assert forall|x: int| 0 <= x < t && x != e implies triplet_sum(
        #[trigger] h(x),
        row,
        c,
        share_weight(),
    ) == 0real by {
        let piece = h(x);
        tie_row_place(edges, flows, d, x);
        assert forall|k: int| 0 <= k < piece.len() implies (#[trigger] piece[k]).0 != row by {
            if heard_before(flows, d) * trunks(edges).len() + x == row {
                same_place(heard_before(flows, d) as int, x, heard_before(flows, d) as int, e, t);
            }
        }
        triplets_elsewhere(piece, row, c, share_weight());
    }
    triplets_of_piece(t, h, e, row, c, share_weight());
    tie_entries_sum(edges, flows, d, e, c);
}

/// A column of the inequalities adds to the row of a tie what its lane adds to the tie.
proof fn tie_sum(
    edges: Seq<EdgeRow>,
    flows: Seq<FlowRow>,
    players: Seq<Seq<char>>,
    coalition: u32,
    c: int,
    d: int,
    e: int,
)
    requires
        is_uniform(edges, flows),
        0 <= c < flow_columns(edges, flows) + trunk_columns(edges, flows),
        is_own(edges[column_edge(edges, flows, c)], players, coalition),
        0 <= d < flows.len(),
        is_heard(flows[d]),
        0 <= e < trunks(edges).len(),
        own_trunk_at(edges, players, coalition)(e),
    ensures
        ({
            let row = heard_before(flows, d) * trunks(edges).len() + e;
            column_sum(
                inequality_cols(edges, flows)[c],
                max_shared(edges) + row,
                share_weight(),
            ) == tie_coefficient(
                own_edges(edges, players, coalition),
                flows,
                lane_at(edges, flows, players, coalition, c),
                d,
                count_where(e, own_trunk_at(edges, players, coalition)) as int,
            )
        }),
{
    let n = edges.len() as int;
    let t = trunks(edges).len() as int;
    let (commodities, groups) = (commodities_of(flows), groups_of(flows));
    let p = own_at(edges, players, coalition);
    let tp = own_trunk_at(edges, players, coalition);
    tie_column(edges, flows, c, d, e);
    let a = commodities.index_of(flows[d].kind);
    let b = groups.index_of(flows[d].original);
    let link = trunks(edges)[e] as int;
    trunks_are_edges(edges);
    own_trunks(edges, players, coalition);
    flat_index(a, link, commodities.len() as int, n);
    flat_index(b, e, groups.len() as int, t);
    assert(p(link));
    if c < flow_columns(edges, flows) {
        table_place(c, commodities.len() as int, n);
        let (k, i) = (c / n, c % n);
        assert(p(i));
        assert((c == a * n + link) == (k == a && i == link)) by {
            if c == a * n + link {
                same_place(k, i, a, link, n);
            }
        }
        assert((count_where(i, p) == count_where(link, p)) == (i == link)) by {
            if count_where(i, p) == count_where(link, p) {
                chosen_places(p, i, link);
            }
        }
        assert(c < commodities.len() * n);
    } else {
        let z = c - flow_columns(edges, flows);
        table_place(z, groups.len() as int, t);
        let (g, x) = (z / t, z % t);
        assert(tp(x));
        assert((z == b * t + e) == (g == b && x == e)) by {
            if z == b * t + e {
                same_place(g, x, b, e, t);
            }
        }
        assert((count_where(x, tp) == count_where(e, tp)) == (x == e)) by {
            if count_where(x, tp) == count_where(e, tp) {
                chosen_places(tp, x, e);
            }
        }
    }
}

/// The sum of a column moved down.
proof fn sum_of_shifted<T>(col: Seq<(usize, T)>, shift: int, r: int, w: spec_fn(T) -> real)
    requires
        0 <= shift,
        forall|k: int| 0 <= k < col.len() ==> (#[trigger] col[k]).0 + shift <= usize::MAX,
    ensures
        column_sum(shifted(col, shift), r + shift, w) == column_sum(col, r, w),
    decreases col.len(),
{
    let moved = shifted(col, shift);
    if col.len() > 0 {
        let front = col.drop_last();
        assert forall|k: int| 0 <= k < front.len() implies (#[trigger] front[k]).0 + shift
            <= usize::MAX by {
            assert(front[k] == col[k]);
        }
        sum_of_shifted(front, shift, r, w);
        assert(moved.drop_last() =~= shifted(front, shift));
        assert(col[col.len() - 1].0 + shift <= usize::MAX);
    }
}

/// The right sides of the equalities, where flow `d` carries `amount(d)`.
pub open spec fn right_sides(out: LpBuilderOutput, amount: spec_fn(int) -> real) -> Seq<real> {
    Seq::new(out.b_eq@.len(), |r: int| terms_total(out.b_eq@[r]@, amount))
}

/// The limits of the inequalities, where `b` stands for the number `worth(b)`.
pub open spec fn limits(out: LpBuilderOutput, worth: spec_fn(Real) -> real) -> Seq<real> {
    Seq::new(out.b_ub@.len(), |r: int| worth(out.b_ub@[r]))
}

/// The linear program of a coalition, made from that of the network.
pub open spec fn is_program_of(
    program: CoalitionProgram,
    out: LpBuilderOutput,
    rows: PrecomputedRows,
    players: Seq<Seq<char>>,
    coalition: u32,
) -> bool {
    &&& rows.of(out)
    &&& program.describes(
        rows,
        coalition,
        masks_of(views(out.col_op1@), players),
        masks_of(views(out.col_op2@), players),
        masks_of(views(out.row_op1@), players),
        masks_of(views(out.row_op2@), players),
    )
}

/// An equality of a coalition's linear program is the balance of a commodity at a node.
proof fn equality_row(
    program: CoalitionProgram,
    out: LpBuilderOutput,
    rows: PrecomputedRows,
    edges: Seq<EdgeRow>,
    flows: Seq<FlowRow>,
    players: Seq<Seq<char>>,
    coalition: u32,
    amount: spec_fn(int) -> real,
    y: Seq<real>,
    k: int,
    v: int,
)
    requires
        out.describes(edges, flows),
        is_program_of(program, out, rows, players, coalition),
        is_uniform(edges, flows),
        y.len() == program.cols@.len(),
        0 <= k < commodities_of(flows).len(),
        0 <= v < node_names(edges, flows).len(),
    ensures
        ({
            let own = own_edges(edges, players, coalition);
            let nodes = node_names(edges, flows);
            let r = k * nodes.len() + v;
            &&& 0 <= r < program.eq_rows@.len()
            &&& (dot(program.eq_rows@[r]@, whole_weight(), y) == right_sides(out, amount)[r])
                == balances(own, flows, amount, y, k, nodes[v])
        }),
{
    let near = masks_of(views(out.col_op1@), players);
    let far = masks_of(views(out.col_op2@), players);
    let own = own_edges(edges, players, coalition);
    let nodes = node_names(edges, flows);
    let size = nodes.len() as int;
    let kk = commodities_of(flows).len() as int;
    let lanes = lanes_of(own, flows);
    let list = usable_list(near, far, coalition);
    let keep = keep_list(edges, flows);
    let cols = out.a_eq.cols();
    let r = k * nodes.len() + v;
    flat_index(k, v, kk, size);
    assert(kk * size == size * kk) by (nonlinear_arith);
    lanes_match(out, edges, flows, players, coalition);
    assert(inner(rows.eq_rows@).len() == out.a_eq.m);
    assert(inner(program.eq_rows@).len() == program.eq_rows@.len());
    let row = row_of(cols, r, cols.len() as int);
    assert(inner(rows.eq_rows@)[r] == row);
    assert(inner(program.eq_rows@)[r] == narrowed(row, near, far, coalition));
    assert(inner(program.eq_rows@)[r] == program.eq_rows@[r]@);
    narrowed_by_columns(cols, r, whole_weight(), near, far, coalition, y);
    let sums = at_places(row_sums(cols, r, whole_weight()), list);
    let c = |lane: Lane| net_coefficient(own, lane, k, nodes[v]);
    let wanted = Seq::new(lanes.len(), |q: int| c(lanes[q]));
    assert forall|q: int| 0 <= q < list.len() implies #[trigger] sums[q] == wanted[q] by {
        let at = keep[list[q] as int] as int;
        assert(lanes[q] == lane_at(edges, flows, players, coalition, at));
        assert(cols[list[q] as int] == equality_cols(edges, flows)[at]);
        equality_sum(edges, flows, players, coalition, at, k, v);
    }
    assert(sums =~= wanted);
    assert(inner(out.b_eq@)[r] == balance(flows, nodes, commodities_of(flows), r));
    assert(out.b_eq@.len() == inner(out.b_eq@).len());
    assert(inner(out.b_eq@)[r] == out.b_eq@[r]@);
    balance_is_supply(edges, flows, amount, k, v, flows.len() as int);
    let commodities = commodities_of(flows);
    let direct = |d: int| balance_part(flows, nodes, commodities, r, d);
    let listed = |d: int| balance_part(flows, nodes, commodities, k * nodes.len() + v, d);
    gather_same(flows.len() as int, direct, listed);
}

/// At a name that is no node every commodity balances.
proof fn balances_elsewhere(
    edges: Seq<EdgeRow>,
    flows: Seq<FlowRow>,
    players: Seq<Seq<char>>,
    coalition: u32,
    amount: spec_fn(int) -> real,
    y: Seq<real>,
    k: int,
    v: Seq<char>,
)
    requires
        !node_names(edges, flows).contains(v),
        edges.len() <= usize::MAX,
    ensures
        balances(own_edges(edges, players, coalition), flows, amount, y, k, v),
{
    let own = own_edges(edges, players, coalition);
    let lanes = lanes_of(own, flows);
    node_places(edges, flows);
    let f = |i: int|
        if is_own(edges[i], players, coalition) {
            seq![edges[i]]
        } else {
            Seq::empty()
        };
    let c = |lane: Lane| net_coefficient(own, lane, k, v);
    let coefs = Seq::new(lanes.len(), |q: int| c(lanes[q]));
    assert forall|q: int| 0 <= q < lanes.len() implies #[trigger] coefs[q] == 0real by {
        match lanes[q] {
            Lane::Flow { commodity, edge } => {
                lane_edge_exists(own, flows, q);
                let (i, z) = gather_member(edges.len() as int, f, edge);
                assert(own[edge] == edges[i]);
                assert(edges[i].device1 != v && edges[i].device2 != v);
            },
            Lane::Trunk { group, trunk } => {},
        }
    }
    nothing_spent(coefs, y, lanes.len() as int);
    let g = |d: int|
        if commodities_of(flows).index_of(flows[d].kind) == k {
            amount(d) * (unit(flows[d].start == v) - unit(flows[d].end == v))
        } else {
            0real
        };
    assert forall|d: int| 0 <= d < flows.len() implies #[trigger] g(d) == 0real by {
        assert(flows[d].start != v && flows[d].end != v);
        let m = amount(d);
        assert(m * (0real - 0real) == 0real) by (nonlinear_arith);
    }
    sum_zero(flows.len() as int, g);
}

/// Where nothing costs anything, nothing is spent.
proof fn nothing_spent(cost: Seq<real>, y: Seq<real>, n: int)
    requires
        0 <= n <= cost.len(),
        forall|q: int| 0 <= q < cost.len() ==> #[trigger] cost[q] == 0real,
    ensures
        expense(cost, y, n) == 0real,
    decreases n,
{
    if n > 0 {
        nothing_spent(cost, y, n - 1);
        let x = y[n - 1];
        assert(0real * x == 0real) by (nonlinear_arith);
    }
}

/// A lane for a flow is over one of the edges.
pub proof fn lane_edge_exists(own: Seq<EdgeRow>, flows: Seq<FlowRow>, q: int)
    requires
        0 <= q < lanes_of(own, flows).len(),
    ensures
        match lanes_of(own, flows)[q] {
            Lane::Flow { commodity, edge } => 0 <= commodity < commodities_of(flows).len() && 0
                <= edge < own.len(),
            Lane::Trunk { group, trunk } => 0 <= group < groups_of(flows).len() && 0 <= trunk
                < trunks(own).len(),
        },
{
    let commodities = commodities_of(flows);
    let f = |k: int|
        gather(
            own.len() as int,
            |j: int|
                if is_open_to(own[j], commodities[k]) {
                    seq![Lane::Flow { commodity: k, edge: j }]
                } else {
                    Seq::empty()
                },
        );
    let g = |g: int|
        gather(trunks(own).len() as int, |t: int| seq![Lane::Trunk { group: g, trunk: t }]);
    let first = gather(commodities.len() as int, f);
    if q < first.len() {
        let (k, m) = gather_member(commodities.len() as int, f, q);
        let h = |j: int|
            if is_open_to(own[j], commodities[k]) {
                seq![Lane::Flow { commodity: k, edge: j }]
            } else {
                Seq::empty()
            };
        assert(f(k) == gather(own.len() as int, h));
        let (j, z) = gather_member(own.len() as int, h, m);
    } else {
        let (k, m) = gather_member(groups_of(flows).len() as int, g, q - first.len());
        let h = |t: int| seq![Lane::Trunk { group: k, trunk: t }];
        assert(g(k) == gather(trunks(own).len() as int, h));
        let (t, z) = gather_member(trunks(own).len() as int, h, m);
    }
}

/// What a row of the inequalities, narrowed to a coalition, adds up to over its lanes.
proof fn row_total(
    out: LpBuilderOutput,
    rows: PrecomputedRows,
    edges: Seq<EdgeRow>,
    flows: Seq<FlowRow>,
    players: Seq<Seq<char>>,
    coalition: u32,
    y: Seq<real>,
    r: int,
    c: spec_fn(Lane) -> real,
)
    requires
        out.describes(edges, flows),
        rows.of(out),
        is_uniform(edges, flows),
        y.len() == lanes_of(own_edges(edges, players, coalition), flows).len(),
        0 <= r < out.a_ub.m,
        ({
            let lanes = lanes_of(own_edges(edges, players, coalition), flows);
            let near = masks_of(views(out.col_op1@), players);
            let far = masks_of(views(out.col_op2@), players);
            let list = usable_list(near, far, coalition);
            let keep = keep_list(edges, flows);
            forall|q: int|
                0 <= q < list.len() ==> #[trigger] column_sum(
                    inequality_cols(edges, flows)[keep[list[q] as int] as int],
                    r,
                    share_weight(),
                ) == c(lanes[q])
        }),
    ensures
        dot(
            narrowed(
                inner(rows.ub_rows@)[r],
                masks_of(views(out.col_op1@), players),
                masks_of(views(out.col_op2@), players),
                coalition,
            ),
            share_weight(),
            y,
        ) == lane_total(lanes_of(own_edges(edges, players, coalition), flows), c, y),
{
    let near = masks_of(views(out.col_op1@), players);
    let far = masks_of(views(out.col_op2@), players);
    let lanes = lanes_of(own_edges(edges, players, coalition), flows);
    let list = usable_list(near, far, coalition);
    let keep = keep_list(edges, flows);
    let cols = out.a_ub.cols();
    lanes_match(out, edges, flows, players, coalition);
    program_fits_together(out, edges, flows);
    let row = row_of(cols, r, cols.len() as int);
    assert(inner(rows.ub_rows@)[r] == row);
    narrowed_by_columns(cols, r, share_weight(), near, far, coalition, y);
    let sums = at_places(row_sums(cols, r, share_weight()), list);
    let wanted = Seq::new(lanes.len(), |q: int| c(lanes[q]));
    assert forall|q: int| 0 <= q < list.len() implies #[trigger] sums[q] == wanted[q] by {
        let col = keep[list[q] as int] as int;
        assert(lanes[q] == lane_at(edges, flows, players, coalition, col));
        assert(cols[list[q] as int] == inequality_cols(edges, flows)[col]);
        assert(column_sum(inequality_cols(edges, flows)[col], r, share_weight()) == c(lanes[q]));
    }
    assert(sums =~= wanted);
}

/// What a row of the inequalities adds up to over the lanes of a coalition.
proof fn inequality_total(
    program: CoalitionProgram,
    out: LpBuilderOutput,
    rows: PrecomputedRows,
    edges: Seq<EdgeRow>,
    flows: Seq<FlowRow>,
    players: Seq<Seq<char>>,
    coalition: u32,
    y: Seq<real>,
    k: int,
    c: spec_fn(Lane) -> real,
)
    requires
        out.describes(edges, flows),
        is_program_of(program, out, rows, players, coalition),
        is_uniform(edges, flows),
        y.len() == program.cols@.len(),
        0 <= k < program.ub_rows@.len(),
        ({
            let lanes = lanes_of(own_edges(edges, players, coalition), flows);
            let near = masks_of(views(out.col_op1@), players);
            let far = masks_of(views(out.col_op2@), players);
            let list = usable_list(near, far, coalition);
            let keep = keep_list(edges, flows);
            forall|q: int|
                0 <= q < list.len() ==> #[trigger] column_sum(
                    inequality_cols(edges, flows)[keep[list[q] as int] as int],
                    program.ub_places@[k] as int,
                    share_weight(),
                ) == c(lanes[q])
        }),
    ensures
        program.ub_places@[k] < out.a_ub.m,
        dot(program.ub_rows@[k]@, share_weight(), y) == lane_total(
            lanes_of(own_edges(edges, players, coalition), flows),
            c,
            y,
        ),
{
    let near = masks_of(views(out.col_op1@), players);
    let far = masks_of(views(out.col_op2@), players);
    let row1 = masks_of(views(out.row_op1@), players);
    let row2 = masks_of(views(out.row_op2@), players);
    let places = program.ub_places@;
    let r = places[k] as int;
    lanes_match(out, edges, flows, players, coalition);
    program_fits_together(out, edges, flows);
    rows_of_groups(edges, flows);
    every_row_has_operators(edges, flows);
    assert(program.ub_rows@.len() == inner(program.ub_rows@).len());
    assert(inner(rows.ub_rows@).len() == out.a_ub.m);
    let f = |i: int|
        if is_usable(row1, row2, coalition, i) {
            seq![i as usize]
        } else {
            Seq::empty()
        };
    let (at, z) = gather_member(row1.len() as int, f, k);
    assert(out.row_op1@.len() == views(out.row_op1@).len());
    assert(r == at);
    row_total(out, rows, edges, flows, players, coalition, y, r, c);
    assert(inner(program.ub_rows@)[k] == narrowed(inner(rows.ub_rows@)[r], near, far, coalition));
    assert(inner(program.ub_rows@)[k] == program.ub_rows@[k]@);
}

/// Each column of the coalition adds to the row of a group what its lane adds to the
/// group's load.
proof fn load_columns(
    out: LpBuilderOutput,
    edges: Seq<EdgeRow>,
    flows: Seq<FlowRow>,
    players: Seq<Seq<char>>,
    coalition: u32,
    r: int,
)
    requires
        out.describes(edges, flows),
        is_uniform(edges, flows),
        0 <= r < max_shared(edges),
        r < u32::MAX,
    ensures
        ({
            let own = own_edges(edges, players, coalition);
            let near = masks_of(views(out.col_op1@), players);
            let far = masks_of(views(out.col_op2@), players);
            let list = usable_list(near, far, coalition);
            let keep = keep_list(edges, flows);
            forall|q: int|
                0 <= q < list.len() ==> #[trigger] column_sum(
                    inequality_cols(edges, flows)[keep[list[q] as int] as int],
                    r,
                    share_weight(),
                ) == load_coefficient(own, flows, lanes_of(own, flows)[q], (r + 1) as u32)
        }),
{
    let own = own_edges(edges, players, coalition);
    let near = masks_of(views(out.col_op1@), players);
    let far = masks_of(views(out.col_op2@), players);
    let list = usable_list(near, far, coalition);
    let keep = keep_list(edges, flows);
    lanes_match(out, edges, flows, players, coalition);
    assert forall|q: int| 0 <= q < list.len() implies #[trigger] column_sum(
        inequality_cols(edges, flows)[keep[list[q] as int] as int],
        r,
        share_weight(),
    ) == load_coefficient(own, flows, lanes_of(own, flows)[q], (r + 1) as u32) by {
        let col = keep[list[q] as int] as int;
        assert(lanes_of(own, flows)[q] == lane_at(edges, flows, players, coalition, col));
        load_sum(edges, flows, players, coalition, col, r);
    }
}

/// The row of a group, kept by a coalition: what it adds up to, and its limit.
proof fn load_row(
    program: CoalitionProgram,
    out: LpBuilderOutput,
    rows: PrecomputedRows,
    edges: Seq<EdgeRow>,
    flows: Seq<FlowRow>,
    players: Seq<Seq<char>>,
    coalition: u32,
    worth: spec_fn(Real) -> real,
    y: Seq<real>,
    k: int,
) -> (j: int)
    requires
        out.describes(edges, flows),
        is_program_of(program, out, rows, players, coalition),
        is_uniform(edges, flows),
        y.len() == program.cols@.len(),
        0 <= k < program.ub_rows@.len(),
        program.ub_places@[k] < max_shared(edges),
    ensures
        ({
            let own = own_edges(edges, players, coalition);
            &&& opens_own_group(own, j)
            &&& own_limits(edges, players, coalition)(own[j].shared) == Some(own[j].bandwidth)
            &&& own[j].shared == program.ub_places@[k] + 1
            &&& dot(program.ub_rows@[k]@, share_weight(), y) == lane_total(
                lanes_of(own, flows),
                |lane: Lane| load_coefficient(own, flows, lane, own[j].shared),
                y,
            )
            &&& limits(out, worth)[program.ub_places@[k] as int] == worth(own[j].bandwidth)
        }),
{
    let own = own_edges(edges, players, coalition);
    let r = program.ub_places@[k] as int;
    let row1 = masks_of(views(out.row_op1@), players);
    let row2 = masks_of(views(out.row_op2@), players);
    let f = |i: int|
        if is_usable(row1, row2, coalition, i) {
            seq![i as usize]
        } else {
            Seq::empty()
        };
    assert(program.ub_rows@.len() == inner(program.ub_rows@).len());
    let (at, z) = gather_member(row1.len() as int, f, k);
    assert(is_usable(row1, row2, coalition, at));
    every_row_has_operators(edges, flows);
    rows_of_groups(edges, flows);
    assert(out.row_op1@.len() == views(out.row_op1@).len());
    assert(r == at);
    let top_at = max_shared_bounds(edges);
    count_bound(edges.len() as int, |i: int| !is_public(edges[i]));
    let x = group_first(edges, r);
    assert(opens_group(edges, edges[x].shared, x));
    opener_once(edges, edges[x].shared, x);
    band_row_operators(edges, flows, x, false);
    band_row_operators(edges, flows, x, true);
    assert(is_own(edges[x], players, coalition));
    own_places(edges, players, coalition);
    let p = own_at(edges, players, coalition);
    assert(p(x));
    let j = count_where(x, p) as int;
    own_first(edges, players, coalition, x);
    let group = own[j].shared;
    let c = |lane: Lane| load_coefficient(own, flows, lane, group);
    load_columns(out, edges, flows, players, coalition, r);
    inequality_total(program, out, rows, edges, flows, players, coalition, y, k, c);
    let private = edges.take(private_count(edges) as int);
    assert(out.b_ub@[r] == group_openers(private)[r].bandwidth);
    j
}

/// The first edge of the group of a row.
pub proof fn group_first(edges: Seq<EdgeRow>, r: int) -> (x: int)
    requires
        groups_numbered(edges),
        0 <= r < max_shared(edges),
        private_count(edges) <= edges.len(),
    ensures
        0 <= x < private_count(edges),
        edges[x].shared == r + 1,
        forall|i: int| 0 <= i < x ==> (#[trigger] edges[i]).shared != r + 1,
        group_openers(edges.take(private_count(edges) as int))[r] == edges[x],
{
    let private = edges.take(private_count(edges) as int);
    let ids = sorted_ids(used_ids(private));
    let id = ids[r];
    sorted_ids_exist(used_ids(private));
    assert(ids.contains(id));
    assert(used_ids(private).contains(id));
    let f = |i: int|
        if private[i].shared > 0 {
            seq![private[i].shared]
        } else {
            Seq::empty()
        };
    let m = choose|m: int| 0 <= m < used_ids(private).len() && used_ids(private)[m] == id;
    let (at, z) = gather_member(private.len() as int, f, m);
    let x = first_with(private, id, at);
    opener_once(private, id, x);
    assert forall|i: int| 0 <= i < x implies (#[trigger] edges[i]).shared != r + 1 by {
        assert(private[i] == edges[i]);
    }
    assert(private[x] == edges[x]);
    x
}

/// The first edge of a group, where it is at the coalition's disposal, is the first of
/// the group among the coalition's edges.
proof fn own_first(edges: Seq<EdgeRow>, players: Seq<Seq<char>>, coalition: u32, x: int)
    requires
        0 <= x < edges.len(),
        is_own(edges[x], players, coalition),
        edges[x].shared > 0,
        forall|i: int| 0 <= i < x ==> (#[trigger] edges[i]).shared != edges[x].shared,
    ensures
        opens_own_group(
            own_edges(edges, players, coalition),
            count_where(x, own_at(edges, players, coalition)) as int,
        ),
        own_edges(edges, players, coalition)[count_where(
            x,
            own_at(edges, players, coalition),
        ) as int] == edges[x],
{
    let own = own_edges(edges, players, coalition);
    let p = own_at(edges, players, coalition);
    own_places(edges, players, coalition);
    assert(p(x));
    let j = count_where(x, p) as int;
    assert forall|i: int| 0 <= i < j implies (#[trigger] own[i]).shared != own[j].shared by {
        let at = nth_place(x, p, i);
        assert(p(at));
        assert(own[count_where(at, p) as int] == edges[at]);
    }
}

/// The row of a tie, kept by a coalition: what it adds up to, and its limit.
proof fn tie_row(
    program: CoalitionProgram,
    out: LpBuilderOutput,
    rows: PrecomputedRows,
    edges: Seq<EdgeRow>,
    flows: Seq<FlowRow>,
    players: Seq<Seq<char>>,
    coalition: u32,
    worth: spec_fn(Real) -> real,
    y: Seq<real>,
    k: int,
) -> (r: (int, int))
    requires
        out.describes(edges, flows),
        is_program_of(program, out, rows, players, coalition),
        is_uniform(edges, flows),
        y.len() == program.cols@.len(),
        0 <= k < program.ub_rows@.len(),
        program.ub_places@[k] >= max_shared(edges),
    ensures
        ({
            let own = own_edges(edges, players, coalition);
            let (d, t) = r;
            &&& 0 <= d < flows.len() && is_heard(flows[d])
            &&& 0 <= t < trunks(own).len()
            &&& (dot(program.ub_rows@[k]@, share_weight(), y) <= limits(
                out,
                worth,
            )[program.ub_places@[k] as int]) == holds_tie(own, flows, worth, y, d, t)
        }),
{
    let own = own_edges(edges, players, coalition);
    let top = max_shared(edges);
    let place = program.ub_places@[k] as int;
    let row1 = masks_of(views(out.row_op1@), players);
    let row2 = masks_of(views(out.row_op2@), players);
    let f = |i: int|
        if is_usable(row1, row2, coalition, i) {
            seq![i as usize]
        } else {
            Seq::empty()
        };
    assert(program.ub_rows@.len() == inner(program.ub_rows@).len());
    let (at, z) = gather_member(row1.len() as int, f, k);
    assert(is_usable(row1, row2, coalition, at));
    every_row_has_operators(edges, flows);
    rows_of_groups(edges, flows);
    assert(out.row_op1@.len() == views(out.row_op1@).len());
    assert(place == at);
    let t_all = trunks(edges).len() as int;
    let heard = |i: int| is_heard(flows[i]);
    let total = heard_before(flows, flows.len() as int) as int;
    table_place(place - top, total, t_all);
    let (h, e) = ((place - top) / t_all, (place - top) % t_all);
    let d = nth_place(flows.len() as int, heard, h);
    assert(heard_before(flows, d) == h);
    tie_row_operators(edges, flows, d, e, false);
    tie_row_operators(edges, flows, d, e, true);
    let tp = own_trunk_at(edges, players, coalition);
    assert(tp(e));
    own_trunks(edges, players, coalition);
    let t = count_where(e, tp) as int;
    tie_row_total(program, out, rows, edges, flows, players, coalition, worth, y, k, d, e);
    (d, t)
}

/// What the row of a tie adds up to, and its limit.
proof fn tie_row_total(
    program: CoalitionProgram,
    out: LpBuilderOutput,
    rows: PrecomputedRows,
    edges: Seq<EdgeRow>,
    flows: Seq<FlowRow>,
    players: Seq<Seq<char>>,
    coalition: u32,
    worth: spec_fn(Real) -> real,
    y: Seq<real>,
    k: int,
    d: int,
    e: int,
)
    requires
        out.describes(edges, flows),
        is_program_of(program, out, rows, players, coalition),
        is_uniform(edges, flows),
        y.len() == program.cols@.len(),
        0 <= k < program.ub_rows@.len(),
        0 <= d < flows.len(),
        is_heard(flows[d]),
        0 <= e < trunks(edges).len(),
        own_trunk_at(edges, players, coalition)(e),
        program.ub_places@[k] == max_shared(edges) + heard_before(flows, d) * trunks(edges).len()
            + e,
    ensures
        (dot(program.ub_rows@[k]@, share_weight(), y) <= limits(
            out,
            worth,
        )[program.ub_places@[k] as int]) == holds_tie(
            own_edges(edges, players, coalition),
            flows,
            worth,
            y,
            d,
            count_where(e, own_trunk_at(edges, players, coalition)) as int,
        ),
{
    let own = own_edges(edges, players, coalition);
    let tp = own_trunk_at(edges, players, coalition);
    let t = count_where(e, tp) as int;
    let place = program.ub_places@[k] as int;
    let c = |lane: Lane| tie_coefficient(own, flows, lane, d, t);
    let near = masks_of(views(out.col_op1@), players);
    let far = masks_of(views(out.col_op2@), players);
    let list = usable_list(near, far, coalition);
    let keep = keep_list(edges, flows);
    lanes_match(out, edges, flows, players, coalition);
    assert forall|q: int| 0 <= q < list.len() implies #[trigger] column_sum(
        inequality_cols(edges, flows)[keep[list[q] as int] as int],
        place,
        share_weight(),
    ) == c(lanes_of(own, flows)[q]) by {
        let col = keep[list[q] as int] as int;
        assert(lanes_of(own, flows)[q] == lane_at(edges, flows, players, coalition, col));
        tie_sum(edges, flows, players, coalition, col, d, e);
    }
    inequality_total(program, out, rows, edges, flows, players, coalition, y, k, c);
    tie_row_place(edges, flows, d, e);
    let private = edges.take(private_count(edges) as int);
    assert(group_openers(private).len() == max_shared(edges));
    assert(out.b_ub@[place] == Real { bits: 0 });
}

/// A coalition keeps the row of every group among its edges in which it is limited.
proof fn group_row_kept(
    program: CoalitionProgram,
    out: LpBuilderOutput,
    rows: PrecomputedRows,
    edges: Seq<EdgeRow>,
    flows: Seq<FlowRow>,
    players: Seq<Seq<char>>,
    coalition: u32,
    j: int,
) -> (k: int)
    requires
        out.describes(edges, flows),
        is_program_of(program, out, rows, players, coalition),
        is_uniform(edges, flows),
        opens_own_group(own_edges(edges, players, coalition), j),
        led_groups(edges, players, coalition)(own_edges(edges, players, coalition)[j].shared),
    ensures
        0 <= k < program.ub_rows@.len(),
        program.ub_places@[k] == own_edges(edges, players, coalition)[j].shared - 1,
        program.ub_places@[k] < max_shared(edges),
{
    let own = own_edges(edges, players, coalition);
    let top_at = max_shared_bounds(edges);
    let given = |i: int|
        if is_own(edges[i], players, coalition) {
            seq![edges[i]]
        } else {
            Seq::empty()
        };
    let (x, z) = gather_member(edges.len() as int, given, j);
    assert(own[j] == edges[x] && is_own(edges[x], players, coalition));
    let r = edges[x].shared - 1;
    assert(edges[x].shared <= max_shared(edges));
    count_bound(edges.len() as int, |i: int| !is_public(edges[i]));
    // The group has a private edge; the first one is at the coalition's disposal.
    let w = group_first(edges, r);
    let lead = choose|i: int| #[trigger]
        opens_group(edges, edges[x].shared, i) && is_own(edges[i], players, coalition);
    assert(lead == w) by {
        if lead < w {
            assert(edges[lead].shared != r + 1);
        } else if w < lead {
            assert(edges[w].shared != edges[x].shared);
        }
    }
    assert(opens_group(edges, edges[w].shared, w));
    band_row_operators(edges, flows, w, false);
    band_row_operators(edges, flows, w, true);
    let row1 = masks_of(views(out.row_op1@), players);
    let row2 = masks_of(views(out.row_op2@), players);
    every_row_has_operators(edges, flows);
    rows_of_groups(edges, flows);
    assert(out.row_op1@.len() == views(out.row_op1@).len());
    assert(is_usable(row1, row2, coalition, r));
    kept_row_place(program, out, rows, players, coalition, r)
}

/// A row that a coalition keeps has a place among those it keeps.
proof fn kept_row_place(
    program: CoalitionProgram,
    out: LpBuilderOutput,
    rows: PrecomputedRows,
    players: Seq<Seq<char>>,
    coalition: u32,
    r: int,
) -> (k: int)
    requires
        is_program_of(program, out, rows, players, coalition),
        0 <= r < out.row_op1@.len(),
        is_usable(
            masks_of(views(out.row_op1@), players),
            masks_of(views(out.row_op2@), players),
            coalition,
            r,
        ),
    ensures
        0 <= k < program.ub_rows@.len(),
        program.ub_places@[k] == r,
{
    let row1 = masks_of(views(out.row_op1@), players);
    let row2 = masks_of(views(out.row_op2@), players);
    let f = |i: int|
        if is_usable(row1, row2, coalition, i) {
            seq![i as usize]
        } else {
            Seq::empty()
        };
    assert(out.row_op1@.len() == out.row_op1.len());
    assert(f(r) == seq![r as usize]);
    gather_holds(row1.len() as int, f, r, 0);
    assert(program.ub_rows@.len() == inner(program.ub_rows@).len());
    gather(r, f).len() as int
}

/// The points of a coalition's linear program are the routings over the edges at its
/// disposal, limited in the groups whose first edge is among them. What else the network
/// holds does not matter to it.
pub proof fn points_are_routings(
    program: CoalitionProgram,
    out: LpBuilderOutput,
    rows: PrecomputedRows,
    edges: Seq<EdgeRow>,
    flows: Seq<FlowRow>,
    players: Seq<Seq<char>>,
    coalition: u32,
    amount: spec_fn(int) -> real,
    worth: spec_fn(Real) -> real,
    y: Seq<real>,
)
    requires
        out.describes(edges, flows),
        is_program_of(program, out, rows, players, coalition),
        is_uniform(edges, flows),
    ensures
        program.cols@.len() == lanes_of(own_edges(edges, players, coalition), flows).len(),
        is_point(program, right_sides(out, amount), limits(out, worth), y) <==> is_routing(
            own_edges(edges, players, coalition),
            own_limits(edges, players, coalition),
            flows,
            amount,
            worth,
            y,
        ),
{
    let own = own_edges(edges, players, coalition);
    let bound = own_limits(edges, players, coalition);
    let lanes = lanes_of(own, flows);
    let nodes = node_names(edges, flows);
    let size = nodes.len() as int;
    let kk = commodities_of(flows).len() as int;
    let b_eq = right_sides(out, amount);
    let b_ub = limits(out, worth);
    lanes_match(out, edges, flows, players, coalition);
    if y.len() == lanes.len() {
        if is_point(program, b_eq, b_ub, y) {
            assert forall|k: int, v: Seq<char>| 0 <= k < kk implies #[trigger] balances(
                own,
                flows,
                amount,
                y,
                k,
                v,
            ) by {
                if nodes.contains(v) {
                    node_places(edges, flows);
                    let p = place(nodes, v);
                    equality_row(
                        program,
                        out,
                        rows,
                        edges,
                        flows,
                        players,
                        coalition,
                        amount,
                        y,
                        k,
                        p,
                    );
                    let r = k * nodes.len() + p;
                    assert(dot(program.eq_rows@[r]@, whole_weight(), y) == b_eq[r]);
                } else {
                    balances_elsewhere(edges, flows, players, coalition, amount, y, k, v);
                }
            }
            assert forall|j: int| #[trigger] opens_own_group(own, j) && bound(
                own[j].shared,
            ) is Some implies keeps_to(
                own,
                flows,
                worth,
                y,
                own[j].shared,
                bound(own[j].shared),
            ) by {
                let k = group_row_kept(
                    program,
                    out,
                    rows,
                    edges,
                    flows,
                    players,
                    coalition,
                    j,
                );
                let i = load_row(
                    program,
                    out,
                    rows,
                    edges,
                    flows,
                    players,
                    coalition,
                    worth,
                    y,
                    k,
                );
                assert(i == j) by {
                    if i < j {
                        assert(own[i].shared != own[j].shared);
                    } else if j < i {
                        assert(own[j].shared != own[i].shared);
                    }
                }
                assert(dot(program.ub_rows@[k]@, share_weight(), y)
                    <= b_ub[program.ub_places@[k] as int]);
            }
            assert forall|d: int, t: int|
                0 <= d < flows.len() && is_heard(flows[d]) && 0 <= t < trunks(
                    own,
                ).len() implies #[trigger] holds_tie(own, flows, worth, y, d, t) by {
                let tp = own_trunk_at(edges, players, coalition);
                own_trunks(edges, players, coalition);
                let e = nth_place(trunks(edges).len() as int, tp, t);
                tie_row_operators_here(edges, flows, d, e);
                let row = heard_before(flows, d) * trunks(edges).len() + e;
                let r = max_shared(edges) + row;
                assert(out.row_op1@.len() == views(out.row_op1@).len());
                assert(is_own(edges[trunks(edges)[e] as int], players, coalition)) by {
                    assert(tp(e));
                }
                let k = kept_row_place(program, out, rows, players, coalition, r);
                tie_row_total(
                    program,
                    out,
                    rows,
                    edges,
                    flows,
                    players,
                    coalition,
                    worth,
                    y,
                    k,
                    d,
                    e,
                );
                assert(dot(program.ub_rows@[k]@, share_weight(), y)
                    <= b_ub[program.ub_places@[k] as int]);
            }
        }
        if is_routing(own, bound, flows, amount, worth, y) {
            assert forall|r: int| 0 <= r < program.eq_rows@.len() implies dot(
                (#[trigger] program.eq_rows@[r])@,
                whole_weight(),
                y,
            ) == b_eq[r] by {
                assert(program.eq_rows@.len() == inner(program.eq_rows@).len());
                assert(inner(rows.eq_rows@).len() == out.a_eq.m);
                assert(size * kk == kk * size) by (nonlinear_arith);
                table_place(r, kk, size);
                let (k, p) = (r / size, r % size);
                equality_row(
                    program,
                    out,
                    rows,
                    edges,
                    flows,
                    players,
                    coalition,
                    amount,
                    y,
                    k,
                    p,
                );
                assert(balances(own, flows, amount, y, k, nodes[p]));
            }
            assert forall|k: int| 0 <= k < program.ub_rows@.len() implies dot(
                (#[trigger] program.ub_rows@[k])@,
                share_weight(),
                y,
            ) <= b_ub[program.ub_places@[k] as int] by {
                if program.ub_places@[k] < max_shared(edges) {
                    let j = load_row(
                        program,
                        out,
                        rows,
                        edges,
                        flows,
                        players,
                        coalition,
                        worth,
                        y,
                        k,
                    );
                    assert(opens_own_group(own, j));
                    assert(keeps_to(own, flows, worth, y, own[j].shared, bound(own[j].shared)));
                } else {
                    let (d, t) = tie_row(
                        program,
                        out,
                        rows,
                        edges,
                        flows,
                        players,
                        coalition,
                        worth,
                        y,
                        k,
                    );
                    assert(holds_tie(own, flows, worth, y, d, t));
                }
            }
        }
    }
}

/// The row of a tie has the operators of its trunk at both ends.
pub proof fn tie_row_operators_here(edges: Seq<EdgeRow>, flows: Seq<FlowRow>, d: int, e: int)
    requires
        is_uniform(edges, flows),
        0 <= d < flows.len(),
        is_heard(flows[d]),
        0 <= e < trunks(edges).len(),
    ensures
        ({
            let row = heard_before(flows, d) * trunks(edges).len() + e;
            let edge = edges[trunks(edges)[e] as int];
            let r = max_shared(edges) + row;
            &&& 0 <= r < row_operators(edges, flows, false).len()
            &&& r < row_operators(edges, flows, true).len()
            &&& row_operators(edges, flows, false)[r] == edge.operator1
            &&& row_operators(edges, flows, true)[r] == edge.operator2
        }),
{
    tie_row_operators(edges, flows, d, e, false);
    tie_row_operators(edges, flows, d, e, true);
    let at = max_shared_bounds(edges);
}

/// Lanes that count for nothing come to nothing.
proof fn nothing_counts_up(cost: Seq<real>, y: Seq<real>, n: int)
    requires
        0 <= n <= cost.len(),
        forall|q: int| 0 <= q < n ==> #[trigger] cost[q] == 0real,
    ensures
        expense(cost, y, n) == 0real,
    decreases n,
{
    if n > 0 {
        nothing_counts_up(cost, y, n - 1);
        let (c, x) = (cost[n - 1], y[n - 1]);
        assert(c * x == 0real) by (nonlinear_arith)
            requires
                c == 0real,
        ;
    }
}

/// The row of a group in the whole network: what it adds up to with the columns outside a
/// coalition held at zero, and its limit.
proof fn pinned_load(
    out: LpBuilderOutput,
    rows: PrecomputedRows,
    edges: Seq<EdgeRow>,
    flows: Seq<FlowRow>,
    players: Seq<Seq<char>>,
    coalition: u32,
    worth: spec_fn(Real) -> real,
    y: Seq<real>,
    r: int,
)
    requires
        out.describes(edges, flows),
        rows.of(out),
        is_uniform(edges, flows),
        y.len() == lanes_of(own_edges(edges, players, coalition), flows).len(),
        0 <= r < max_shared(edges),
    ensures
        r < rows.ub_rows@.len(),
        r < u32::MAX,
        (dot(
            rows.ub_rows@[r]@,
            share_weight(),
            spread(
                masks_of(views(out.col_op1@), players),
                masks_of(views(out.col_op2@), players),
                coalition,
                y,
            ),
        ) <= limits(out, worth)[r]) == keeps_to(
            own_edges(edges, players, coalition),
            flows,
            worth,
            y,
            (r + 1) as u32,
            all_limits(edges)((r + 1) as u32),
        ),
        limits(out, worth)[r] == worth(all_limits(edges)((r + 1) as u32)->0),
{
    let own = own_edges(edges, players, coalition);
    let near = masks_of(views(out.col_op1@), players);
    let far = masks_of(views(out.col_op2@), players);
    let at = max_shared_bounds(edges);
    count_bound(edges.len() as int, |i: int| !is_public(edges[i]));
    rows_of_groups(edges, flows);
    every_row_has_operators(edges, flows);
    program_fits_together(out, edges, flows);
    rows_name_columns(out.a_ub.cols(), out.a_ub.m as int);
    let x = group_first(edges, r);
    assert(edges[x].shared <= edges[at].shared);
    assert(opens_group(edges, (r + 1) as u32, x));
    opener_once(edges, (r + 1) as u32, x);
    assert(inner(rows.ub_rows@).len() == rows.ub_rows@.len());
    assert(heard_before(flows, flows.len() as int) * trunks(edges).len() as int >= 0)
        by (nonlinear_arith);
    load_columns(out, edges, flows, players, coalition, r);
    let c = |lane: Lane| load_coefficient(own, flows, lane, (r + 1) as u32);
    row_total(out, rows, edges, flows, players, coalition, y, r, c);
    let row = inner(rows.ub_rows@)[r];
    assert(row == rows.ub_rows@[r]@);
    assert forall|i: int| 0 <= i < row.len() implies (#[trigger] row[i]).0 < near.len() by {
        assert(inner(rows.ub_rows@)[r][i].0 < out.a_ub.n);
    }
    narrowed_dot(row, share_weight(), near, far, coalition, y, row.len() as int);
    assert(row.take(row.len() as int) =~= row);
    let private = edges.take(private_count(edges) as int);
    assert(out.b_ub@[r] == group_openers(private)[r].bandwidth);
}

/// An edge of a coalition has a group within those there are.
proof fn own_edge_found(edges: Seq<EdgeRow>, players: Seq<Seq<char>>, coalition: u32, j: int)
    requires
        0 <= j < own_edges(edges, players, coalition).len(),
    ensures
        own_edges(edges, players, coalition)[j].shared <= max_shared(edges),
{
    let given = |i: int|
        if is_own(edges[i], players, coalition) {
            seq![edges[i]]
        } else {
            Seq::empty()
        };
    let (x, z) = gather_member(edges.len() as int, given, j);
    let at = max_shared_bounds(edges);
    assert(edges[x].shared <= max_shared(edges));
}

/// The points of one model for all coalitions, with the columns outside a coalition held
/// at zero, are the routings over the edges at its disposal under the limits of the whole
/// network. No limit may lie below zero.
pub proof fn pinned_points_are_routings(
    program: CoalitionProgram,
    out: LpBuilderOutput,
    rows: PrecomputedRows,
    edges: Seq<EdgeRow>,
    flows: Seq<FlowRow>,
    players: Seq<Seq<char>>,
    coalition: u32,
    amount: spec_fn(int) -> real,
    worth: spec_fn(Real) -> real,
    y: Seq<real>,
)
    requires
        out.describes(edges, flows),
        is_program_of(program, out, rows, players, coalition),
        is_uniform(edges, flows),
        y.len() == program.cols@.len(),
        forall|r: int| 0 <= r < out.a_ub.m ==> #[trigger] limits(out, worth)[r] >= 0real,
    ensures
        is_pinned_point(
            rows,
            masks_of(views(out.col_op1@), players),
            masks_of(views(out.col_op2@), players),
            coalition,
            right_sides(out, amount),
            limits(out, worth),
            spread(
                masks_of(views(out.col_op1@), players),
                masks_of(views(out.col_op2@), players),
                coalition,
                y,
            ),
        ) <==> is_routing(
            own_edges(edges, players, coalition),
            all_limits(edges),
            flows,
            amount,
            worth,
            y,
        ),
{
    let own = own_edges(edges, players, coalition);
    let near = masks_of(views(out.col_op1@), players);
    let far = masks_of(views(out.col_op2@), players);
    let row1 = masks_of(views(out.row_op1@), players);
    let row2 = masks_of(views(out.row_op2@), players);
    let b_eq = right_sides(out, amount);
    let b_ub = limits(out, worth);
    let x = spread(near, far, coalition, y);
    let top = max_shared(edges);
    let at = max_shared_bounds(edges);
    let (some, all) = (own_limits(edges, players, coalition), all_limits(edges));
    program_fits_together(out, edges, flows);
    rows_name_columns(out.a_eq.cols(), out.a_eq.m as int);
    rows_name_columns(out.a_ub.cols(), out.a_ub.m as int);
    assert(inner(rows.ub_rows@).len() == rows.ub_rows@.len());
    assert(near.len() == out.a_eq.n);
    assert(row1.len() == rows.ub_rows@.len()) by {
        every_row_has_operators(edges, flows);
        assert(out.row_op1@.len() == views(out.row_op1@).len());
    }
    pinning_keeps_all_rows(program, rows, coalition, near, far, row1, row2, b_eq, b_ub, y);
    points_are_routings(
        program,
        out,
        rows,
        edges,
        flows,
        players,
        coalition,
        amount,
        worth,
        y,
    );
    if is_pinned_point(rows, near, far, coalition, b_eq, b_ub, x) {
        assert forall|j: int| #[trigger] opens_own_group(own, j) implies keeps_to(
            own,
            flows,
            worth,
            y,
            own[j].shared,
            all(own[j].shared),
        ) by {
            let r = own[j].shared - 1;
            own_edge_found(edges, players, coalition, j);
            pinned_load(out, rows, edges, flows, players, coalition, worth, y, r);
            assert(dot(rows.ub_rows@[r]@, share_weight(), x) <= b_ub[r]);
        }
    }
    if is_routing(own, all, flows, amount, worth, y) {
        assert forall|j: int| #[trigger] opens_own_group(own, j) implies keeps_to(
            own,
            flows,
            worth,
            y,
            own[j].shared,
            some(own[j].shared),
        ) by {
            assert(keeps_to(own, flows, worth, y, own[j].shared, all(own[j].shared)));
        }
        assert(is_routing(own, some, flows, amount, worth, y));
        assert forall|r: int|
            0 <= r < rows.ub_rows@.len() && !is_usable(row1, row2, coalition, r) implies dot(
            (#[trigger] rows.ub_rows@[r])@,
            share_weight(),
            x,
        ) <= b_ub[r] by {
            assert(b_ub[r] >= 0real);
            if r >= top {
                dropped_rows_are_idle(out, rows, edges, flows, players, coalition, r);
                let row = rows.ub_rows@[r]@;
                assert forall|i: int| 0 <= i < row.len() implies (#[trigger] row[i]).0
                    < near.len() by {
                    assert(inner(rows.ub_rows@)[r][i].0 < out.a_ub.n);
                }
                idle_dot(row, near, far, coalition, y);
            } else {
                pinned_load(out, rows, edges, flows, players, coalition, worth, y, r);
                let id = (r + 1) as u32;
                if exists|j: int| 0 <= j < own.len() && (#[trigger] own[j]).shared == id {
                    let k = choose|k: int| 0 <= k < own.len() && (#[trigger] own[k]).shared == id;
                    let j = first_with(own, id, k);
                    assert(opens_own_group(own, j));
                    assert(keeps_to(own, flows, worth, y, own[j].shared, all(own[j].shared)));
                } else {
                    let lanes = lanes_of(own, flows);
                    let c = |lane: Lane| load_coefficient(own, flows, lane, id);
                    let cost = Seq::new(lanes.len(), |q: int| c(lanes[q]));
                    own_places(edges, players, coalition);
                    count_bound(edges.len() as int, own_at(edges, players, coalition));
                    trunks_are_edges(own);
                    assert forall|q: int| 0 <= q < lanes.len() implies #[trigger] cost[q]
                        == 0real by {
                        lane_edge_exists(own, flows, q);
                    }
                    nothing_counts_up(cost, y, lanes.len() as int);
                }
            }
        }
    }
}

} // verus!
