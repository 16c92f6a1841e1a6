//! What carries over to a network that differs from another in some latencies and
//! bandwidths.
use crate::consolidation::links::used_ids;
use crate::constants::{OP_PRIVATE, OP_PUBLIC};
use crate::lists::{count_same, gather, gather_member, gather_same, sorted_ids};
use crate::lp_builder::{
    bandwidth_cols, column_operators, commodities_of, equality_cols, flags_of, gather_at,
    gather_len, group_opener, group_openers, groups_of, incidence, inequality_cols, inner,
    is_open_to, is_plain, is_public, is_trunk, keep_exists, keep_list, kept_len, max_shared,
    node_names, opens_group, operator_at, operators_at, operators_len, plains, private_count,
    row_operators, single_cols, sizes_fit, tolls, trunk_columns, trunks, LpBuilderOutput, Toll,
};
use crate::multicast::{group_column, j1_cols, j2_cols, occurrences};
use crate::shapley::{gate_of, mask_of, player_bit};
use crate::solver::{belongs, is_usable};
use crate::text::{place, views};
use crate::types::{EdgeRow, FlowRow};
use vstd::prelude::*;

verus! {

/// Two edges differ at most in latency and bandwidth.
pub open spec fn same_shape(a: EdgeRow, b: EdgeRow) -> bool {
    &&& a.device1 == b.device1
    &&& a.device2 == b.device2
    &&& a.operator1 == b.operator1
    &&& a.operator2 == b.operator2
    &&& a.shared == b.shared
    &&& a.link_type == b.link_type
}

/// The edges of two networks differ at most in latency and bandwidth.
pub open spec fn shapes_agree(a: Seq<EdgeRow>, b: Seq<EdgeRow>) -> bool {
    a.len() == b.len() && forall|i: int| 0 <= i < a.len() ==> same_shape(#[trigger] a[i], b[i])
}

/// The largest group is the same.
proof fn max_shared_agrees(a: Seq<EdgeRow>, b: Seq<EdgeRow>)
    requires
        shapes_agree(a, b),
    ensures
        max_shared(a) == max_shared(b),
    decreases a.len(),
{
    if a.len() > 0 {
        let (x, y) = (a.drop_last(), b.drop_last());
        assert forall|i: int| 0 <= i < x.len() implies same_shape(#[trigger] x[i], y[i]) by {
            assert(same_shape(a[i], b[i]));
        }
        max_shared_agrees(x, y);
        assert(same_shape(a[a.len() - 1], b[a.len() - 1]));
    }
}

/// Which edges are private, and how they carry multicast, is the same.
proof fn kinds_of_edges_agree(a: Seq<EdgeRow>, b: Seq<EdgeRow>)
    requires
        shapes_agree(a, b),
    ensures
        trunks(a) == trunks(b),
        plains(a) == plains(b),
        private_count(a) == private_count(b),
{
    let n = a.len() as int;
    let (t1, t2) = (
        |i: int|
            if is_trunk(a[i]) {
                seq![i as usize]
            } else {
                Seq::empty()
            },
        |i: int|
            if is_trunk(b[i]) {
                seq![i as usize]
            } else {
                Seq::empty()
            },
    );
    assert forall|i: int| 0 <= i < n implies #[trigger] t1(i) == t2(i) by {
        assert(same_shape(a[i], b[i]));
    }
    gather_same(n, t1, t2);
    let (p1, p2) = (
        |i: int|
            if is_plain(a[i]) {
                seq![i as usize]
            } else {
                Seq::empty()
            },
        |i: int|
            if is_plain(b[i]) {
                seq![i as usize]
            } else {
                Seq::empty()
            },
    );
    assert forall|i: int| 0 <= i < n implies #[trigger] p1(i) == p2(i) by {
        assert(same_shape(a[i], b[i]));
    }
    gather_same(n, p1, p2);
    let (c1, c2) = (|i: int| !is_public(a[i]), |i: int| !is_public(b[i]));
    assert forall|i: int| 0 <= i < n implies #[trigger] c1(i) == c2(i) by {
        assert(same_shape(a[i], b[i]));
    }
    count_same(n, c1, c2);
}

/// The nodes and the columns of one commodity are the same.
proof fn nodes_agree(a: Seq<EdgeRow>, b: Seq<EdgeRow>, flows: Seq<FlowRow>)
    requires
        shapes_agree(a, b),
    ensures
        node_names(a, flows) == node_names(b, flows),
        single_cols(a, node_names(a, flows)) == single_cols(b, node_names(b, flows)),
{
    let n = a.len() as int;
    let f = |i: int| seq![a[i].device1, a[i].device2];
    let g = |i: int| seq![b[i].device1, b[i].device2];
    assert forall|i: int| 0 <= i < n implies #[trigger] f(i) == g(i) by {
        assert(same_shape(a[i], b[i]));
    }
    gather_same(n, f, g);
    let nodes = node_names(a, flows);
    assert forall|j: int| 0 <= j < n implies incidence(#[trigger] a[j], nodes) == incidence(
        b[j],
        nodes,
    ) by {
        assert(same_shape(a[j], b[j]));
    }
    assert(single_cols(a, nodes) =~= single_cols(b, nodes));
}

/// The columns of the bandwidth constraints are the same.
proof fn bandwidth_agrees(a: Seq<EdgeRow>, b: Seq<EdgeRow>, flows: Seq<FlowRow>)
    requires
        shapes_agree(a, b),
    ensures
        bandwidth_cols(a, flags_of(flows), groups_of(flows).len() as int) == bandwidth_cols(
            b,
            flags_of(flows),
            groups_of(flows).len() as int,
        ),
{
    max_shared_agrees(a, b);
    kinds_of_edges_agree(a, b);
    let top = max_shared(a);
    let p = private_count(a) as int;
    let (x, y) = (j1_cols(a, p, top), j1_cols(b, p, top));
    assert forall|j: int| 0 <= j < a.len() implies #[trigger] x[j] == y[j] by {
        assert(same_shape(a[j], b[j]));
        let times: nat = if j < p {
            1
        } else {
            0
        };
        assert(group_column(a[j], top, times) =~= group_column(b[j], top, times));
    }
    assert(x =~= y);
    let (u, v) = (j2_cols(a, plains(a), top), j2_cols(b, plains(a), top));
    assert forall|j: int| 0 <= j < a.len() implies #[trigger] u[j] == v[j] by {
        assert(same_shape(a[j], b[j]));
        let times = occurrences(plains(a), j);
        assert(group_column(a[j], top, times) =~= group_column(b[j], top, times));
    }
    assert(u =~= v);
}

/// The columns that are kept are the same.
proof fn keep_agrees(a: Seq<EdgeRow>, b: Seq<EdgeRow>, flows: Seq<FlowRow>)
    requires
        shapes_agree(a, b),
    ensures
        keep_list(a, flows) == keep_list(b, flows),
{
    kinds_of_edges_agree(a, b);
    let commodities = commodities_of(flows);
    let n = a.len() as int;
    let f = |k: int|
        gather(
            n,
            |i: int|
                if is_open_to(a[i], commodities[k]) {
                    seq![(i + k * a.len()) as usize]
                } else {
                    Seq::empty()
                },
        );
    let g = |k: int|
        gather(
            n,
            |i: int|
                if is_open_to(b[i], commodities[k]) {
                    seq![(i + k * b.len()) as usize]
                } else {
                    Seq::empty()
                },
        );
    assert forall|k: int| 0 <= k < commodities.len() implies #[trigger] f(k) == g(k) by {
        let x = |i: int|
            if is_open_to(a[i], commodities[k]) {
                seq![(i + k * a.len()) as usize]
            } else {
                Seq::empty()
            };
        let y = |i: int|
            if is_open_to(b[i], commodities[k]) {
                seq![(i + k * b.len()) as usize]
            } else {
                Seq::empty()
            };
        assert forall|i: int| 0 <= i < n implies #[trigger] x(i) == y(i) by {
            assert(same_shape(a[i], b[i]));
        }
        gather_same(n, x, y);
    }
    gather_same(commodities.len() as int, f, g);
    assert(keep_list(a, flows) =~= keep_list(b, flows));
}

/// The operators of the columns are the same.
proof fn operators_agree(
    a: Seq<EdgeRow>,
    b: Seq<EdgeRow>,
    n_commodities: int,
    n_groups: int,
    far: bool,
)
    requires
        shapes_agree(a, b),
    ensures
        operators_at(a, trunks(a), far) == operators_at(b, trunks(b), far),
        column_operators(a, n_commodities, trunks(a), n_groups, far) == column_operators(
            b,
            n_commodities,
            trunks(b),
            n_groups,
            far,
        ),
{
    kinds_of_edges_agree(a, b);
    let places = trunks(a);
    let f = |e: int|
        if places[e] < a.len() {
            seq![operator_at(a[places[e] as int], far)]
        } else {
            Seq::empty()
        };
    let g = |e: int|
        if places[e] < b.len() {
            seq![operator_at(b[places[e] as int], far)]
        } else {
            Seq::empty()
        };
    assert forall|e: int| 0 <= e < places.len() implies #[trigger] f(e) == g(e) by {
        if places[e] < a.len() {
            assert(same_shape(a[places[e] as int], b[places[e] as int]));
        }
    }
    gather_same(places.len() as int, f, g);
    let x = |k: int| Seq::new(a.len(), |i: int| operator_at(a[i], far));
    let y = |k: int| Seq::new(b.len(), |i: int| operator_at(b[i], far));
    assert forall|k: int| 0 <= k < n_commodities implies #[trigger] x(k) == y(k) by {
        assert forall|i: int| 0 <= i < a.len() implies operator_at(#[trigger] a[i], far)
            == operator_at(b[i], far) by {
            assert(same_shape(a[i], b[i]));
        }
        assert(x(k) =~= y(k));
    }
    gather_same(n_commodities, x, y);
    let u = |k: int| operators_at(a, trunks(a), far);
    let v = |k: int| operators_at(b, trunks(b), far);
    gather_same(n_groups, u, v);
}

/// The first edges of the bandwidth groups stand in the same places.
proof fn openers_agree(a: Seq<EdgeRow>, b: Seq<EdgeRow>, r: int) -> (i: int)
    requires
        shapes_agree(a, b),
        crate::lists::sorted_of(sorted_ids(used_ids(a)), used_ids(a)),
        0 <= r < group_openers(a).len(),
    ensures
        0 <= i < a.len(),
        group_openers(b).len() == group_openers(a).len(),
        group_openers(a)[r] == a[i],
        group_openers(b)[r] == b[i],
{
    used_agree(a, b);
    let ids = sorted_ids(used_ids(a));
    let id = ids[r];
    let f = |i: int|
        if a[i].shared > 0 {
            seq![a[i].shared]
        } else {
            Seq::empty()
        };
    assert(ids.contains(id));
    assert(used_ids(a).contains(id));
    let m = choose|m: int| 0 <= m < used_ids(a).len() && used_ids(a)[m] == id;
    let (at, z) = gather_member(a.len() as int, f, m);
    assert(a[at].shared == id);
    let i = first_with(a, id, at);
    assert(opens_group(a, id, i));
    assert(opens_group(b, id, i)) by {
        assert(same_shape(a[i], b[i]));
        assert forall|k: int| 0 <= k < i implies (#[trigger] b[k]).shared != id by {
            assert(same_shape(a[k], b[k]));
        }
    }
    opener_once(a, id, i);
    opener_once(b, id, i);
    i
}

/// The first edge of a group, at or before one of it.
pub proof fn first_with(edges: Seq<EdgeRow>, id: u32, at: int) -> (i: int)
    requires
        0 <= at < edges.len(),
        edges[at].shared == id,
    ensures
        opens_group(edges, id, i),
    decreases at,
{
    if exists|k: int| 0 <= k < at && (#[trigger] edges[k]).shared == id {
        let k = choose|k: int| 0 <= k < at && (#[trigger] edges[k]).shared == id;
        first_with(edges, id, k)
    } else {
        at
    }
}

/// A group has one first edge.
pub proof fn opener_once(edges: Seq<EdgeRow>, id: u32, i: int)
    requires
        opens_group(edges, id, i),
    ensures
        group_opener(edges, id) == edges[i],
{
    let c = choose|c: int| opens_group(edges, id, c);
    if c < i {
        assert(edges[c].shared != id);
    } else if i < c {
        assert(edges[i].shared != id);
    }
}

/// The groups in use are the same.
proof fn used_agree(a: Seq<EdgeRow>, b: Seq<EdgeRow>)
    requires
        shapes_agree(a, b),
    ensures
        used_ids(a) == used_ids(b),
{
    let f = |i: int|
        if a[i].shared > 0 {
            seq![a[i].shared]
        } else {
            Seq::empty()
        };
    let g = |i: int|
        if b[i].shared > 0 {
            seq![b[i].shared]
        } else {
            Seq::empty()
        };
    assert forall|i: int| 0 <= i < a.len() implies #[trigger] f(i) == g(i) by {
        assert(same_shape(a[i], b[i]));
    }
    gather_same(a.len() as int, f, g);
}

/// The operator is a player with a bit of its own.
pub open spec fn has_bit(operator: Seq<char>, players: Seq<Seq<char>>) -> bool {
    &&& players.contains(operator)
    &&& operator != OP_PUBLIC@
    &&& operator != OP_PRIVATE@
    &&& operator.len() > 0
}

/// An edge that changed belongs to a player that is named as changed.
pub open spec fn change_is_named(
    a: EdgeRow,
    b: EdgeRow,
    changed: Seq<Seq<char>>,
    players: Seq<Seq<char>>,
) -> bool {
    a == b || (changed.contains(a.operator1) && has_bit(a.operator1, players)) || (
    changed.contains(a.operator2) && has_bit(a.operator2, players))
}

/// The bits of the players that changed hold that of each one named.
proof fn gate_holds(changed: Seq<Seq<char>>, players: Seq<Seq<char>>, operator: Seq<char>)
    requires
        changed.contains(operator),
        players.contains(operator),
    ensures
        gate_of(changed, players) & player_bit(place(players, operator)) == player_bit(
            place(players, operator),
        ),
    decreases changed.len(),
{
    let bit = player_bit(place(players, operator));
    let front = changed.drop_last();
    let last = changed.last();
    let more = if players.contains(last) {
        player_bit(place(players, last))
    } else {
        0u32
    };
    let rest = gate_of(front, players);
    if last == operator {
        assert((rest | bit) & bit == bit) by (bit_vector);
    } else {
        let i = choose|i: int| 0 <= i < changed.len() && changed[i] == operator;
        assert(front[i] == operator);
        gate_holds(front, players, operator);
        assert((rest | more) & bit == bit) by (bit_vector)
            requires
                rest & bit == bit,
        ;
    }
}

/// A coalition without the bits of the players that changed holds none of them.
pub proof fn gate_keeps_out(
    changed: Seq<Seq<char>>,
    players: Seq<Seq<char>>,
    operator: Seq<char>,
    coalition: u32,
)
    requires
        changed.contains(operator),
        has_bit(operator, players),
        coalition & gate_of(changed, players) == 0,
    ensures
        !belongs(mask_of(operator, players), coalition),
{
    gate_holds(changed, players, operator);
    let bit = player_bit(place(players, operator));
    let gate = gate_of(changed, players);
    assert(bit & coalition == 0) by (bit_vector)
        requires
            gate & bit == bit,
            coalition & gate == 0,
    ;
}

/// The bits of listed operators.
pub open spec fn masks_of(operators: Seq<Seq<char>>, players: Seq<Seq<char>>) -> Seq<u32> {
    operators.map_values(|op: Seq<char>| mask_of(op, players))
}

/// The matrices, right sides of equalities, operators and places of costs are the same
/// for two networks that differ in latencies and bandwidths only.
pub proof fn structure_carries_over(
    out1: LpBuilderOutput,
    out2: LpBuilderOutput,
    edges1: Seq<EdgeRow>,
    edges2: Seq<EdgeRow>,
    flows: Seq<FlowRow>,
)
    requires
        shapes_agree(edges1, edges2),
        out1.describes(edges1, flows),
        out2.describes(edges2, flows),
    ensures
        out1.a_eq.m == out2.a_eq.m && out1.a_eq.cols() == out2.a_eq.cols(),
        out1.a_ub.m == out2.a_ub.m && out1.a_ub.cols() == out2.a_ub.cols(),
        inner(out1.b_eq@) == inner(out2.b_eq@),
        out1.cost@ == out2.cost@,
        views(out1.col_op1@) == views(out2.col_op1@),
        views(out1.col_op2@) == views(out2.col_op2@),
        views(out1.row_op1@) == views(out2.row_op1@),
        views(out1.row_op2@) == views(out2.row_op2@),
{
    let (a, b) = (edges1, edges2);
    max_shared_agrees(a, b);
    kinds_of_edges_agree(a, b);
    nodes_agree(a, b, flows);
    bandwidth_agrees(a, b, flows);
    keep_agrees(a, b, flows);
    assert(equality_cols(a, flows) =~= equality_cols(b, flows));
    assert(inequality_cols(a, flows) =~= inequality_cols(b, flows));
    let k = commodities_of(flows).len() as int;
    let g = groups_of(flows).len() as int;
    operators_agree(a, b, k, g, false);
    operators_agree(a, b, k, g, true);
    row_operators_agree(a, b, flows, false);
    row_operators_agree(a, b, flows, true);
}

/// The operators of the rows are the same.
proof fn row_operators_agree(a: Seq<EdgeRow>, b: Seq<EdgeRow>, flows: Seq<FlowRow>, far: bool)
    requires
        shapes_agree(a, b),
    ensures
        row_operators(a, flows, far) == row_operators(b, flows, far),
        group_openers(a.take(private_count(a) as int)).len() == group_openers(
            b.take(private_count(b) as int),
        ).len(),
{
    kinds_of_edges_agree(a, b);
    crate::lists::count_bound(a.len() as int, |i: int| !is_public(a[i]));
    let n = private_count(a) as int;
    let (x, y) = (a.take(n), b.take(n));
    assert(shapes_agree(x, y)) by {
        assert forall|i: int| 0 <= i < x.len() implies same_shape(#[trigger] x[i], y[i]) by {
            assert(same_shape(a[i], b[i]));
        }
    }
    used_agree(x, y);
    crate::lists::sorted_ids_exist(used_ids(x));
    let (p, q) = (group_openers(x), group_openers(y));
    assert forall|r: int| 0 <= r < p.len() implies operator_at(#[trigger] p[r], far)
        == operator_at(q[r], far) by {
        let i = openers_agree(x, y, r);
        assert(same_shape(x[i], y[i]));
    }
    assert(p.map_values(|e: EdgeRow| operator_at(e, far)) =~= q.map_values(
        |e: EdgeRow| operator_at(e, far),
    ));
    operators_agree(a, b, 0, 0, far);
    let u = |m: int| operators_at(a, trunks(a), far);
    let v = |m: int| operators_at(b, trunks(b), far);
    gather_same(crate::lp_builder::multicast_count(flows) as int, u, v);
}

/// A coalition without any player that owns a change has the same linear program as
/// before: its columns cost the same.
pub proof fn costs_carry_over(
    out: LpBuilderOutput,
    edges1: Seq<EdgeRow>,
    edges2: Seq<EdgeRow>,
    flows: Seq<FlowRow>,
    changed: Seq<Seq<char>>,
    players: Seq<Seq<char>>,
    coalition: u32,
    q: int,
)
    requires
        shapes_agree(edges1, edges2),
        out.describes(edges1, flows),
        sizes_fit(edges1, flows),
        edges1.len() <= usize::MAX,
        forall|i: int|
            0 <= i < edges1.len() ==> change_is_named(
                #[trigger] edges1[i],
                edges2[i],
                changed,
                players,
            ),
        coalition & gate_of(changed, players) == 0,
        0 <= q < out.cost@.len(),
        is_usable(
            masks_of(views(out.col_op1@), players),
            masks_of(views(out.col_op2@), players),
            coalition,
            q,
        ),
    ensures
        out.cost@[q] matches Some(toll) ==> toll.link < edges1.len() && edges1[toll.link as int]
            == edges2[toll.link as int],
{
    let n = edges1.len() as int;
    let k = commodities_of(flows).len() as int;
    let g = groups_of(flows).len() as int;
    let keep = keep_list(edges1, flows);
    let all = tolls(n, k, trunk_columns(edges1, flows));
    let near = column_operators(edges1, k, trunks(edges1), g, false);
    let far = column_operators(edges1, k, trunks(edges1), g, true);
    keep_exists(edges1, flows);
    operators_len(edges1, k, g, false);
    operators_len(edges1, k, g, true);
    let f = |k: int|
        Seq::new(n as nat, |i: int| Some(Toll { link: i as usize, commodity: k as usize }));
    gather_len(k, f, n);
    assert(trunk_columns(edges1, flows) >= 0) by (nonlinear_arith)
        requires
            trunk_columns(edges1, flows) == g * trunks(edges1).len() as int,
            g >= 0,
    ;
    kept_len(all, keep);
    kept_len(near, keep);
    kept_len(far, keep);
    let c = keep[q] as int;
    if c < k * n {
        vstd::arithmetic::div_mod::lemma_fundamental_div_mod(c, n);
        let (b, i) = (c / n, c % n);
        assert(0 <= i < n && 0 <= b) by {
            if n <= 0 {
                assert(k * n <= 0) by (nonlinear_arith)
                    requires
                        n <= 0,
                        k >= 0,
                ;
            }
            vstd::arithmetic::div_mod::lemma_div_pos_is_pos(c, n);
        }
        assert(b < k) by {
            if b >= k {
                assert(n * b >= k * n) by (nonlinear_arith)
                    requires
                        b >= k,
                        n > 0,
                ;
            }
        }
        assert(c == b * n + i) by (nonlinear_arith)
            requires
                c == n * b + i,
        ;
        gather_at(k, f, n, b, i);
        let x = |k: int| Seq::new(edges1.len(), |i: int| operator_at(edges1[i], false));
        let y = |k: int| Seq::new(edges1.len(), |i: int| operator_at(edges1[i], true));
        gather_len(k, x, n);
        gather_len(k, y, n);
        gather_at(k, x, n, b, i);
        gather_at(k, y, n, b, i);
        assert(near[c] == edges1[i].operator1);
        assert(far[c] == edges1[i].operator2);
        assert(views(out.col_op1@)[q] == near[c]);
        assert(views(out.col_op2@)[q] == far[c]);
        assert(all[c] == Some(Toll { link: i as usize, commodity: b as usize }));
        assert(change_is_named(edges1[i], edges2[i], changed, players));
        if edges1[i] != edges2[i] {
            if changed.contains(edges1[i].operator1) && has_bit(edges1[i].operator1, players) {
                gate_keeps_out(changed, players, edges1[i].operator1, coalition);
            } else {
                gate_keeps_out(changed, players, edges1[i].operator2, coalition);
            }
        }
    } else {
        assert(all[c] == None::<Toll>);
    }
}

/// A coalition without any player that owns a change has the same linear program as
/// before: its inequalities have the same limits.
pub proof fn limits_carry_over(
    out1: LpBuilderOutput,
    out2: LpBuilderOutput,
    edges1: Seq<EdgeRow>,
    edges2: Seq<EdgeRow>,
    flows: Seq<FlowRow>,
    changed: Seq<Seq<char>>,
    players: Seq<Seq<char>>,
    coalition: u32,
    r: int,
)
    requires
        shapes_agree(edges1, edges2),
        out1.describes(edges1, flows),
        out2.describes(edges2, flows),
        forall|i: int|
            0 <= i < edges1.len() ==> change_is_named(
                #[trigger] edges1[i],
                edges2[i],
                changed,
                players,
            ),
        coalition & gate_of(changed, players) == 0,
        0 <= r < out1.b_ub@.len(),
        0 <= r < out1.row_op1@.len(),
        is_usable(
            masks_of(views(out1.row_op1@), players),
            masks_of(views(out1.row_op2@), players),
            coalition,
            r,
        ),
    ensures
        r < out2.b_ub@.len(),
        out1.b_ub@[r] == out2.b_ub@[r],
{
    let (a, b) = (edges1, edges2);
    kinds_of_edges_agree(a, b);
    row_operators_agree(a, b, flows, false);
    crate::lists::count_bound(a.len() as int, |i: int| !is_public(a[i]));
    let n = private_count(a) as int;
    let (x, y) = (a.take(n), b.take(n));
    assert(shapes_agree(x, y)) by {
        assert forall|i: int| 0 <= i < x.len() implies same_shape(#[trigger] x[i], y[i]) by {
            assert(same_shape(a[i], b[i]));
        }
    }
    crate::lists::sorted_ids_exist(used_ids(x));
    let openers = group_openers(x);
    if r < openers.len() {
        let i = openers_agree(x, y, r);
        assert(x[i] == a[i] && y[i] == b[i]);
        assert(views(out1.row_op1@)[r] == a[i].operator1);
        assert(views(out1.row_op2@)[r] == a[i].operator2);
        assert(change_is_named(a[i], b[i], changed, players));
        if a[i] != b[i] {
            if changed.contains(a[i].operator1) && has_bit(a[i].operator1, players) {
                gate_keeps_out(changed, players, a[i].operator1, coalition);
            } else {
                gate_keeps_out(changed, players, a[i].operator2, coalition);
            }
        }
    }
}

} // verus!
