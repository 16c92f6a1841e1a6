//! Why one model of the whole network serves all coalitions: the inequalities that a
//! coalition leaves out do not touch its columns.
use crate::consolidation::links::{
    all_edges, compacted, crossings, ends_listed, entry_edge, exit_edge, forward_edges, given_id,
    given_within, groups_are_kept, id_span, ids_fit, kinds_of, last_device, last_device_found,
    link_id, link_id_within, naught, off_ramps, operator_of, private_ramps, public_edge,
    public_pair, public_pairs, public_ramps, reverse_edges, serves, shared_cities, source_of,
    stops_of, switch_of, top_id, used_ids,
};
use crate::laws::{devices_private, every_group_has_a_limit, private_edges_first};
use crate::lists::{
    count_grows, count_same, gather, gather_all, gather_holds, gather_member, sorted_ids,
};
use crate::lp_builder::{
    as_shares, band_rows, bandwidth_cols, bandwidth_column, column_operators, commodities_of,
    flags_of, flat_index, flow_columns, gather_at, gather_len, group_openers, groups_of,
    heard_before, inequality_cols, inner, is_heard, is_public, keep_exists, keep_list, kept_len,
    max_shared, max_shared_bounds, multicast_count, multicast_types, opens_group, operator_at,
    operators_at, operators_len, private_count, program_fits_together, row_operators,
    row_operators_len, sizes_fit, tie_entries, tie_rows, ties, trunk_column, trunk_columns,
    trunk_operators, trunks, trunks_are_edges, LpBuilderOutput,
};
use crate::lp_meaning::{is_idle, is_pinned_point, is_point, pinning_equals_leaving_out, spread};
use crate::quantity::{whole, Real};
use crate::reuse::{first_with, masks_of, opener_once};
use crate::shapley::mask_of;
use crate::solver::{
    is_usable, part_entry, part_of_row, row_of, rows_name_columns, rows_of, CoalitionProgram,
    PrecomputedRows,
};
use crate::sparse::{placed, shifted, slot, slot_bounds};
use crate::text::views;
use crate::types::{DeviceRow, EdgeRow, FlowRow, PrivateRow, PublicRow};
use crate::validation::has_duplicates;
use vstd::prelude::*;

verus! {

/// Edge `a` has no operator that edge `b` lacks: who can use `b` can use `a`.
pub open spec fn owned_within(a: EdgeRow, b: EdgeRow) -> bool {
    &&& a.operator1 == b.operator1 || a.operator1 == b.operator2
    &&& a.operator2 == b.operator1 || a.operator2 == b.operator2
}

/// The first edge of a bandwidth group has no operator that another edge of the group
/// lacks.
pub open spec fn groups_follow(edges: Seq<EdgeRow>) -> bool {
    forall|i: int, j: int|
        0 <= j < edges.len() && edges[j].shared > 0 && #[trigger] opens_group(
            edges,
            edges[j].shared,
            i,
        ) ==> owned_within(edges[i], #[trigger] edges[j])
}

/// The private edges come first.
pub open spec fn private_first(edges: Seq<EdgeRow>) -> bool {
    forall|i: int|
        0 <= i < edges.len() ==> (is_public(#[trigger] edges[i]) <==> i >= private_count(edges))
}

/// The groups of the private edges are numbered from one without gaps.
pub open spec fn groups_numbered(edges: Seq<EdgeRow>) -> bool {
    let ids = sorted_ids(used_ids(edges.take(private_count(edges) as int)));
    &&& ids.len() == max_shared(edges)
    &&& forall|r: int| 0 <= r < ids.len() ==> #[trigger] ids[r] == r + 1
}

/// Without a private edge there is no group.
pub proof fn no_group_without_private(edges: Seq<EdgeRow>)
    requires
        groups_numbered(edges),
    ensures
        private_count(edges) == 0 ==> max_shared(edges) == 0,
{
    if private_count(edges) == 0 {
        let used = used_ids(edges.take(0));
        crate::lists::sorted_ids_exist(used);
        if sorted_ids(used).len() > 0 {
            assert(sorted_ids(used).contains(sorted_ids(used)[0]));
            assert(used.contains(sorted_ids(used)[0]));
        }
    }
}

/// Every multicast flow has a receiver.
pub open spec fn all_heard(flows: Seq<FlowRow>) -> bool {
    forall|d: int| 0 <= d < flows.len() && (#[trigger] flows[d]).multicast ==> flows[d].receivers > 0
}

/// An entry of a row is an entry of a column.
proof fn row_entry<T>(cols: Seq<Seq<(usize, T)>>, r: int, k: int) -> (i: int)
    requires
        cols.len() <= usize::MAX,
        0 <= k < row_of(cols, r, cols.len() as int).len(),
    ensures
        ({
            let (c, v) = row_of(cols, r, cols.len() as int)[k];
            c < cols.len() && 0 <= i < cols[c as int].len() && cols[c as int][i] == (
                cols[c as int][i].0,
                v,
            ) && cols[c as int][i].0 == r
        }),
{
    let n = cols.len() as int;
    let f = |j: int| part_of_row(cols[j], r, j, cols[j].len() as int);
    let (j, m) = gather_member(n, f, k);
    let i = part_entry(cols[j], r, j, cols[j].len() as int, m);
    i
}

/// An entry that triplets make up is one of them.
pub proof fn placed_entry<T>(triplets: Seq<(usize, usize, T)>, j: int, k: int) -> (t: int)
    requires
        0 <= k < placed(triplets, j).len(),
    ensures
        0 <= t < triplets.len(),
        triplets[t].1 == j,
        placed(triplets, j)[k] == (triplets[t].0, triplets[t].2),
    decreases triplets.len(),
{
    let front = triplets.drop_last();
    let before = placed(front, j);
    let last = triplets.last();
    if last.1 == j {
        let p = slot(before, last.0);
        slot_bounds(before, last.0);
        if k == p {
            triplets.len() - 1
        } else if k < p {
            placed_entry(front, j, k)
        } else {
            placed_entry(front, j, k - 1)
        }
    } else {
        placed_entry(front, j, k)
    }
}

/// The operators of a column that carries a commodity over an edge.
pub proof fn flow_column_operators(
    edges: Seq<EdgeRow>,
    flows: Seq<FlowRow>,
    k: int,
    i: int,
    far: bool,
)
    requires
        0 <= k < commodities_of(flows).len(),
        0 <= i < edges.len(),
    ensures
        column_operators(
            edges,
            commodities_of(flows).len() as int,
            trunks(edges),
            groups_of(flows).len() as int,
            far,
        )[k * edges.len() + i] == operator_at(edges[i], far),
{
    let x = |k: int| Seq::new(edges.len(), |i: int| operator_at(edges[i], far));
    gather_at(commodities_of(flows).len() as int, x, edges.len() as int, k, i);
}

/// The operators of a column that stands for a trunk.
pub proof fn trunk_column_operators(
    edges: Seq<EdgeRow>,
    flows: Seq<FlowRow>,
    g: int,
    e: int,
    far: bool,
)
    requires
        edges.len() <= usize::MAX,
        0 <= g < groups_of(flows).len(),
        0 <= e < trunks(edges).len(),
    ensures
        column_operators(
            edges,
            commodities_of(flows).len() as int,
            trunks(edges),
            groups_of(flows).len() as int,
            far,
        )[flow_columns(edges, flows) + g * trunks(edges).len() + e] == operator_at(
            edges[trunks(edges)[e] as int],
            far,
        ),
{
    let x = |k: int| Seq::new(edges.len(), |i: int| operator_at(edges[i], far));
    let y = |g: int| operators_at(edges, trunks(edges), far);
    gather_len(commodities_of(flows).len() as int, x, edges.len() as int);
    trunk_operators(edges, far);
    gather_at(groups_of(flows).len() as int, y, trunks(edges).len() as int, g, e);
}

/// The edge that a column is about: the one that carries a flow, or the trunk.
pub open spec fn column_edge(edges: Seq<EdgeRow>, flows: Seq<FlowRow>, c: int) -> int {
    if c < flow_columns(edges, flows) {
        c % edges.len() as int
    } else {
        trunks(edges)[(c - flow_columns(edges, flows)) % trunks(edges).len() as int] as int
    }
}

/// A number below a product, as a place in a table.
pub proof fn table_place(c: int, k: int, n: int)
    requires
        0 <= c < k * n,
        0 <= k,
        0 <= n,
    ensures
        0 <= c / n < k,
        0 <= c % n < n,
        c == (c / n) * n + c % n,
{
    assert(n > 0) by {
        if n == 0 {
            assert(k * n == 0) by (nonlinear_arith)
                requires
                    n == 0,
            ;
        }
    }
    vstd::arithmetic::div_mod::lemma_fundamental_div_mod(c, n);
    vstd::arithmetic::div_mod::lemma_div_pos_is_pos(c, n);
    let (b, i) = (c / n, c % n);
    if b >= k {
        assert(n * b >= k * n) by (nonlinear_arith)
            requires
                b >= k,
                n > 0,
        ;
    }
    assert(n * b == b * n) by (nonlinear_arith);
}

/// Every column has the operators of its edge.
pub proof fn column_has_operators(edges: Seq<EdgeRow>, flows: Seq<FlowRow>, c: int, far: bool)
    requires
        edges.len() <= usize::MAX,
        0 <= c < flow_columns(edges, flows) + trunk_columns(edges, flows),
    ensures
        0 <= column_edge(edges, flows, c) < edges.len(),
        column_operators(
            edges,
            commodities_of(flows).len() as int,
            trunks(edges),
            groups_of(flows).len() as int,
            far,
        )[c] == operator_at(edges[column_edge(edges, flows, c)], far),
{
    let n = edges.len() as int;
    let t = trunks(edges).len() as int;
    let all = flow_columns(edges, flows);
    if c < all {
        table_place(c, commodities_of(flows).len() as int, n);
        flow_column_operators(edges, flows, c / n, c % n, far);
    } else {
        let z = c - all;
        table_place(z, groups_of(flows).len() as int, t);
        trunks_are_edges(edges);
        trunk_column_operators(edges, flows, z / t, z % t, far);
    }
}

/// A bandwidth entry of a column lies in the row of its edge's group, and the edge is
/// private.
pub proof fn band_entry(edges: Seq<EdgeRow>, flows: Seq<FlowRow>, c: int, k: int)
    requires
        edges.len() <= usize::MAX,
        private_first(edges),
        0 <= c < flow_columns(edges, flows) + trunk_columns(edges, flows),
        ({
            let band = bandwidth_cols(edges, flags_of(flows), groups_of(flows).len() as int);
            0 <= k < band[c].len()
        }),
    ensures
        ({
            let band = bandwidth_cols(edges, flags_of(flows), groups_of(flows).len() as int);
            let i = column_edge(edges, flows, c);
            &&& 0 <= i < private_count(edges)
            &&& 0 < edges[i].shared
            &&& band[c][k].0 == edges[i].shared - 1
        }),
{
    let n = edges.len() as int;
    let t = trunks(edges).len() as int;
    let all = flow_columns(edges, flows);
    if c < all {
        table_place(c, commodities_of(flows).len() as int, n);
        bandwidth_column(edges, flows, c / n, c % n);
        let i = c % n;
        assert(is_public(edges[i]) <==> i >= private_count(edges));
    } else {
        let z = c - all;
        table_place(z, groups_of(flows).len() as int, t);
        trunks_are_edges(edges);
        trunk_column(edges, flows, z / t, z % t);
    }
}

/// A bandwidth row has the operators of the first edge of its group.
pub proof fn band_row_operators(edges: Seq<EdgeRow>, flows: Seq<FlowRow>, x: int, far: bool)
    requires
        groups_numbered(edges),
        0 <= x < private_count(edges) <= edges.len(),
        0 < edges[x].shared,
        opens_group(edges, edges[x].shared, x),
    ensures
        edges[x].shared <= max_shared(edges),
        row_operators(edges, flows, far).len() >= max_shared(edges),
        row_operators(edges, flows, far)[edges[x].shared - 1] == operator_at(edges[x], far),
{
    let at = max_shared_bounds(edges);
    let private = edges.take(private_count(edges) as int);
    let id = edges[x].shared;
    let ids = sorted_ids(used_ids(private));
    assert(private[x] == edges[x]);
    assert(opens_group(private, id, x));
    opener_once(private, id, x);
    assert(ids[id - 1] == id);
    assert(group_openers(private)[id - 1] == edges[x]);
}

/// The row of a tie has the operators of its trunk.
pub proof fn tie_row_operators(edges: Seq<EdgeRow>, flows: Seq<FlowRow>, d: int, e: int, far: bool)
    requires
        edges.len() <= usize::MAX,
        groups_numbered(edges),
        all_heard(flows),
        0 <= d < flows.len(),
        is_heard(flows[d]),
        0 <= e < trunks(edges).len(),
        group_openers(edges.take(private_count(edges) as int)).len() == max_shared(edges),
    ensures
        ({
            let row = heard_before(flows, d) * trunks(edges).len() as int + e;
            &&& 0 <= row < tie_rows(edges, flows)
            &&& max_shared(edges) + row < row_operators(edges, flows, far).len()
            &&& row_operators(edges, flows, far)[max_shared(edges) + row] == operator_at(
                edges[trunks(edges)[e] as int],
                far,
            )
        }),
{
    let heard = |i: int| is_heard(flows[i]);
    let cast = |i: int| flows[i].multicast;
    let n = flows.len() as int;
    let t = trunks(edges).len() as int;
    assert forall|i: int| 0 <= i < n implies #[trigger] heard(i) == cast(i) by {}
    count_same(n, heard, cast);
    count_grows(d + 1, n, heard, heard);
    let h = heard_before(flows, d) as int;
    assert(h < multicast_count(flows));
    let f = |m: int| operators_at(edges, trunks(edges), far);
    trunk_operators(edges, far);
    flat_index(h, e, multicast_count(flows) as int, t);
    gather_at(multicast_count(flows) as int, f, t, h, e);
}

/// Where no group has a first edge with an operator that another edge of the group lacks,
/// an inequality that a coalition leaves out touches none of its columns. Those that are
/// no limits of groups never do.
pub proof fn dropped_rows_are_idle(
    out: LpBuilderOutput,
    rows: PrecomputedRows,
    edges: Seq<EdgeRow>,
    flows: Seq<FlowRow>,
    players: Seq<Seq<char>>,
    coalition: u32,
    r: int,
)
    requires
        out.describes(edges, flows),
        rows.of(out),
        sizes_fit(edges, flows),
        edges.len() <= usize::MAX,
        flows.len() > 0,
        private_first(edges),
        groups_numbered(edges),
        groups_follow(edges) || r >= max_shared(edges),
        all_heard(flows),
        0 <= r < rows.ub_rows@.len(),
        !is_usable(
            masks_of(views(out.row_op1@), players),
            masks_of(views(out.row_op2@), players),
            coalition,
            r,
        ),
    ensures
        is_idle(
            rows.ub_rows@[r]@,
            masks_of(views(out.col_op1@), players),
            masks_of(views(out.col_op2@), players),
            coalition,
        ),
{
    let cols = out.a_ub.cols();
    let row = rows.ub_rows@[r]@;
    let keep = keep_list(edges, flows);
    let near = masks_of(views(out.col_op1@), players);
    let far = masks_of(views(out.col_op2@), players);
    let k = commodities_of(flows).len() as int;
    let g = groups_of(flows).len() as int;
    let ops1 = column_operators(edges, k, trunks(edges), g, false);
    let ops2 = column_operators(edges, k, trunks(edges), g, true);
    assert(inner(rows.ub_rows@).len() == rows.ub_rows@.len());
    assert(inner(rows.ub_rows@)[r] == row);
    assert(inner(rows.ub_rows@)[r] == rows_of(cols, out.a_ub.m as int)[r]);
    assert(row == row_of(cols, r, cols.len() as int));
    keep_exists(edges, flows);
    operators_len(edges, k, g, false);
    operators_len(edges, k, g, true);
    kept_len(ops1, keep);
    kept_len(ops2, keep);
    crate::lists::count_bound(edges.len() as int, |i: int| !is_public(edges[i]));
    crate::lists::sorted_ids_exist(kinds_of(flows));
    assert(kinds_of(flows)[0] == flows[0].kind);
    assert(kinds_of(flows).contains(flows[0].kind));
    assert(commodities_of(flows).contains(flows[0].kind));
    let top = max_shared(edges);
    no_group_without_private(edges);
    assert(band_rows(edges, flows) == top);
    assert forall|q: int| 0 <= q < row.len() implies !is_usable(
        near,
        far,
        coalition,
        (#[trigger] row[q]).0 as int,
    ) by {
        let c = row[q].0 as int;
        let i = row_entry(cols, r, q);
        let cc = keep[c] as int;
        assert(cols[c] == inequality_cols(edges, flows)[cc]);
        let x = column_edge(edges, flows, cc);
        column_has_operators(edges, flows, cc, false);
        column_has_operators(edges, flows, cc, true);
        assert(near[c] == mask_of(edges[x].operator1, players));
        assert(far[c] == mask_of(edges[x].operator2, players));
        let lead = entry_row_operators(edges, flows, cc, i, r);
        assert(views(out.row_op1@)[r] == edges[lead].operator1);
        assert(views(out.row_op2@)[r] == edges[lead].operator2);
    }
}

/// The row of an entry of the inequalities has the operators of an edge that has none
/// beyond those of the column's edge.
proof fn entry_row_operators(
    edges: Seq<EdgeRow>,
    flows: Seq<FlowRow>,
    c: int,
    i: int,
    r: int,
) -> (lead: int)
    requires
        sizes_fit(edges, flows),
        edges.len() <= usize::MAX,
        private_first(edges),
        groups_numbered(edges),
        groups_follow(edges) || r >= max_shared(edges),
        all_heard(flows),
        private_count(edges) <= edges.len(),
        band_rows(edges, flows) == max_shared(edges),
        0 <= c < flow_columns(edges, flows) + trunk_columns(edges, flows),
        0 <= i < inequality_cols(edges, flows)[c].len(),
        inequality_cols(edges, flows)[c][i].0 == r,
    ensures
        0 <= lead < edges.len(),
        owned_within(edges[lead], edges[column_edge(edges, flows, c)]),
        0 <= r < row_operators(edges, flows, false).len(),
        r < row_operators(edges, flows, true).len(),
        row_operators(edges, flows, false)[r] == edges[lead].operator1,
        row_operators(edges, flows, true)[r] == edges[lead].operator2,
{
    let band = bandwidth_cols(edges, flags_of(flows), groups_of(flows).len() as int);
    let n = edges.len() as int;
    let t = trunks(edges).len() as int;
    let (commodities, groups) = (commodities_of(flows), groups_of(flows));
    let tied = ties(flows, commodities, groups, trunks(edges), n);
    let x = column_edge(edges, flows, c);
    let head = as_shares(band[c]);
    let top = max_shared(edges);
    let at = max_shared_bounds(edges);
    row_operators_len(edges, flows, false);
    row_operators_len(edges, flows, true);
    if i < head.len() {
        band_entry(edges, flows, c, i);
        let lead = first_with(edges, edges[x].shared, x);
        assert(lead <= x) by {
            if x < lead {
                assert(edges[x].shared != edges[x].shared);
            }
        }
        band_row_operators(edges, flows, lead, false);
        band_row_operators(edges, flows, lead, true);
        lead
    } else {
        let below = placed(tied, c);
        let j = i - head.len();
        assert(inequality_cols(edges, flows)[c][i] == shifted(below, top)[j]);
        let z = placed_entry(tied, c, j);
        let f = |d: int|
            if is_heard(flows[d]) {
                gather(
                    t,
                    |e: int| tie_entries(flows, commodities, groups, trunks(edges), n, d, e),
                )
            } else {
                Seq::empty()
            };
        let (d, m) = gather_member(flows.len() as int, f, z);
        let h = |e: int| tie_entries(flows, commodities, groups, trunks(edges), n, d, e);
        assert(f(d) == gather(t, h));
        let (e, y) = gather_member(t, h, m);
        assert(tied[z] == tie_entries(flows, commodities, groups, trunks(edges), n, d, e)[y]);
        tie_row_operators(edges, flows, d, e, false);
        tie_row_operators(edges, flows, d, e, true);
        trunks_are_edges(edges);
        let link = trunks(edges)[e] as int;
        crate::lists::sorted_ids_exist(kinds_of(flows));
        crate::lists::sorted_ids_exist(multicast_types(flows));
        let a = commodities.index_of(flows[d].kind);
        assert(0 <= a < commodities.len()) by {
            assert(kinds_of(flows)[d] == flows[d].kind);
            assert(kinds_of(flows).contains(flows[d].kind));
            assert(commodities.contains(flows[d].kind));
        }
        let b = groups.index_of(flows[d].original);
        assert(0 <= b < groups.len()) by {
            let p = |d: int|
                if flows[d].multicast {
                    seq![flows[d].original]
                } else {
                    Seq::empty()
                };
            assert(p(d) == seq![flows[d].original]);
            gather_holds(flows.len() as int, p, d, 0);
            assert(multicast_types(flows).contains(flows[d].original));
            assert(groups.contains(flows[d].original));
        }
        flat_index(a, link, commodities.len() as int, n);
        flat_index(b, e, groups.len() as int, t);
        if y == 0 {
            assert(c == a * n + link);
            vstd::arithmetic::div_mod::lemma_fundamental_div_mod_converse(c, n, a, link);
            assert(x == link);
        } else {
            assert(y == 1);
            let w = c - commodities.len() * n;
            assert(w == b * t + e);
            vstd::arithmetic::div_mod::lemma_fundamental_div_mod_converse(w, t, b, e);
            assert(x == link);
        }
        let row = heard_before(flows, d) * t + e;
        assert(below[j].0 == row);
        assert(r == top + row);
        x
    }
}

/// One model of the whole network serves all coalitions: with the columns outside a
/// coalition held at zero, its points are just those of the coalition's own linear
/// program, spread out. No limit may lie below zero, and no first edge of a group may have
/// an operator that another edge of the group lacks.
pub proof fn one_model_serves_all(
    out: LpBuilderOutput,
    rows: PrecomputedRows,
    program: CoalitionProgram,
    edges: Seq<EdgeRow>,
    flows: Seq<FlowRow>,
    players: Seq<Seq<char>>,
    coalition: u32,
    b_eq: Seq<real>,
    b_ub: Seq<real>,
    y: Seq<real>,
)
    requires
        out.describes(edges, flows),
        rows.of(out),
        program.describes(
            rows,
            coalition,
            masks_of(views(out.col_op1@), players),
            masks_of(views(out.col_op2@), players),
            masks_of(views(out.row_op1@), players),
            masks_of(views(out.row_op2@), players),
        ),
        sizes_fit(edges, flows),
        edges.len() <= usize::MAX,
        flows.len() > 0,
        private_first(edges),
        groups_numbered(edges),
        groups_follow(edges),
        all_heard(flows),
        y.len() == program.cols@.len(),
        forall|r: int| 0 <= r < out.a_ub.m ==> #[trigger] b_ub[r] >= 0real,
    ensures
        is_point(program, b_eq, b_ub, y) <==> is_pinned_point(
            rows,
            masks_of(views(out.col_op1@), players),
            masks_of(views(out.col_op2@), players),
            coalition,
            b_eq,
            b_ub,
            spread(
                masks_of(views(out.col_op1@), players),
                masks_of(views(out.col_op2@), players),
                coalition,
                y,
            ),
        ),
{
    let near = masks_of(views(out.col_op1@), players);
    let far = masks_of(views(out.col_op2@), players);
    let row1 = masks_of(views(out.row_op1@), players);
    let row2 = masks_of(views(out.row_op2@), players);
    program_fits_together(out, edges, flows);
    rows_name_columns(out.a_eq.cols(), out.a_eq.m as int);
    rows_name_columns(out.a_ub.cols(), out.a_ub.m as int);
    assert(inner(rows.ub_rows@).len() == rows.ub_rows@.len());
    assert(near.len() == out.a_eq.n);
    assert(row1.len() == rows.ub_rows@.len()) by {
        every_row_has_operators(edges, flows);
        assert(out.row_op1@.len() == views(out.row_op1@).len());
    }
    assert forall|r: int|
        0 <= r < rows.ub_rows@.len() && !is_usable(row1, row2, coalition, r) implies is_idle(
        (#[trigger] rows.ub_rows@[r])@,
        near,
        far,
        coalition,
    ) && b_ub[r] >= 0real by {
        dropped_rows_are_idle(out, rows, edges, flows, players, coalition, r);
        assert(b_ub[r] >= 0real);
    }
    pinning_equals_leaving_out(
        program,
        rows,
        coalition,
        near,
        far,
        row1,
        row2,
        b_eq,
        b_ub,
        y,
    );
}

/// Every inequality has its operators.
pub proof fn every_row_has_operators(edges: Seq<EdgeRow>, flows: Seq<FlowRow>)
    requires
        edges.len() <= usize::MAX,
        flows.len() > 0,
        groups_numbered(edges),
        all_heard(flows),
    ensures
        row_operators(edges, flows, false).len() == band_rows(edges, flows) + tie_rows(
            edges,
            flows,
        ),
{
    let heard = |i: int| is_heard(flows[i]);
    let cast = |i: int| flows[i].multicast;
    let n = flows.len() as int;
    assert forall|i: int| 0 <= i < n implies #[trigger] heard(i) == cast(i) by {}
    count_same(n, heard, cast);
    row_operators_len(edges, flows, false);
    no_group_without_private(edges);
    crate::lists::sorted_ids_exist(kinds_of(flows));
    assert(kinds_of(flows)[0] == flows[0].kind);
    assert(kinds_of(flows).contains(flows[0].kind));
    assert(commodities_of(flows).contains(flows[0].kind));
    let (a, b) = (heard_before(flows, n) as int, trunks(edges).len() as int);
    assert(a * b >= 0) by (nonlinear_arith)
        requires
            a >= 0,
            b >= 0,
    ;
}

/// Link `i` is the first that was given its group.
pub open spec fn leads_given(links: Seq<PrivateRow>, i: int) -> bool {
    &&& 0 <= i < links.len()
    &&& given_id(links[i]) != 0
    &&& forall|k: int| 0 <= k < i ==> given_id(#[trigger] links[k]) != given_id(links[i])
}

/// The first link that was given a group has no operator that another link of the group
/// lacks.
pub open spec fn given_groups_follow(links: Seq<PrivateRow>, devices: Seq<DeviceRow>) -> bool {
    forall|i: int, j: int|
        #[trigger] leads_given(links, i) && 0 <= j < links.len() && given_id(#[trigger] links[j])
            == given_id(links[i]) ==> {
            let (a, b) = (
                operator_of(devices, links[i].device1),
                operator_of(devices, links[i].device2),
            );
            let (c, d) = (
                operator_of(devices, links[j].device1),
                operator_of(devices, links[j].device2),
            );
            &&& a == c || a == d
            &&& b == c || b == d
        }
}

/// The device with the group, before the groups are renumbered.
spec fn host_of(links: Seq<PrivateRow>, devices: Seq<DeviceRow>, id: int) -> DeviceRow {
    let first = 2 * id_span(links) + 1;
    let n = devices.len() as int;
    if id < first + n {
        devices[id - first]
    } else {
        devices[id - first - n]
    }
}

/// The edge has no group, or one of a device, with the operator and the bandwidth of the
/// device.
spec fn fits_device(links: Seq<PrivateRow>, devices: Seq<DeviceRow>) -> spec_fn(EdgeRow) -> bool {
    |e: EdgeRow|
        e.shared == 0 || {
            &&& e.shared > 2 * id_span(links)
            &&& e.operator1 == host_of(links, devices, e.shared as int).operator
            &&& e.operator2 == host_of(links, devices, e.shared as int).operator
            &&& e.bandwidth == whole(host_of(links, devices, e.shared as int).edge as int)
        }
}

/// The edge has the operator and the bandwidth of the device whose group it has.
pub closed spec fn is_hosted(links: Seq<PrivateRow>, devices: Seq<DeviceRow>, e: EdgeRow) -> bool {
    fits_device(links, devices)(e)
}

/// Edges of one group of a device have the same operator at all ends, and the same
/// bandwidth.
pub proof fn hosted_alike(
    links: Seq<PrivateRow>,
    devices: Seq<DeviceRow>,
    a: EdgeRow,
    b: EdgeRow,
)
    requires
        is_hosted(links, devices, a),
        is_hosted(links, devices, b),
        a.shared == b.shared,
        a.shared > 0,
    ensures
        a.operator1 == a.operator2,
        b.operator1 == a.operator1,
        b.operator2 == a.operator1,
        b.bandwidth == a.bandwidth,
{
}

/// Two links of one group were given it, or are one link.
pub proof fn one_link_or_given(links: Seq<PrivateRow>, i: int, j: int)
    requires
        0 <= i < links.len(),
        0 <= j < links.len(),
        link_id(links, i) == link_id(links, j),
    ensures
        i == j || (given_id(links[i]) != 0 && given_id(links[i]) == given_id(links[j])),
{
    given_within(links);
    let p = |i: int| given_id(links[i]) == 0;
    if given_id(links[i]) == 0 && given_id(links[j]) == 0 {
        if i < j {
            count_grows(i + 1, j, p, p);
        } else if j < i {
            count_grows(j + 1, i, p, p);
        }
    } else if given_id(links[i]) != 0 {
        assert(given_id(links[i]) <= top_id(links));
    } else {
        assert(given_id(links[j]) <= top_id(links));
    }
}

/// A device that is listed once is found where it stands.
proof fn device_found(devices: Seq<DeviceRow>, i: int)
    requires
        !has_duplicates(devices),
        0 <= i < devices.len(),
    ensures
        last_device(devices, devices[i].device) == i,
{
    last_device_found(devices, devices[i].device);
    let k = last_device(devices, devices[i].device);
    if k < i {
        assert(devices[i].device != devices[i].device);
    } else if i < k {
        assert(devices[i].device == devices[k].device);
    }
}

/// The edges of a consolidated network, before their groups are renumbered: the links in
/// one direction with their groups, the links in the other with groups beyond, and then
/// edges of devices with groups beyond these.
pub proof fn groups_by_place(
    links: Seq<PrivateRow>,
    capacity: Seq<Real>,
    devices: Seq<DeviceRow>,
    flows: Seq<FlowRow>,
    publics: Seq<PublicRow>,
    bonus: Real,
    x: int,
)
    requires
        ids_fit(links, devices.len() as int),
        !has_duplicates(devices),
        0 <= x < all_edges(links, capacity, devices, flows, publics, bonus).len(),
    ensures
        ({
            let e = all_edges(links, capacity, devices, flows, publics, bonus)[x];
            let (n, span) = (links.len() as int, id_span(links));
            if x < n {
                &&& e == forward_edges(links, capacity, devices)[x]
                &&& e.shared == link_id(links, x)
                &&& 0 < e.shared <= span
            } else if x < 2 * n {
                &&& e == reverse_edges(links, capacity, devices)[x - n]
                &&& e.shared == link_id(links, x - n) + span
                &&& span < e.shared <= 2 * span
            } else {
                &&& e.shared == 0 || e.shared > 2 * span
                &&& e.shared > 0 ==> is_hosted(links, devices, e)
            }
        }),
{
    let all = all_edges(links, capacity, devices, flows, publics, bonus);
    let n = links.len() as int;
    let span = id_span(links);
    let types = sorted_ids(kinds_of(flows));
    let cities = shared_cities(devices, publics);
    let q = fits_device(links, devices);
    given_within(links);
    let ahead = forward_edges(links, capacity, devices);
    let back = reverse_edges(links, capacity, devices);
    if x < 2 * n {
        link_id_within(
            links,
            if x < n {
                x
            } else {
                x - n
            },
        );
    }
    let ramps = |t: int| private_ramps(devices, span, flows, types[t]);
    assert forall|t: int, j: int| 0 <= t < types.len() && 0 <= j < ramps(t).len() implies q(
        #[trigger] ramps(t)[j],
    ) by {
        ramps_fit_groups(links, devices, flows, types[t], q);
    }
    gather_all(types.len() as int, ramps, q);
    let cross = |c: int| crossings(devices, span, cities[c], bonus);
    assert forall|c: int, j: int| 0 <= c < cities.len() && 0 <= j < cross(c).len() implies q(
        #[trigger] cross(c)[j],
    ) by {
        crossings_fit_groups(links, devices, cities[c], bonus, q);
    }
    gather_all(cities.len() as int, cross, q);
    let pairs = |i: int| public_pair(publics[i]);
    gather_all(publics.len() as int, pairs, q);
    let exits = |t: int| public_ramps(flows, types[t]);
    assert forall|t: int, j: int| 0 <= t < types.len() && 0 <= j < exits(t).len() implies q(
        #[trigger] exits(t)[j],
    ) by {
        let stops = stops_of(flows, types[t]);
        let k = |d: int| seq![public_edge(switch_of(stops[d]), stops[d], naught(), types[t])];
        gather_all(stops.len() as int, k, q);
    }
    gather_all(types.len() as int, exits, q);
    let a = gather(types.len() as int, ramps);
    let b = gather(cities.len() as int, cross);
    let c = public_pairs(publics);
    let d = gather(types.len() as int, exits);
    if x < n {
        assert(all[x] == ahead[x]);
    } else if x < 2 * n {
        assert(all[x] == back[x - n]);
    } else if x < 2 * n + a.len() {
        assert(all[x] == a[x - 2 * n]);
    } else if x < 2 * n + a.len() + b.len() {
        assert(all[x] == b[x - 2 * n - a.len()]);
    } else if x < 2 * n + a.len() + b.len() + c.len() {
        assert(all[x] == c[x - 2 * n - a.len() - b.len()]);
    } else {
        assert(all[x] == d[x - 2 * n - a.len() - b.len() - c.len()]);
    }
}

/// An edge at a device has the operators of the device's groups.
proof fn device_edges_fit(
    links: Seq<PrivateRow>,
    devices: Seq<DeviceRow>,
    i: int,
    city: Seq<char>,
    latency: Real,
    kind: u32,
)
    requires
        ids_fit(links, devices.len() as int),
        !has_duplicates(devices),
        0 <= i < devices.len(),
    ensures
        fits_device(links, devices)(
            entry_edge(devices, id_span(links), i, city, latency, kind),
        ),
        fits_device(links, devices)(exit_edge(devices, id_span(links), i, city, latency, kind)),
{
    device_found(devices, i);
    given_within(links);
    let span = id_span(links);
    assert(span >= 0);
}

/// The ways into and out of the private network have the operators of their groups.
proof fn ramps_fit_groups(
    links: Seq<PrivateRow>,
    devices: Seq<DeviceRow>,
    flows: Seq<FlowRow>,
    kind: u32,
    q: spec_fn(EdgeRow) -> bool,
)
    requires
        ids_fit(links, devices.len() as int),
        !has_duplicates(devices),
        q == fits_device(links, devices),
    ensures
        forall|k: int|
            0 <= k < private_ramps(devices, id_span(links), flows, kind).len() ==> q(
                #[trigger] private_ramps(devices, id_span(links), flows, kind)[k],
            ),
{
    let span = id_span(links);
    let source = source_of(flows, kind);
    let stops = stops_of(flows, kind);
    let n = devices.len() as int;
    let f = |i: int|
        if serves(devices[i].device, source) {
            seq![entry_edge(devices, span, i, source, naught(), kind)]
        } else {
            Seq::empty()
        };
    assert forall|i: int, j: int| 0 <= i < n && 0 <= j < f(i).len() implies q(
        #[trigger] f(i)[j],
    ) by {
        device_edges_fit(links, devices, i, source, naught(), kind);
    }
    gather_all(n, f, q);
    let g = |d: int| off_ramps(devices, span, stops[d], kind);
    assert forall|d: int, j: int| 0 <= d < stops.len() && 0 <= j < g(d).len() implies q(
        #[trigger] g(d)[j],
    ) by {
        let h = |i: int|
            if serves(devices[i].device, stops[d]) {
                seq![exit_edge(devices, span, i, stops[d], naught(), kind)]
            } else {
                Seq::empty()
            };
        assert forall|i: int, j: int| 0 <= i < n && 0 <= j < h(i).len() implies q(
            #[trigger] h(i)[j],
        ) by {
            device_edges_fit(links, devices, i, stops[d], naught(), kind);
        }
        gather_all(n, h, q);
        assert(g(d) == gather(n, h));
    }
    gather_all(stops.len() as int, g, q);
}

/// The crossings have the operators of their groups.
proof fn crossings_fit_groups(
    links: Seq<PrivateRow>,
    devices: Seq<DeviceRow>,
    city: Seq<char>,
    bonus: Real,
    q: spec_fn(EdgeRow) -> bool,
)
    requires
        ids_fit(links, devices.len() as int),
        !has_duplicates(devices),
        q == fits_device(links, devices),
    ensures
        forall|k: int|
            0 <= k < crossings(devices, id_span(links), city, bonus).len() ==> q(
                #[trigger] crossings(devices, id_span(links), city, bonus)[k],
            ),
{
    let span = id_span(links);
    let n = devices.len() as int;
    let f = |i: int|
        if serves(devices[i].device, city) {
            seq![
                exit_edge(devices, span, i, switch_of(city), bonus, 0),
                entry_edge(devices, span, i, switch_of(city), bonus, 0),
            ]
        } else {
            Seq::empty()
        };
    assert forall|i: int, j: int| 0 <= i < n && 0 <= j < f(i).len() implies q(
        #[trigger] f(i)[j],
    ) by {
        device_edges_fit(links, devices, i, switch_of(city), bonus, 0);
    }
    gather_all(n, f, q);
}

/// In a consolidated network the private edges come first, and the groups are numbered
/// without gaps.
pub proof fn consolidated_network_is_uniform(
    links: Seq<PrivateRow>,
    capacity: Seq<Real>,
    devices: Seq<DeviceRow>,
    flows: Seq<FlowRow>,
    publics: Seq<PublicRow>,
    bonus: Real,
)
    requires
        devices_private(devices),
        ends_listed(links, devices),
    ensures
        ({
            let edges = compacted(all_edges(links, capacity, devices, flows, publics, bonus));
            &&& private_first(edges)
            &&& groups_numbered(edges)
        }),
{
    private_edges_first(links, capacity, devices, flows, publics, bonus);
    every_group_has_a_limit(links, capacity, devices, flows, publics, bonus);
}

/// The groups of a consolidated network follow their first edges, as one model for all
/// coalitions asks, where the groups that links were given do.
pub proof fn consolidated_groups_follow(
    links: Seq<PrivateRow>,
    capacity: Seq<Real>,
    devices: Seq<DeviceRow>,
    flows: Seq<FlowRow>,
    publics: Seq<PublicRow>,
    bonus: Real,
)
    requires
        ids_fit(links, devices.len() as int),
        !has_duplicates(devices),
        given_groups_follow(links, devices),
    ensures
        groups_follow(compacted(all_edges(links, capacity, devices, flows, publics, bonus))),
{
    let all = all_edges(links, capacity, devices, flows, publics, bonus);
    let edges = compacted(all);
    let n = links.len() as int;
    assert forall|i: int, j: int|
        0 <= j < edges.len() && edges[j].shared > 0 && #[trigger] opens_group(
            edges,
            edges[j].shared,
            i,
        ) implies owned_within(edges[i], #[trigger] edges[j]) by {
        groups_are_kept(all, i, j);
        groups_by_place(links, capacity, devices, flows, publics, bonus, i);
        groups_by_place(links, capacity, devices, flows, publics, bonus, j);
        if j >= 2 * n {
            hosted_alike(links, devices, all[i], all[j]);
        } else {
            let shift = if j < n {
                0
            } else {
                n
            };
            let (a, b) = (i - shift, j - shift);
            one_link_or_given(links, a, b);
            if a != b {
                assert(leads_given(links, a)) by {
                    assert forall|k: int| 0 <= k < a implies given_id(#[trigger] links[k])
                        != given_id(links[a]) by {
                        groups_are_kept(all, shift + k, i);
                        groups_by_place(
                            links,
                            capacity,
                            devices,
                            flows,
                            publics,
                            bonus,
                            shift + k,
                        );
                        assert(edges[shift + k].shared != edges[i].shared);
                    }
                }
                assert(given_id(links[b]) == given_id(links[a]));
            }
        }
    }
}

} // verus!
