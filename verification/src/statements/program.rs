//! What the linear program of a network is made of, column by column and row by row.
use crate::consolidation::links::kinds_of;
use crate::error::Fault;
use crate::lists::{count_where, gather, gather_holds, gather_member, sorted_ids_exist};
use crate::lp_builder::{
    column_operators, commodities_of, equality_cols, first_unknown, flow_columns, gather_at,
    gather_len, group_openers, groups_of, heard_before, inequality_cols, inner, is_heard,
    is_multicast, is_open_to, is_plain, is_public, is_trunk, keep_exists, keep_list, kept,
    kept_len, max_shared, max_shared_bounds, multicast_types, node_fault, node_names,
    open_columns, operator_at, operators_at, operators_len, private_count,
    program_fits_together, single_cols, tie_rows, tolls, trunk_columns, trunks, unknown_end,
    LpBuilderOutput, Toll,
};
use crate::lp_meaning::{share_weight, whole_weight};
use crate::quantity::Real;
use crate::routing::{
    balance_is_supply, chosen_list, column_sum, equality_entry, group_first, is_uniform,
    load_column, rows_of_groups, same_place, terms_total, tie_column, tie_row_operators_here,
    tie_row_place, unit,
};
use crate::text::{lex_less, sorted_list_exists, views};
use crate::types::{EdgeRow, FlowRow};
use crate::warm::{
    band_row_operators, column_edge, column_has_operators, every_row_has_operators, table_place,
};
use vstd::prelude::*;

verus! {

/// The edge does not belong to the public network.
pub open spec fn is_private(edge: EdgeRow) -> bool {
    edge.operator1 != "Public"@
}

/// What multicast traffic takes once for all its receivers: a private edge whose far end is
/// a device. After the three characters of its city the name goes on, and not with two
/// zeros alone. Where the edge comes from does not matter.
pub open spec fn carries_once(edge: EdgeRow) -> bool {
    &&& is_private(edge)
    &&& edge.device2.len() > 3
    &&& !(edge.device2.len() == 5 && edge.device2[3] == '0' && edge.device2[4] == '0')
}

/// The edge is open to a kind of traffic.
pub open spec fn open_to(edge: EdgeRow, kind: u32) -> bool {
    edge.link_type == 0 || edge.link_type == kind
}

/// The place of edge `i` among those that carry multicast once.
pub open spec fn rank(edges: Seq<EdgeRow>, i: int) -> int {
    count_where(i, |j: int| carries_once(edges[j])) as int
}

/// The last flow of the kind is multicast.
pub open spec fn casts(flows: Seq<FlowRow>, kind: u32) -> bool {
    exists|d: int|
        0 <= d < flows.len() && (#[trigger] flows[d]).kind == kind && flows[d].multicast && forall|
            e: int,
        |
            d < e < flows.len() ==> (#[trigger] flows[e]).kind != kind
}

/// How many multicast flows with receivers come before flow `d`.
pub open spec fn heard(flows: Seq<FlowRow>, d: int) -> int {
    count_where(d, |e: int| flows[e].multicast && flows[e].receivers > 0) as int
}

pub proof fn carries_is_trunk(edge: EdgeRow)
    ensures
        is_trunk(edge) == carries_once(edge),
        is_public(edge) == !is_private(edge),
        is_plain(edge) == (is_private(edge) && !carries_once(edge)),
{
    reveal_strlit("00");
    let name = edge.device2;
    if name.len() > 3 {
        let tail = name.skip(3);
        if name.len() == 5 {
            assert(tail[0] == name[3] && tail[1] == name[4]);
            if name[3] == '0' && name[4] == '0' {
                assert(tail =~= "00"@);
            }
        }
    }
}

pub proof fn trunks_by_rank(edges: Seq<EdgeRow>)
    requires
        edges.len() <= usize::MAX,
    ensures
        trunks(edges).len() == rank(edges, edges.len() as int),
        forall|i: int|
            0 <= i < edges.len() && carries_once(#[trigger] edges[i]) ==> 0 <= rank(edges, i)
                < trunks(edges).len() && trunks(edges)[rank(edges, i)] == i,
        forall|e: int|
            0 <= e < trunks(edges).len() ==> {
                let i = (#[trigger] trunks(edges)[e]) as int;
                i < edges.len() && carries_once(edges[i]) && rank(edges, i) == e
            },
{
    let n = edges.len() as int;
    let p = |j: int| carries_once(edges[j]);
    let g = |j: int| j as usize;
    chosen_list(n, p, g);
    let f = |i: int|
        if is_trunk(edges[i]) {
            seq![i as usize]
        } else {
            Seq::empty()
        };
    let h = |i: int|
        if p(i) {
            seq![g(i)]
        } else {
            Seq::empty()
        };
    assert forall|i: int| 0 <= i < n implies #[trigger] f(i) == h(i) by {
        carries_is_trunk(edges[i]);
    }
    crate::lists::gather_same(n, f, h);
    assert forall|i: int| 0 <= i < n && carries_once(#[trigger] edges[i]) implies 0 <= rank(
        edges,
        i,
    ) < trunks(edges).len() && trunks(edges)[rank(edges, i)] == i by {
        assert(p(i));
    }
    assert forall|e: int| 0 <= e < trunks(edges).len() implies {
        let i = (#[trigger] trunks(edges)[e]) as int;
        i < edges.len() && carries_once(edges[i]) && rank(edges, i) == e
    } by {
        let i = crate::lists::nth_place(n, p, e);
        assert(p(i));
        assert(carries_once(edges[i]));
    }
}

proof fn casts_is_multicast(flows: Seq<FlowRow>, kind: u32)
    ensures
        is_multicast(flows, kind) == casts(flows, kind),
    decreases flows.len(),
{
    if flows.len() > 0 {
        let front = flows.drop_last();
        let last = flows.len() - 1;
        casts_is_multicast(front, kind);
        if flows[last].kind == kind {
            if casts(flows, kind) {
                let d = choose|d: int|
                    0 <= d < flows.len() && (#[trigger] flows[d]).kind == kind && flows[d].multicast
                        && forall|e: int|
                        d < e < flows.len() ==> (#[trigger] flows[e]).kind != kind;
                assert(d == last) by {
                    if d < last {
                        assert(flows[last].kind != kind);
                    }
                }
            }
        } else {
            if casts(front, kind) {
                let d = choose|d: int|
                    0 <= d < front.len() && (#[trigger] front[d]).kind == kind && front[d].multicast
                        && forall|e: int|
                        d < e < front.len() ==> (#[trigger] front[e]).kind != kind;
                assert(flows[d] == front[d]);
                assert forall|e: int| d < e < flows.len() implies (#[trigger] flows[e]).kind
                    != kind by {
                    if e < last {
                        assert(front[e] == flows[e]);
                    }
                }
            }
            if casts(flows, kind) {
                let d = choose|d: int|
                    0 <= d < flows.len() && (#[trigger] flows[d]).kind == kind && flows[d].multicast
                        && forall|e: int|
                        d < e < flows.len() ==> (#[trigger] flows[e]).kind != kind;
                assert(front[d] == flows[d]);
                assert forall|e: int| d < e < front.len() implies (#[trigger] front[e]).kind
                    != kind by {
                    assert(front[e] == flows[e]);
                }
            }
        }
    }
}

/// The commodities are the kinds of the flows, and the multicast groups the types that
/// multicast flows were given with: each once, in ascending order.
pub proof fn commodities_are_kinds(flows: Seq<FlowRow>)
    ensures
        forall|a: int, b: int|
            0 <= a < b < commodities_of(flows).len() ==> (#[trigger] commodities_of(flows)[a]) < (
            #[trigger] commodities_of(flows)[b]),
        forall|kind: u32| #[trigger]
            commodities_of(flows).contains(kind) <==> exists|d: int|
                0 <= d < flows.len() && (#[trigger] flows[d]).kind == kind,
        forall|a: int, b: int|
            0 <= a < b < groups_of(flows).len() ==> (#[trigger] groups_of(flows)[a]) < (
            #[trigger] groups_of(flows)[b]),
        forall|kind: u32| #[trigger]
            groups_of(flows).contains(kind) <==> exists|d: int|
                0 <= d < flows.len() && (#[trigger] flows[d]).multicast && flows[d].original
                    == kind,
{
    let kinds = kinds_of(flows);
    let n = flows.len() as int;
    sorted_ids_exist(kinds);
    sorted_ids_exist(multicast_types(flows));
    let (c, g) = (commodities_of(flows), groups_of(flows));
    assert forall|a: int, b: int| 0 <= a < b < c.len() implies (#[trigger] c[a]) < (
    #[trigger] c[b]) by {
        assert(crate::lists::below()(c[a], c[b]));
    }
    assert forall|a: int, b: int| 0 <= a < b < g.len() implies (#[trigger] g[a]) < (
    #[trigger] g[b]) by {
        assert(crate::lists::below()(g[a], g[b]));
    }
    assert forall|kind: u32| #[trigger] c.contains(kind) <==> exists|d: int|
        0 <= d < flows.len() && (#[trigger] flows[d]).kind == kind by {
        if c.contains(kind) {
            let d = choose|d: int| 0 <= d < kinds.len() && kinds[d] == kind;
            assert(flows[d].kind == kind);
        }
        if exists|d: int| 0 <= d < flows.len() && (#[trigger] flows[d]).kind == kind {
            let d = choose|d: int| 0 <= d < flows.len() && (#[trigger] flows[d]).kind == kind;
            assert(kinds[d] == kind);
        }
    }
    let f = |d: int|
        if flows[d].multicast {
            seq![flows[d].original]
        } else {
            Seq::empty()
        };
    let list = gather(n, f);
    assert forall|kind: u32| #[trigger] g.contains(kind) <==> exists|d: int|
        0 <= d < flows.len() && (#[trigger] flows[d]).multicast && flows[d].original == kind by {
        if g.contains(kind) {
            let k = choose|k: int| 0 <= k < list.len() && list[k] == kind;
            let (d, z) = gather_member(n, f, k);
            assert(flows[d].multicast);
        }
        if exists|d: int|
            0 <= d < flows.len() && (#[trigger] flows[d]).multicast && flows[d].original == kind {
            let d = choose|d: int|
                0 <= d < flows.len() && (#[trigger] flows[d]).multicast && flows[d].original
                    == kind;
            assert(f(d) == seq![kind]);
            gather_holds(n, f, d, 0);
            assert(list.contains(kind));
        }
    }
}

/// The nodes are the ends of the edges and of the flows, each once, in the order of their
/// names.
pub proof fn nodes_are_ends(edges: Seq<EdgeRow>, flows: Seq<FlowRow>)
    ensures
        forall|a: int, b: int|
            0 <= a < b < node_names(edges, flows).len() ==> lex_less(
                #[trigger] node_names(edges, flows)[a],
                #[trigger] node_names(edges, flows)[b],
            ),
        forall|name: Seq<char>| #[trigger]
            node_names(edges, flows).contains(name) <==> (exists|i: int|
                0 <= i < edges.len() && ((#[trigger] edges[i]).device1 == name || edges[i].device2
                    == name)) || (exists|d: int|
                0 <= d < flows.len() && ((#[trigger] flows[d]).start == name || flows[d].end
                    == name)),
{
    let f = |i: int| seq![edges[i].device1, edges[i].device2];
    let g = |i: int| seq![flows[i].start, flows[i].end];
    let (a, b) = (gather(edges.len() as int, f), gather(flows.len() as int, g));
    sorted_list_exists(a + b);
    let nodes = node_names(edges, flows);
    crate::routing::node_places(edges, flows);
    assert forall|name: Seq<char>| #[trigger] nodes.contains(name) implies (exists|i: int|
        0 <= i < edges.len() && ((#[trigger] edges[i]).device1 == name || edges[i].device2
            == name)) || (exists|d: int|
        0 <= d < flows.len() && ((#[trigger] flows[d]).start == name || flows[d].end == name)) by {
        assert((a + b).contains(name));
        let k = choose|k: int| 0 <= k < (a + b).len() && (a + b)[k] == name;
        if k < a.len() {
            let (i, z) = gather_member(edges.len() as int, f, k);
            assert(f(i)[z] == name);
            assert(edges[i].device1 == name || edges[i].device2 == name);
        } else {
            let (d, z) = gather_member(flows.len() as int, g, k - a.len());
            assert(g(d)[z] == name);
            assert(flows[d].start == name || flows[d].end == name);
        }
    }
}

/// What a column stands for: a kind of traffic on an edge, or what an edge carries for a
/// multicast group.
pub enum Column {
    Flow { commodity: int, edge: int },
    Once { group: int, edge: int },
}

/// The column is one of the linear program.
pub open spec fn is_due(edges: Seq<EdgeRow>, flows: Seq<FlowRow>, column: Column) -> bool {
    match column {
        Column::Flow { commodity: k, edge: i } => {
            &&& 0 <= k < commodities_of(flows).len()
            &&& 0 <= i < edges.len()
            &&& open_to(edges[i], commodities_of(flows)[k])
        },
        Column::Once { group: g, edge: i } => {
            &&& 0 <= g < groups_of(flows).len()
            &&& 0 <= i < edges.len()
            &&& carries_once(edges[i])
        },
    }
}

/// What the column counts against the limit of a bandwidth group.
pub open spec fn load_of(edges: Seq<EdgeRow>, flows: Seq<FlowRow>, column: Column, id: int) -> real {
    match column {
        Column::Flow { commodity: k, edge: i } => unit(
            edges[i].shared == id && is_private(edges[i]) && !(casts(
                flows,
                commodities_of(flows)[k],
            ) && carries_once(edges[i])),
        ),
        Column::Once { group: g, edge: i } => unit(edges[i].shared == id),
    }
}

/// What the column counts in the tie of multicast flow `d` on edge `j`: the flow over its
/// receivers, less what the edge carries for the group.
pub open spec fn tie_of(
    edges: Seq<EdgeRow>,
    flows: Seq<FlowRow>,
    column: Column,
    d: int,
    j: int,
) -> real {
    match column {
        Column::Flow { commodity: k, edge: i } => if i == j && commodities_of(flows)[k]
            == flows[d].kind {
            1real / flows[d].receivers as real
        } else {
            0real
        },
        Column::Once { group: g, edge: i } => -unit(
            i == j && groups_of(flows)[g] == flows[d].original,
        ),
    }
}

/// Column `q` of the linear program stands for this.
pub open spec fn stands_for(
    out: LpBuilderOutput,
    edges: Seq<EdgeRow>,
    flows: Seq<FlowRow>,
    q: int,
    column: Column,
) -> bool {
    let nodes = node_names(edges, flows);
    let edge = match column {
        Column::Flow { commodity, edge } => edges[edge],
        Column::Once { group, edge } => edges[edge],
    };
    &&& 0 <= q < out.a_eq.n
    &&& out.cost@[q] == match column {
        Column::Flow { commodity: k, edge: i } => Some(
            Toll { link: i as usize, commodity: k as usize },
        ),
        Column::Once { .. } => None,
    }
    &&& out.col_op1@[q]@ == edge.operator1
    &&& out.col_op2@[q]@ == edge.operator2
    &&& forall|k: int, v: int|
        0 <= k < commodities_of(flows).len() && 0 <= v < nodes.len() ==> #[trigger] column_sum(
            out.a_eq.cols()[q],
            k * nodes.len() + v,
            whole_weight(),
        ) == match column {
            Column::Flow { commodity, edge: i } => if k == commodity {
                unit(edges[i].device1 == nodes[v]) - unit(edges[i].device2 == nodes[v])
            } else {
                0real
            },
            Column::Once { .. } => 0real,
        }
    &&& forall|r: int|
        0 <= r < max_shared(edges) ==> #[trigger] column_sum(
            out.a_ub.cols()[q],
            r,
            share_weight(),
        ) == load_of(edges, flows, column, r + 1)
    &&& forall|d: int, j: int|
        #![trigger flows[d], edges[j]]
        0 <= d < flows.len() && flows[d].multicast && flows[d].receivers > 0 && 0 <= j < edges.len()
            && carries_once(edges[j]) ==> column_sum(
            out.a_ub.cols()[q],
            max_shared(edges) + heard(flows, d) * rank(edges, edges.len() as int) + rank(edges, j),
            share_weight(),
        ) == tie_of(edges, flows, column, d, j)
}

/// The number of a column before some are left out.
spec fn full_place(edges: Seq<EdgeRow>, flows: Seq<FlowRow>, column: Column) -> int {
    match column {
        Column::Flow { commodity: k, edge: i } => k * edges.len() + i,
        Column::Once { group: g, edge: i } => flow_columns(edges, flows) + g * trunks(edges).len()
            + rank(edges, i),
    }
}

/// A column is found where its number stands among those kept.
proof fn column_at(
    out: LpBuilderOutput,
    edges: Seq<EdgeRow>,
    flows: Seq<FlowRow>,
    q: int,
    column: Column,
)
    requires
        out.describes(edges, flows),
        is_uniform(edges, flows),
        0 <= q < keep_list(edges, flows).len(),
        is_due(edges, flows, column),
        keep_list(edges, flows)[q] == full_place(edges, flows, column),
    ensures
        stands_for(out, edges, flows, q, column),
{
    let keep = keep_list(edges, flows);
    let n = edges.len() as int;
    let t = trunks(edges).len() as int;
    let kk = commodities_of(flows).len() as int;
    let gg = groups_of(flows).len() as int;
    let nodes = node_names(edges, flows);
    let c = full_place(edges, flows, column);
    let all = flow_columns(edges, flows);
    let free = trunk_columns(edges, flows);
    trunks_by_rank(edges);
    commodities_small(flows);
    keep_exists(edges, flows);
    program_fits_together(out, edges, flows);
    assert(free >= 0) by (nonlinear_arith)
        requires
            free == gg * t,
            gg >= 0,
            t >= 0,
    ;
    match column {
        Column::Flow { commodity: k, edge: i } => {
            crate::lp_builder::flat_index(k, i, kk, n);
            assert(0 <= c < all);
            table_place(c, kk, n);
            same_place(c / n, c % n, k, i, n);
        },
        Column::Once { group: g, edge: i } => {
            crate::lp_builder::flat_index(g, rank(edges, i), gg, t);
            let z = c - all;
            table_place(z, gg, t);
            same_place(z / t, z % t, g, rank(edges, i), t);
            assert(c >= all);
        },
    }
    let x = column_edge(edges, flows, c);
    assert(x == match column {
        Column::Flow { commodity, edge } => edge,
        Column::Once { group, edge } => edge,
    });
    let f = |k: int|
        Seq::new(n as nat, |i: int| Some(Toll { link: i as usize, commodity: k as usize }));
    gather_len(kk, f, n);
    kept_len(tolls(n, kk, free), keep);
    if let Column::Flow { commodity: k, edge: i } = column {
        gather_at(kk, f, n, k, i);
    }
    operators_len(edges, kk, gg, false);
    operators_len(edges, kk, gg, true);
    kept_len(column_operators(edges, kk, trunks(edges), gg, false), keep);
    kept_len(column_operators(edges, kk, trunks(edges), gg, true), keep);
    column_has_operators(edges, flows, c, false);
    column_has_operators(edges, flows, c, true);
    assert(out.col_op1@[q]@ == views(out.col_op1@)[q]);
    assert(out.col_op2@[q]@ == views(out.col_op2@)[q]);
    assert(out.a_eq.cols()[q] == equality_cols(edges, flows)[c]);
    assert(out.a_ub.cols()[q] == inequality_cols(edges, flows)[c]);
    assert forall|k: int, v: int| 0 <= k < kk && 0 <= v < nodes.len() implies #[trigger] column_sum(
        out.a_eq.cols()[q],
        k * nodes.len() + v,
        whole_weight(),
    ) == match column {
        Column::Flow { commodity, edge: i } => if k == commodity {
            unit(edges[i].device1 == nodes[v]) - unit(edges[i].device2 == nodes[v])
        } else {
            0real
        },
        Column::Once { .. } => 0real,
    } by {
        equality_entry(edges, flows, c, k, v);
    }
    carries_is_trunk(edges[x]);
    if let Column::Flow { commodity: k, edge: i } = column {
        casts_is_multicast(flows, commodities_of(flows)[k]);
    }
    assert forall|r: int| 0 <= r < max_shared(edges) implies #[trigger] column_sum(
        out.a_ub.cols()[q],
        r,
        share_weight(),
    ) == load_of(edges, flows, column, r + 1) by {
        load_column(edges, flows, c, r);
    }
    assert forall|d: int, j: int|
        #![trigger flows[d], edges[j]]
        0 <= d < flows.len() && flows[d].multicast && flows[d].receivers > 0 && 0 <= j < edges.len()
            && carries_once(edges[j]) implies column_sum(
        out.a_ub.cols()[q],
        max_shared(edges) + heard(flows, d) * rank(edges, edges.len() as int) + rank(edges, j),
        share_weight(),
    ) == tie_of(edges, flows, column, d, j) by {
        let e = rank(edges, j);
        assert(is_heard(flows[d]));
        heard_same(flows, d);
        tie_column(edges, flows, c, d, e);
        place_of_kind(flows, d);
        let a = commodities_of(flows).index_of(flows[d].kind);
        let b = groups_of(flows).index_of(flows[d].original);
        crate::lp_builder::flat_index(a, j, kk, n);
        crate::lp_builder::flat_index(b, e, gg, t);
        match column {
            Column::Flow { commodity: k, edge: i } => {
                if c == a * n + j {
                    same_place(k, i, a, j, n);
                }
                assert((commodities_of(flows)[k] == flows[d].kind) == (k == a));
            },
            Column::Once { group: g, edge: i } => {
                if g * t + rank(edges, i) == b * t + e {
                    same_place(g, rank(edges, i), b, e, t);
                    assert(trunks(edges)[e] == i && trunks(edges)[e] == j);
                }
                assert((groups_of(flows)[g] == flows[d].original) == (g == b));
            },
        }
    }
}

/// Numbers of commodities can be written.
proof fn commodities_small(flows: Seq<FlowRow>)
    ensures
        commodities_of(flows).len() <= u32::MAX + 1,
{
    crate::soundness::commodities_small(flows);
}

pub proof fn heard_same(flows: Seq<FlowRow>, d: int)
    ensures
        heard_before(flows, d) == heard(flows, d),
{
    crate::lists::count_same(
        d,
        |i: int| is_heard(flows[i]),
        |e: int| flows[e].multicast && flows[e].receivers > 0,
    );
}

/// A flow's kind and type stand at one place among the commodities and groups.
proof fn place_of_kind(flows: Seq<FlowRow>, d: int)
    requires
        0 <= d < flows.len(),
        flows[d].multicast,
    ensures
        ({
            let (c, g) = (commodities_of(flows), groups_of(flows));
            let a = c.index_of(flows[d].kind);
            let b = g.index_of(flows[d].original);
            &&& 0 <= a < c.len() && c[a] == flows[d].kind
            &&& 0 <= b < g.len() && g[b] == flows[d].original
            &&& forall|k: int| 0 <= k < c.len() && #[trigger] c[k] == flows[d].kind ==> k == a
            &&& forall|k: int| 0 <= k < g.len() && #[trigger] g[k] == flows[d].original ==> k == b
        }),
{
    commodities_are_kinds(flows);
    let (c, g) = (commodities_of(flows), groups_of(flows));
    assert(c.contains(flows[d].kind));
    assert(g.contains(flows[d].original));
    let a = c.index_of(flows[d].kind);
    let b = g.index_of(flows[d].original);
    assert forall|k: int| 0 <= k < c.len() && #[trigger] c[k] == flows[d].kind implies k == a by {
        if k < a {
            assert(c[k] < c[a]);
        } else if a < k {
            assert(c[a] < c[k]);
        }
    }
    assert forall|k: int| 0 <= k < g.len() && #[trigger] g[k] == flows[d].original implies k == b by {
        if k < b {
            assert(g[k] < g[b]);
        } else if b < k {
            assert(g[b] < g[k]);
        }
    }
}

/// More pieces hold no less.
proof fn pieces_grow<T>(m: int, n: int, f: spec_fn(int) -> Seq<T>)
    requires
        m <= n,
    ensures
        gather(m, f).len() <= gather(n, f).len(),
    decreases n,
{
    if m < n && n > 0 {
        pieces_grow(m, n - 1, f);
    }
}

/// The edges that are open to a commodity, by their columns.
spec fn open_piece(edges: Seq<EdgeRow>, flows: Seq<FlowRow>, k: int) -> spec_fn(int) -> Seq<usize> {
    |i: int|
        if is_open_to(edges[i], commodities_of(flows)[k]) {
            seq![(i + k * edges.len()) as usize]
        } else {
            Seq::empty()
        }
}

spec fn open_pieces(edges: Seq<EdgeRow>, flows: Seq<FlowRow>) -> spec_fn(int) -> Seq<usize> {
    |k: int| gather(edges.len() as int, open_piece(edges, flows, k))
}

proof fn open_by_pieces(edges: Seq<EdgeRow>, flows: Seq<FlowRow>)
    ensures
        open_columns(edges, commodities_of(flows)) == gather(
            commodities_of(flows).len() as int,
            open_pieces(edges, flows),
        ),
{
    let commodities = commodities_of(flows);
    let f = |k: int|
        gather(
            edges.len() as int,
            |i: int|
                if is_open_to(edges[i], commodities[k]) {
                    seq![(i + k * edges.len()) as usize]
                } else {
                    Seq::empty()
                },
        );
    let g = open_pieces(edges, flows);
    assert forall|k: int| 0 <= k < commodities.len() implies #[trigger] f(k) == g(k) by {
        crate::lists::gather_same(
            edges.len() as int,
            |i: int|
                if is_open_to(edges[i], commodities[k]) {
                    seq![(i + k * edges.len()) as usize]
                } else {
                    Seq::empty()
                },
            open_piece(edges, flows, k),
        );
    }
    crate::lists::gather_same(commodities.len() as int, f, g);
}

/// The commodity and the edge of a column of flow.
proof fn flow_of_column(edges: Seq<EdgeRow>, flows: Seq<FlowRow>, q: int) -> (r: (int, int, int))
    requires
        is_uniform(edges, flows),
        0 <= q < open_columns(edges, commodities_of(flows)).len(),
    ensures
        is_due(edges, flows, Column::Flow { commodity: r.0, edge: r.1 }),
        keep_list(edges, flows)[q] == r.0 * edges.len() + r.1,
        gather(r.0, open_pieces(edges, flows)).len() + r.2 == q,
        0 <= r.2 < open_pieces(edges, flows)(r.0).len(),
        gather(r.1, open_piece(edges, flows, r.0)).len() == r.2,
{
    let kk = commodities_of(flows).len() as int;
    let n = edges.len() as int;
    open_by_pieces(edges, flows);
    let (k, y) = gather_member(kk, open_pieces(edges, flows), q);
    let (i, z) = gather_member(n, open_piece(edges, flows, k), y);
    crate::lp_builder::flat_index(k, i, kk, n);
    let free = trunk_columns(edges, flows);
    assert(free >= 0) by (nonlinear_arith)
        requires
            free == groups_of(flows).len() * trunks(edges).len() as int,
    ;
    (k, i, y)
}

/// Every column of the linear program stands for a kind of traffic on an edge open to it, or
/// for what an edge to a device carries once for a multicast group.
pub proof fn every_column_stands_for_something(
    out: LpBuilderOutput,
    edges: Seq<EdgeRow>,
    flows: Seq<FlowRow>,
    q: int,
) -> (column: Column)
    requires
        out.describes(edges, flows),
        is_uniform(edges, flows),
        0 <= q < out.a_eq.n,
    ensures
        is_due(edges, flows, column),
        stands_for(out, edges, flows, q, column),
{
    let open = open_columns(edges, commodities_of(flows));
    let t = trunks(edges).len() as int;
    let gg = groups_of(flows).len() as int;
    trunks_by_rank(edges);
    if q < open.len() {
        let (k, i, y) = flow_of_column(edges, flows, q);
        let column = Column::Flow { commodity: k, edge: i };
        column_at(out, edges, flows, q, column);
        column
    } else {
        let z = q - open.len();
        let free = trunk_columns(edges, flows);
        assert(free >= 0) by (nonlinear_arith)
            requires
                free == gg * t,
                gg >= 0,
                t >= 0,
        ;
        table_place(z, gg, t);
        let (g, e) = (z / t, z % t);
        let i = trunks(edges)[e] as int;
        let column = Column::Once { group: g, edge: i };
        assert(keep_list(edges, flows)[q] == flow_columns(edges, flows) + z);
        column_at(out, edges, flows, q, column);
        column
    }
}

/// Every kind of traffic has its column on every edge open to it; and every edge to a device
/// has one for each multicast group, behind the others, group by group.
pub proof fn every_column_is_there(
    out: LpBuilderOutput,
    edges: Seq<EdgeRow>,
    flows: Seq<FlowRow>,
    column: Column,
) -> (q: int)
    requires
        out.describes(edges, flows),
        is_uniform(edges, flows),
        is_due(edges, flows, column),
    ensures
        stands_for(out, edges, flows, q, column),
        column matches Column::Once { group, edge } ==> q == out.a_eq.n - groups_of(flows).len()
            * rank(edges, edges.len() as int) + group * rank(edges, edges.len() as int) + rank(
            edges,
            edge,
        ),
{
    let open = open_columns(edges, commodities_of(flows));
    let n = edges.len() as int;
    let kk = commodities_of(flows).len() as int;
    let t = trunks(edges).len() as int;
    let gg = groups_of(flows).len() as int;
    let free = trunk_columns(edges, flows);
    trunks_by_rank(edges);
    assert(free >= 0) by (nonlinear_arith)
        requires
            free == gg * t,
            gg >= 0,
            t >= 0,
    ;
    match column {
        Column::Flow { commodity: k, edge: i } => {
            open_by_pieces(edges, flows);
            let f = open_piece(edges, flows, k);
            crate::lp_builder::flat_index(k, i, kk, n);
            assert(f(i) == seq![(i + k * n) as usize]);
            gather_holds(n, f, i, 0);
            let y = gather(i, f).len() as int;
            gather_holds(kk, open_pieces(edges, flows), k, y);
            let q = gather(k, open_pieces(edges, flows)).len() + y;
            column_at(out, edges, flows, q, column);
            q
        },
        Column::Once { group: g, edge: i } => {
            let e = rank(edges, i);
            crate::lp_builder::flat_index(g, e, gg, t);
            let q = open.len() + g * t + e;
            assert(keep_list(edges, flows)[q] == flow_columns(edges, flows) + g * t + e);
            column_at(out, edges, flows, q, column);
            q
        },
    }
}

/// No column is there twice: those of flows come in the order of commodities and then edges,
/// and behind them there is one for each multicast group and edge to a device.
pub proof fn columns_come_in_order(
    out: LpBuilderOutput,
    edges: Seq<EdgeRow>,
    flows: Seq<FlowRow>,
    p: int,
    q: int,
)
    requires
        out.describes(edges, flows),
        is_uniform(edges, flows),
        0 <= p < q < out.a_eq.n,
    ensures
        out.cost@.len() == out.a_eq.n,
        out.cost@[q] is None <==> q >= out.a_eq.n - groups_of(flows).len() * rank(
            edges,
            edges.len() as int,
        ),
        (out.cost@[p], out.cost@[q]) matches (Some(a), Some(b)) ==> a.commodity < b.commodity || (
        a.commodity == b.commodity && a.link < b.link),
{
    let open = open_columns(edges, commodities_of(flows));
    let n = edges.len() as int;
    trunks_by_rank(edges);
    program_fits_together(out, edges, flows);
    let free = trunk_columns(edges, flows);
    assert(free >= 0) by (nonlinear_arith)
        requires
            free == groups_of(flows).len() * trunks(edges).len() as int,
    ;
    commodities_small(flows);
    let f = open_pieces(edges, flows);
    if q < open.len() {
        let (k1, i1, y1) = flow_of_column(edges, flows, p);
        let (k2, i2, y2) = flow_of_column(edges, flows, q);
        column_at(out, edges, flows, p, Column::Flow { commodity: k1, edge: i1 });
        column_at(out, edges, flows, q, Column::Flow { commodity: k2, edge: i2 });
        if k2 < k1 {
            pieces_grow(k2 + 1, k1, f);
        } else if k1 == k2 && i2 <= i1 {
            pieces_grow(i2, i1, open_piece(edges, flows, k1));
        }
    } else {
        let column = every_column_stands_for_something(out, edges, flows, q);
        let z = q - open.len();
        let t = trunks(edges).len() as int;
        let gg = groups_of(flows).len() as int;
        table_place(z, gg, t);
        let i = trunks(edges)[z % t] as int;
        assert(keep_list(edges, flows)[q] == flow_columns(edges, flows) + z);
        column_at(out, edges, flows, q, Column::Once { group: z / t, edge: i });
    }
}

/// How many rows there are: one balance for each commodity and node; a limit for each
/// bandwidth group; and a tie for each multicast flow that is received and each edge that
/// carries it once.
pub proof fn rows_of_the_program(out: LpBuilderOutput, edges: Seq<EdgeRow>, flows: Seq<FlowRow>)
    requires
        out.describes(edges, flows),
        is_uniform(edges, flows),
    ensures
        out.commodities@ == commodities_of(flows),
        out.a_eq.m == commodities_of(flows).len() * node_names(edges, flows).len(),
        out.b_eq@.len() == out.a_eq.m,
        out.a_ub.n == out.a_eq.n,
        out.a_ub.m == max_shared(edges) + heard(flows, flows.len() as int) * rank(
            edges,
            edges.len() as int,
        ),
        out.b_ub@.len() == out.a_ub.m,
        out.row_op1@.len() == out.a_ub.m,
        out.row_op2@.len() == out.a_ub.m,
        forall|i: int| 0 <= i < edges.len() ==> (#[trigger] edges[i]).shared <= max_shared(edges),
        max_shared(edges) > 0 ==> exists|i: int|
            0 <= i < edges.len() && (#[trigger] edges[i]).shared == max_shared(edges),
{
    trunks_by_rank(edges);
    heard_same(flows, flows.len() as int);
    rows_of_groups(edges, flows);
    program_fits_together(out, edges, flows);
    every_row_has_operators(edges, flows);
    let at = max_shared_bounds(edges);
    let (a, b) = (node_names(edges, flows).len() as int, commodities_of(flows).len() as int);
    assert(a * b == b * a) by (nonlinear_arith);
    assert(out.row_op1@.len() == views(out.row_op1@).len());
    assert(out.row_op2@.len() == views(out.row_op2@).len());
    crate::lp_builder::row_operators_len(edges, flows, false);
    crate::lp_builder::row_operators_len(edges, flows, true);
    assert(group_openers(edges.take(private_count(edges) as int)).len() == max_shared(edges));
    let tie = tie_rows(edges, flows);
    assert(tie >= 0) by (nonlinear_arith)
        requires
            tie == heard_before(flows, flows.len() as int) * trunks(edges).len() as int,
    ;
}

/// The limit of a bandwidth group is the bandwidth of the first edge that has it, and the
/// limit belongs to the operators of that edge. A tie has the limit zero, and belongs to the
/// operators of the edge that it is about.
pub proof fn limits_are_those_of_first_edges(
    out: LpBuilderOutput,
    edges: Seq<EdgeRow>,
    flows: Seq<FlowRow>,
)
    requires
        out.describes(edges, flows),
        is_uniform(edges, flows),
    ensures
        forall|i: int|
            0 <= i < edges.len() && (#[trigger] edges[i]).shared > 0 && (forall|j: int|
                0 <= j < i ==> (#[trigger] edges[j]).shared != edges[i].shared) ==> {
                let r = edges[i].shared - 1;
                &&& out.b_ub@[r] == edges[i].bandwidth
                &&& out.row_op1@[r]@ == edges[i].operator1
                &&& out.row_op2@[r]@ == edges[i].operator2
            },
        forall|d: int, j: int|
            #![trigger flows[d], edges[j]]
            0 <= d < flows.len() && flows[d].multicast && flows[d].receivers > 0 && 0 <= j
                < edges.len() && carries_once(edges[j]) ==> {
                let r = max_shared(edges) + heard(flows, d) * rank(edges, edges.len() as int)
                    + rank(edges, j);
                &&& 0 <= r < out.a_ub.m
                &&& out.b_ub@[r] == Real { bits: 0 }
                &&& out.row_op1@[r]@ == edges[j].operator1
                &&& out.row_op2@[r]@ == edges[j].operator2
            },
{
    let at = max_shared_bounds(edges);
    rows_of_the_program(out, edges, flows);
    trunks_by_rank(edges);
    crate::lists::count_bound(edges.len() as int, |i: int| !is_public(edges[i]));
    let private = edges.take(private_count(edges) as int);
    assert forall|i: int|
        0 <= i < edges.len() && (#[trigger] edges[i]).shared > 0 && (forall|j: int|
            0 <= j < i ==> (#[trigger] edges[j]).shared != edges[i].shared) implies {
        let r = edges[i].shared - 1;
        &&& out.b_ub@[r] == edges[i].bandwidth
        &&& out.row_op1@[r]@ == edges[i].operator1
        &&& out.row_op2@[r]@ == edges[i].operator2
    } by {
        let r = edges[i].shared - 1;
        let x = group_first(edges, r);
        assert(x == i) by {
            if x < i {
                assert(edges[x].shared != edges[i].shared);
            } else if i < x {
                assert(edges[i].shared != r + 1);
            }
        }
        assert(crate::lp_builder::opens_group(edges, edges[x].shared, x));
        band_row_operators(edges, flows, x, false);
        band_row_operators(edges, flows, x, true);
        assert(out.b_ub@[r] == group_openers(private)[r].bandwidth);
        assert(out.row_op1@[r]@ == views(out.row_op1@)[r]);
        assert(out.row_op2@[r]@ == views(out.row_op2@)[r]);
    }
    assert forall|d: int, j: int|
        #![trigger flows[d], edges[j]]
        0 <= d < flows.len() && flows[d].multicast && flows[d].receivers > 0 && 0 <= j
            < edges.len() && carries_once(edges[j]) implies {
        let r = max_shared(edges) + heard(flows, d) * rank(edges, edges.len() as int) + rank(
            edges,
            j,
        );
        &&& 0 <= r < out.a_ub.m
        &&& out.b_ub@[r] == Real { bits: 0 }
        &&& out.row_op1@[r]@ == edges[j].operator1
        &&& out.row_op2@[r]@ == edges[j].operator2
    } by {
        let e = rank(edges, j);
        assert(is_heard(flows[d]));
        heard_same(flows, d);
        heard_same(flows, flows.len() as int);
        tie_row_place(edges, flows, d, e);
        tie_row_operators_here(edges, flows, d, e);
        let r = max_shared(edges) + heard_before(flows, d) * trunks(edges).len() + e;
        assert(group_openers(private).len() == max_shared(edges));
        assert(out.row_op1@[r]@ == views(out.row_op1@)[r]);
        assert(out.row_op2@[r]@ == views(out.row_op2@)[r]);
    }
}

/// The balance of a commodity at a node is what its flows bring: a flow counts for where it
/// starts and against where it ends, whatever it carries.
pub proof fn balances_are_those_of_flows(
    out: LpBuilderOutput,
    edges: Seq<EdgeRow>,
    flows: Seq<FlowRow>,
    amount: spec_fn(int) -> real,
    k: int,
    v: int,
)
    requires
        out.describes(edges, flows),
        is_uniform(edges, flows),
        0 <= k < commodities_of(flows).len(),
        0 <= v < node_names(edges, flows).len(),
    ensures
        ({
            let nodes = node_names(edges, flows);
            terms_total(out.b_eq@[k * nodes.len() + v]@, amount) == crate::games::sum(
                flows.len() as int,
                |d: int|
                    if flows[d].kind == commodities_of(flows)[k] {
                        amount(d) * (unit(flows[d].start == nodes[v]) - unit(
                            flows[d].end == nodes[v],
                        ))
                    } else {
                        0real
                    },
            )
        }),
{
    let nodes = node_names(edges, flows);
    let commodities = commodities_of(flows);
    let size = nodes.len() as int;
    let kk = commodities.len() as int;
    let n = flows.len() as int;
    let row = k * nodes.len() + v;
    crate::lp_builder::flat_index(k, v, kk, size);
    assert(kk * size == size * kk) by (nonlinear_arith);
    balance_is_supply(edges, flows, amount, k, v, n);
    assert(out.b_eq@.len() == inner(out.b_eq@).len());
    assert(inner(out.b_eq@)[row] == out.b_eq@[row]@);
    assert(inner(out.b_eq@)[row] == crate::lp_builder::balance(flows, nodes, commodities, row));
    let f = |d: int|
        if commodities.index_of(flows[d].kind) == k {
            amount(d) * (unit(flows[d].start == nodes[v]) - unit(flows[d].end == nodes[v]))
        } else {
            0real
        };
    let g = |d: int|
        if flows[d].kind == commodities_of(flows)[k] {
            amount(d) * (unit(flows[d].start == nodes[v]) - unit(flows[d].end == nodes[v]))
        } else {
            0real
        };
    commodities_are_kinds(flows);
    assert forall|d: int| 0 <= d < n implies #[trigger] f(d) == g(d) by {
        assert(commodities.contains(flows[d].kind));
        let a = commodities.index_of(flows[d].kind);
        assert(commodities[a] == flows[d].kind);
        if k < a {
            assert(commodities[k] < commodities[a]);
        } else if a < k {
            assert(commodities[a] < commodities[k]);
        }
    }
    crate::games::sum_same(n, f, g);
    crate::lists::gather_same(
        n,
        |d: int| crate::lp_builder::balance_part(flows, nodes, commodities, row, d),
        |d: int|
            crate::lp_builder::balance_part(flows, nodes, commodities, k * nodes.len() + v, d),
    );
}

/// The column of an edge is one at the row of the device that it leaves and minus one at the
/// row of the device that it leads to, in the order of the rows, and nothing else.
pub proof fn columns_have_two_ends(edges: Seq<EdgeRow>, nodes: Seq<Seq<char>>, j: int)
    requires
        0 <= j < edges.len(),
        nodes.len() <= usize::MAX,
        nodes.contains(edges[j].device1),
        nodes.contains(edges[j].device2),
    ensures
        single_cols(edges, nodes).len() == edges.len(),
        ({
            let col = single_cols(edges, nodes)[j];
            &&& col.len() == 2
            &&& col[0].0 <= col[1].0
            &&& col[0].1 == 1 && col[1].1 == -1 || col[0].1 == -1 && col[1].1 == 1
            &&& forall|e: int|
                0 <= e < 2 ==> (#[trigger] col[e]).0 < nodes.len() && nodes[col[e].0 as int] == (
                if col[e].1 == 1 {
                    edges[j].device1
                } else {
                    edges[j].device2
                }) && forall|k: int|
                    0 <= k < col[e].0 ==> #[trigger] nodes[k] != nodes[col[e].0 as int]
        }),
{
    crate::text::place_found(nodes, edges[j].device1);
    crate::text::place_found(nodes, edges[j].device2);
}

/// A matrix cannot be made where an edge ends at a name that is no node: of the first such
/// edge the device that it leaves is named or, where that is a node, the one it leads to.
pub proof fn missing_nodes_are_named(edges: Seq<EdgeRow>, nodes: Seq<Seq<char>>, i: int)
    requires
        0 <= i < edges.len(),
    ensures
        first_unknown(edges, nodes, i) <==> !(nodes.contains(edges[i].device1) && nodes.contains(
            edges[i].device2,
        )) && forall|k: int|
            0 <= k < i ==> nodes.contains((#[trigger] edges[k]).device1) && nodes.contains(
                edges[k].device2,
            ),
        first_unknown(edges, nodes, i) ==> node_fault(unknown_end(edges[i], nodes)->0)
            == Fault::MatrixConstructionError(
            "Node "@ + (if nodes.contains(edges[i].device1) {
                edges[i].device2
            } else {
                edges[i].device1
            }) + " not found in index"@,
        ),
        (unknown_end(edges[i], nodes) is None) == (nodes.contains(edges[i].device1)
            && nodes.contains(edges[i].device2)),
{
}

/// The operators of columns are those of the edges that the columns are about: the edges one
/// after the other, over and over, then the listed ones, over and over. A column that is not
/// there has none.
pub proof fn columns_have_the_operators_of_edges(
    edges: Seq<EdgeRow>,
    times: int,
    list: Seq<usize>,
    rounds: int,
    far: bool,
    keep: Seq<usize>,
    beyond: usize,
    q: int,
)
    requires
        times >= 0,
        rounds >= 0,
        forall|e: int| 0 <= e < list.len() ==> #[trigger] list[e] < edges.len(),
        forall|x: int|
            0 <= x < keep.len() ==> #[trigger] keep[x] < times * edges.len() + rounds * list.len(),
        beyond >= times * edges.len() + rounds * list.len(),
        0 <= q < keep.len(),
    ensures
        ({
            let all = column_operators(edges, times, list, rounds, far);
            let flows = times * edges.len();
            let edge = if keep[q] < flows {
                edges[keep[q] as int % edges.len() as int]
            } else {
                edges[list[(keep[q] - flows) % list.len() as int] as int]
            };
            &&& kept(all, keep).len() == keep.len()
            &&& kept(all, keep)[q] == if far {
                edge.operator2
            } else {
                edge.operator1
            }
            &&& kept(all, keep.push(beyond)) == kept(all, keep)
        }),
{
    let n = edges.len() as int;
    let m = list.len() as int;
    let all = column_operators(edges, times, list, rounds, far);
    let x = |k: int| Seq::new(edges.len(), |i: int| operator_at(edges[i], far));
    let y = |g: int| operators_at(edges, list, far);
    gather_len(times, x, n);
    let z = |e: int|
        if list[e] < edges.len() {
            seq![operator_at(edges[list[e] as int], far)]
        } else {
            Seq::empty()
        };
    crate::lists::gather_singles(m, z);
    gather_len(rounds, y, m);
    assert(all.len() == times * n + rounds * m);
    let f = |q: int|
        if keep[q] < all.len() {
            seq![all[keep[q] as int]]
        } else {
            Seq::empty()
        };
    crate::lists::gather_singles(keep.len() as int, f);
    assert(kept(all, keep)[q] == f(q)[0]);
    let c = keep[q] as int;
    if c < times * n {
        table_place(c, times, n);
        gather_at(times, x, n, c / n, c % n);
    } else {
        table_place(c - times * n, rounds, m);
        let (g, e) = ((c - times * n) / m, (c - times * n) % m);
        gather_at(rounds, y, m, g, e);
        assert(operators_at(edges, list, far)[e] == z(e)[0]);
    }
    let more = keep.push(beyond);
    let h = |q: int|
        if more[q] < all.len() {
            seq![all[more[q] as int]]
        } else {
            Seq::empty()
        };
    crate::lists::gather_same(keep.len() as int, f, h);
    assert(h(keep.len() as int) =~= Seq::empty());
    assert(kept(all, more) =~= kept(all, keep));
}

} // verus!
