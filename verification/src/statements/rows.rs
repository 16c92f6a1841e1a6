//! What the rows of a linear program are, whatever network it is made for.
use crate::consolidation::links::{kinds_of, used_ids};
use crate::lists::{count_bound, count_where, gather, gather_member, sorted_ids, sorted_ids_exist};
use crate::lp_builder::{
    balance_part, commodities_of, gather_at, group_openers, groups_of, inequality_cols, inner,
    is_public, keep_exists, keep_list, max_shared_bounds, multicast_count, node_names,
    opens_group, operator_at, operators_at, private_count, row_operators, row_operators_len,
    sizes_fit, tie_entries, tie_rows, ties, trunk_operators, trunks, LpBuilderOutput, Share,
    Term,
};
use crate::sparse::placed;
use crate::statements::program::{
    carries_is_trunk, carries_once, heard, heard_same, is_private, rank, trunks_by_rank,
};
use crate::text::views;
use crate::types::{EdgeRow, FlowRow};
use vstd::prelude::*;

verus! {

/// Edge `i` is the first of its bandwidth group.
pub open spec fn is_first(edges: Seq<EdgeRow>, i: int) -> bool {
    edges[i].shared > 0 && forall|k: int|
        0 <= k < i ==> (#[trigger] edges[k]).shared != edges[i].shared
}

/// How many edges do not belong to the public network.
pub open spec fn privates(edges: Seq<EdgeRow>) -> int {
    count_where(edges.len() as int, |i: int| is_private(edges[i])) as int
}

/// How many bandwidth groups there are among the first `n` edges.
pub open spec fn groups_among(edges: Seq<EdgeRow>, n: int) -> int {
    count_where(n, |i: int| is_first(edges, i)) as int
}

/// How many of the bandwidth groups among the first `n` edges have a lower number.
pub open spec fn groups_below(edges: Seq<EdgeRow>, n: int, id: int) -> int {
    count_where(n, |i: int| is_first(edges, i) && edges[i].shared < id) as int
}

proof fn privates_counted(edges: Seq<EdgeRow>)
    ensures
        privates(edges) == private_count(edges),
        privates(edges) <= edges.len(),
{
    let p = |i: int| is_private(edges[i]);
    let q = |i: int| !is_public(edges[i]);
    assert forall|i: int| 0 <= i < edges.len() implies #[trigger] p(i) == q(i) by {
        carries_is_trunk(edges[i]);
    }
    crate::lists::count_same(edges.len() as int, p, q);
    count_bound(edges.len() as int, p);
}

/// A condition that one position more meets counts for one more.
proof fn one_more(n: int, p: spec_fn(int) -> bool, q: spec_fn(int) -> bool, at: int)
    requires
        0 <= at < n,
        q(at),
        !p(at),
        forall|i: int| 0 <= i < n && i != at ==> #[trigger] p(i) == q(i),
    ensures
        count_where(n, q) == count_where(n, p) + 1,
    decreases n,
{
    if at == n - 1 {
        crate::lists::count_same(n - 1, p, q);
    } else {
        one_more(n - 1, p, q, at);
        assert(p(n - 1) == q(n - 1));
    }
}

proof fn none_met(n: int, p: spec_fn(int) -> bool)
    requires
        forall|i: int| 0 <= i < n ==> !#[trigger] p(i),
    ensures
        count_where(n, p) == 0,
    decreases n,
{
    if n > 0 {
        none_met(n - 1, p);
        assert(!p(n - 1));
    }
}

/// The first edge with a group that is in use.
proof fn first_of(edges: Seq<EdgeRow>, id: u32, at: int) -> (i: int)
    requires
        0 <= at < edges.len(),
        edges[at].shared == id,
        id > 0,
    ensures
        0 <= i <= at,
        edges[i].shared == id,
        is_first(edges, i),
    decreases at,
{
    if forall|k: int| 0 <= k < at ==> (#[trigger] edges[k]).shared != id {
        at
    } else {
        let k = choose|k: int| 0 <= k < at && (#[trigger] edges[k]).shared == id;
        first_of(edges, id, k)
    }
}

/// The groups in use, from the lowest number up.
proof fn ids_in_order(edges: Seq<EdgeRow>, q: int) -> (i: int)
    requires
        0 <= q < sorted_ids(used_ids(edges)).len(),
    ensures
        0 <= i < edges.len(),
        is_first(edges, i),
        edges[i].shared == sorted_ids(used_ids(edges))[q],
        groups_below(edges, edges.len() as int, edges[i].shared as int) == q,
    decreases q,
{
    let used = used_ids(edges);
    let ids = sorted_ids(used);
    let n = edges.len() as int;
    sorted_ids_exist(used);
    assert(ids.contains(ids[q]));
    let i = holder(edges, ids[q]);
    let p = |k: int| is_first(edges, k) && edges[k].shared < ids[q];
    let like = |k: int| is_first(edges, k) && edges[k].shared < edges[i].shared as int;
    crate::lists::count_same(n, p, like);
    if q == 0 {
        assert forall|k: int| 0 <= k < n implies !#[trigger] p(k) by {
            if p(k) {
                used_by(edges, k);
                let z = ids.index_of(edges[k].shared);
                assert(ids[z] == edges[k].shared);
                if z > 0 {
                    assert(ids[0] < ids[z]);
                }
            }
        }
        none_met(n, p);
    } else {
        let j = ids_in_order(edges, q - 1);
        let before = |k: int| is_first(edges, k) && edges[k].shared < edges[j].shared as int;
        assert(ids[q - 1] < ids[q]);
        assert forall|k: int| 0 <= k < n && k != j implies #[trigger] before(k) == p(k) by {
            if p(k) && !before(k) {
                used_by(edges, k);
                let z = ids.index_of(edges[k].shared);
                assert(ids[z] == edges[k].shared);
                if z < q - 1 {
                    assert(ids[z] < ids[q - 1]);
                } else if z > q {
                    assert(ids[q] < ids[z]);
                }
                assert(edges[k].shared == edges[j].shared);
                if k < j {
                    assert(edges[k].shared != edges[j].shared);
                } else {
                    assert(edges[j].shared != edges[k].shared);
                }
            }
        }
        one_more(n, before, p, j);
    }
    i
}

proof fn used_by(edges: Seq<EdgeRow>, k: int)
    requires
        0 <= k < edges.len(),
        edges[k].shared > 0,
    ensures
        sorted_ids(used_ids(edges)).contains(edges[k].shared),
{
    let f = |i: int|
        if edges[i].shared > 0 {
            seq![edges[i].shared]
        } else {
            Seq::empty()
        };
    assert(f(k)[0] == edges[k].shared);
    crate::lists::gather_holds(edges.len() as int, f, k, 0);
    assert(used_ids(edges).contains(edges[k].shared));
    sorted_ids_exist(used_ids(edges));
}

proof fn holder(edges: Seq<EdgeRow>, id: u32) -> (i: int)
    requires
        sorted_ids(used_ids(edges)).contains(id),
    ensures
        0 <= i < edges.len(),
        edges[i].shared == id,
        is_first(edges, i),
{
    let used = used_ids(edges);
    sorted_ids_exist(used);
    assert(used.contains(id));
    let z = used.index_of(id);
    let f = |i: int|
        if edges[i].shared > 0 {
            seq![edges[i].shared]
        } else {
            Seq::empty()
        };
    let (k, e) = gather_member(edges.len() as int, f, z);
    assert(f(k)[e] == id);
    first_of(edges, id, k)
}

/// Each bandwidth group of the first edges, as many as are private, has a limit and the
/// operators of the limit: those of its first edge. The groups come by their numbers, whether
/// or not numbers are left out.
pub proof fn limits_come_by_group(
    out: LpBuilderOutput,
    edges: Seq<EdgeRow>,
    flows: Seq<FlowRow>,
    i: int,
)
    requires
        out.describes(edges, flows),
        edges.len() <= usize::MAX,
        0 <= i < privates(edges),
        is_first(edges, i),
    ensures
        ({
            let r = groups_below(edges, privates(edges), edges[i].shared as int);
            &&& 0 <= r < groups_among(edges, privates(edges))
            &&& out.b_ub@[r] == edges[i].bandwidth
            &&& out.row_op1@[r]@ == edges[i].operator1
            &&& out.row_op2@[r]@ == edges[i].operator2
        }),
{
    privates_counted(edges);
    let m = privates(edges);
    let private = edges.take(m);
    let ids = sorted_ids(used_ids(private));
    assert(is_first(private, i)) by {
        assert forall|k: int| 0 <= k < i implies (#[trigger] private[k]).shared
            != private[i].shared by {
            assert(edges[k].shared != edges[i].shared);
        }
    }
    used_by(private, i);
    let q = ids.index_of(edges[i].shared);
    assert(ids[q] == edges[i].shared);
    let j = ids_in_order(private, q);
    groups_same(edges, m, edges[i].shared as int);
    let openers = group_openers(private);
    assert(opens_group(private, ids[q], i));
    crate::reuse::opener_once(private, ids[q], i);
    assert(openers[q] == private[i]);
    groups_listed(private);
    assert(openers.len() == ids.len());
    assert(views(out.row_op1@).len() == out.row_op1@.len());
    assert(views(out.row_op2@).len() == out.row_op2@.len());
    assert(row_operators(edges, flows, false).len() >= openers.len());
    assert(row_operators(edges, flows, true).len() >= openers.len());
    assert(out.row_op1@[q]@ == views(out.row_op1@)[q]);
    assert(out.row_op2@[q]@ == views(out.row_op2@)[q]);
    assert(out.b_ub@[q] == openers[q].bandwidth);
    assert(row_operators(edges, flows, false)[q] == operator_at(openers[q], false));
    assert(row_operators(edges, flows, true)[q] == operator_at(openers[q], true));
}

/// Counting groups among the first edges is counting those of the first edges alone.
proof fn groups_same(edges: Seq<EdgeRow>, m: int, id: int)
    requires
        0 <= m <= edges.len(),
    ensures
        groups_below(edges.take(m), m, id) == groups_below(edges, m, id),
        groups_among(edges.take(m), m) == groups_among(edges, m),
{
    let private = edges.take(m);
    let a = |i: int| is_first(private, i) && private[i].shared < id;
    let b = |i: int| is_first(edges, i) && edges[i].shared < id;
    let c = |i: int| is_first(private, i);
    let d = |i: int| is_first(edges, i);
    assert forall|i: int| 0 <= i < m implies is_first(private, i) == is_first(edges, i) by {
        if is_first(private, i) {
            assert forall|k: int| 0 <= k < i implies (#[trigger] edges[k]).shared
                != edges[i].shared by {
                assert(private[k].shared != private[i].shared);
            }
        }
        if is_first(edges, i) {
            assert forall|k: int| 0 <= k < i implies (#[trigger] private[k]).shared
                != private[i].shared by {
                assert(edges[k].shared != edges[i].shared);
            }
        }
    }
    crate::lists::count_same(m, a, b);
    crate::lists::count_same(m, c, d);
}

/// How many limits there are, and how many operators of limits: one for each bandwidth group
/// of the first edges, as many as are private. Behind them each multicast flow that is
/// received has a limit of zero for each edge that carries it once; where there are such
/// limits, each multicast flow, received or not, has the operators of those edges.
pub proof fn limits_counted(out: LpBuilderOutput, edges: Seq<EdgeRow>, flows: Seq<FlowRow>)
    requires
        out.describes(edges, flows),
        edges.len() <= usize::MAX,
    ensures
        ({
            let groups = groups_among(edges, privates(edges));
            let once = rank(edges, edges.len() as int);
            let tied = heard(flows, flows.len() as int) * once;
            let named = if tied > 0 {
                count_where(flows.len() as int, |d: int| flows[d].multicast) * once
            } else {
                0
            };
            &&& out.b_ub@.len() == groups + tied
            &&& forall|r: int| groups <= r < out.b_ub@.len() ==> (#[trigger] out.b_ub@[r]).bits == 0
            &&& out.row_op1@.len() == groups + named
            &&& out.row_op2@.len() == groups + named
        }),
{
    privates_counted(edges);
    trunks_by_rank(edges);
    heard_same(flows, flows.len() as int);
    let n = privates(edges);
    let private = edges.take(n);
    let ids = sorted_ids(used_ids(private));
    groups_listed(private);
    groups_same(edges, n, 0);
    row_operators_len(edges, flows, false);
    row_operators_len(edges, flows, true);
    assert(views(out.row_op1@).len() == out.row_op1@.len());
    assert(views(out.row_op2@).len() == out.row_op2@.len());
    let once = trunks(edges).len() as int;
    let tied = tie_rows(edges, flows);
    assert(tied >= 0) by (nonlinear_arith)
        requires
            tied == heard(flows, flows.len() as int) * once,
            heard(flows, flows.len() as int) >= 0,
            once >= 0,
    ;
}

/// Where there are ties, each multicast flow has, behind the groups, the operators of each
/// edge that carries it once.
pub proof fn ties_have_operators(
    out: LpBuilderOutput,
    edges: Seq<EdgeRow>,
    flows: Seq<FlowRow>,
    m: int,
    j: int,
)
    requires
        out.describes(edges, flows),
        edges.len() <= usize::MAX,
        heard(flows, flows.len() as int) * rank(edges, edges.len() as int) > 0,
        0 <= m < count_where(flows.len() as int, |d: int| flows[d].multicast),
        0 <= j < edges.len(),
        carries_once(edges[j]),
    ensures
        ({
            let r = groups_among(edges, privates(edges)) + m * rank(edges, edges.len() as int)
                + rank(edges, j);
            &&& 0 <= r < out.row_op1@.len()
            &&& out.row_op1@[r]@ == edges[j].operator1
            &&& out.row_op2@[r]@ == edges[j].operator2
        }),
{
    privates_counted(edges);
    trunks_by_rank(edges);
    heard_same(flows, flows.len() as int);
    groups_listed(edges.take(privates(edges)));
    groups_same(edges, privates(edges), 0);
    assert(views(out.row_op1@).len() == out.row_op1@.len());
    assert(views(out.row_op2@).len() == out.row_op2@.len());
    let once = trunks(edges).len() as int;
    let all = multicast_count(flows) as int;
    let groups = groups_among(edges, privates(edges));
    let e = rank(edges, j);
    let r = groups + m * once + e;
    let near = |m: int| operators_at(edges, trunks(edges), false);
    let far = |m: int| operators_at(edges, trunks(edges), true);
    trunk_operators(edges, false);
    trunk_operators(edges, true);
    gather_at(all, near, once, m, e);
    gather_at(all, far, once, m, e);
    assert(m * once >= 0) by (nonlinear_arith)
        requires
            m >= 0,
            once >= 0,
    ;
    assert(out.row_op1@[r]@ == views(out.row_op1@)[r]);
    assert(out.row_op2@[r]@ == views(out.row_op2@)[r]);
}

/// The groups in use are as many as there are first edges.
proof fn groups_listed(edges: Seq<EdgeRow>)
    ensures
        sorted_ids(used_ids(edges)).len() == groups_among(edges, edges.len() as int),
{
    let ids = sorted_ids(used_ids(edges));
    let n = edges.len() as int;
    let c = |i: int| is_first(edges, i);
    sorted_ids_exist(used_ids(edges));
    if ids.len() == 0 {
        assert forall|i: int| 0 <= i < n implies !#[trigger] c(i) by {
            if c(i) {
                used_by(edges, i);
            }
        }
        none_met(n, c);
    } else {
        let q = ids.len() - 1;
        let i = ids_in_order(edges, q);
        let p = |k: int| is_first(edges, k) && edges[k].shared < edges[i].shared as int;
        assert forall|k: int| 0 <= k < n && k != i implies #[trigger] p(k) == c(k) by {
            if c(k) {
                used_by(edges, k);
                let z = ids.index_of(edges[k].shared);
                assert(ids[z] == edges[k].shared);
                if z < q {
                    assert(ids[z] < ids[q]);
                } else if k < i {
                    assert(edges[k].shared != edges[i].shared);
                } else {
                    assert(edges[i].shared != edges[k].shared);
                }
            }
        }
        one_more(n, p, c, i);
    }
}

/// How many inequalities there are: where there are flows and private edges, one for each
/// number up to the greatest that a bandwidth group has; and one for each multicast flow that
/// is received and each edge that carries it once.
pub proof fn inequalities_counted(
    out: LpBuilderOutput,
    edges: Seq<EdgeRow>,
    flows: Seq<FlowRow>,
    most: int,
)
    requires
        out.describes(edges, flows),
        edges.len() <= usize::MAX,
        forall|i: int| 0 <= i < edges.len() ==> (#[trigger] edges[i]).shared <= most,
        most == 0 || exists|i: int| 0 <= i < edges.len() && (#[trigger] edges[i]).shared == most,
    ensures
        out.a_ub.m == (if flows.len() == 0 || privates(edges) == 0 {
            0
        } else {
            most
        }) + heard(flows, flows.len() as int) * rank(edges, edges.len() as int),
        out.a_ub.n == out.a_eq.n,
{
    privates_counted(edges);
    trunks_by_rank(edges);
    heard_same(flows, flows.len() as int);
    let at = max_shared_bounds(edges);
    let kinds = kinds_of(flows);
    sorted_ids_exist(kinds);
    if flows.len() > 0 {
        assert(kinds.contains(kinds[0]));
        assert(commodities_of(flows).contains(kinds[0]));
    } else {
        if commodities_of(flows).len() > 0 {
            assert(commodities_of(flows).contains(commodities_of(flows)[0]));
            assert(kinds.contains(commodities_of(flows)[0]));
        }
    }
}

/// No coefficient of an inequality is a share of nothing.
pub proof fn shares_are_of_something(
    out: LpBuilderOutput,
    edges: Seq<EdgeRow>,
    flows: Seq<FlowRow>,
    c: int,
    k: int,
)
    requires
        out.describes(edges, flows),
        sizes_fit(edges, flows),
        edges.len() <= usize::MAX,
        0 <= c < out.a_ub.n,
        0 <= k < out.a_ub.cols()[c].len(),
    ensures
        out.a_ub.cols()[c][k].1.den > 0,
{
    let keep = keep_list(edges, flows);
    let at = keep[c] as int;
    keep_exists(edges, flows);
    let tied = ties(
        flows,
        commodities_of(flows),
        groups_of(flows),
        trunks(edges),
        edges.len() as int,
    );
    let whole = |s: Share| s.den > 0;
    assert forall|z: int| 0 <= z < tied.len() implies whole((#[trigger] tied[z]).2) by {
        tie_is_share(edges, flows, z);
    }
    placed_meet(tied, at, whole);
    assert(out.a_ub.cols()[c] == inequality_cols(edges, flows)[at]);
}

proof fn tie_is_share(edges: Seq<EdgeRow>, flows: Seq<FlowRow>, z: int)
    requires
        ({
            let tied = ties(
                flows,
                commodities_of(flows),
                groups_of(flows),
                trunks(edges),
                edges.len() as int,
            );
            0 <= z < tied.len()
        }),
    ensures
        ties(
            flows,
            commodities_of(flows),
            groups_of(flows),
            trunks(edges),
            edges.len() as int,
        )[z].2.den > 0,
{
    let (commodities, groups) = (commodities_of(flows), groups_of(flows));
    let trunk = trunks(edges);
    let n = edges.len() as int;
    let f = |d: int|
        if crate::lp_builder::is_heard(flows[d]) {
            gather(
                trunk.len() as int,
                |e: int| tie_entries(flows, commodities, groups, trunk, n, d, e),
            )
        } else {
            Seq::empty()
        };
    let (d, x) = gather_member(flows.len() as int, f, z);
    let g = |e: int| tie_entries(flows, commodities, groups, trunk, n, d, e);
    let (e, y) = gather_member(trunk.len() as int, g, x);
    assert(g(e).len() == 2);
}

/// What all triplets meet, all entries meet that they make up.
proof fn placed_meet<T>(triplets: Seq<(usize, usize, T)>, j: int, p: spec_fn(T) -> bool)
    requires
        forall|z: int| 0 <= z < triplets.len() ==> p((#[trigger] triplets[z]).2),
    ensures
        forall|k: int| 0 <= k < placed(triplets, j).len() ==> p(
            (#[trigger] placed(triplets, j)[k]).1,
        ),
    decreases triplets.len(),
{
    if triplets.len() > 0 {
        let front = triplets.drop_last();
        assert forall|z: int| 0 <= z < front.len() implies p((#[trigger] front[z]).2) by {
            assert(front[z] == triplets[z]);
        }
        placed_meet(front, j, p);
        let before = placed(front, j);
        let t = triplets.last();
        assert(p(triplets[triplets.len() - 1].2));
        if t.1 == j {
            crate::sparse::slot_bounds(before, t.0);
            let at = crate::sparse::slot(before, t.0);
            assert forall|k: int| 0 <= k < placed(triplets, j).len() implies p(
                (#[trigger] placed(triplets, j)[k]).1,
            ) by {
                if k < at {
                    assert(placed(triplets, j)[k] == before[k]);
                } else if k > at {
                    assert(placed(triplets, j)[k] == before[k - 1]);
                }
            }
        }
    }
}

/// The parts of a balance come in the order of the flows, and where a flow starts before
/// where it ends.
pub proof fn parts_of_balances_come_in_order(
    out: LpBuilderOutput,
    edges: Seq<EdgeRow>,
    flows: Seq<FlowRow>,
    row: int,
    i: int,
    j: int,
)
    requires
        out.describes(edges, flows),
        flows.len() <= usize::MAX,
        0 <= row < out.b_eq@.len(),
        0 <= i < j < out.b_eq@[row]@.len(),
    ensures
        ({
            let (a, b) = (out.b_eq@[row]@[i], out.b_eq@[row]@[j]);
            a.flow < b.flow || a.flow == b.flow && a.starts && !b.starts
        }),
{
    let nodes = node_names(edges, flows);
    let commodities = commodities_of(flows);
    assert(inner(out.b_eq@)[row] == out.b_eq@[row]@);
    assert(inner(out.b_eq@).len() == out.b_eq@.len());
    let f = |d: int| balance_part(flows, nodes, commodities, row, d);
    parts_in_order(flows.len() as int, f, i, j);
}

proof fn parts_in_order(n: int, f: spec_fn(int) -> Seq<Term>, i: int, j: int)
    requires
        n <= usize::MAX,
        forall|d: int|
            0 <= d < n ==> (#[trigger] f(d)).len() <= 2 && (f(d).len() > 0 ==> f(d)[0].flow == d)
                && (f(d).len() == 2 ==> f(d)[1].flow == d && f(d)[0].starts && !f(d)[1].starts),
        0 <= i < gather(n, f).len(),
        0 <= j < gather(n, f).len(),
    ensures
        0 <= gather(n, f)[i].flow < n,
        i < j ==> {
            let (a, b) = (gather(n, f)[i], gather(n, f)[j]);
            a.flow < b.flow || a.flow == b.flow && a.starts && !b.starts
        },
    decreases n,
{
    if n > 0 {
        let before = gather(n - 1, f);
        assert(f(n - 1).len() <= 2);
        if i < before.len() {
            parts_in_order(
                n - 1,
                f,
                i,
                if j < before.len() {
                    j
                } else {
                    i
                },
            );
        }
    }
}

/// A linear program can be built just where its columns and rows can be counted: a column for
/// each commodity and edge and for each multicast group and edge that carries it once; a
/// balance for each node and commodity; and the inequalities of groups and ties.
pub proof fn programs_fit_where_they_can_be_counted(
    edges: Seq<EdgeRow>,
    flows: Seq<FlowRow>,
    most: int,
)
    requires
        edges.len() <= usize::MAX,
        forall|i: int| 0 <= i < edges.len() ==> (#[trigger] edges[i]).shared <= most,
        most == 0 || exists|i: int| 0 <= i < edges.len() && (#[trigger] edges[i]).shared == most,
    ensures
        ({
            let once = rank(edges, edges.len() as int);
            let (k, g) = (commodities_of(flows).len(), groups_of(flows).len());
            sizes_fit(edges, flows) <==> {
                &&& k * edges.len() + g * once <= usize::MAX
                &&& node_names(edges, flows).len() * k <= usize::MAX
                &&& most + heard(flows, flows.len() as int) * once <= usize::MAX
            }
        }),
{
    trunks_by_rank(edges);
    heard_same(flows, flows.len() as int);
    let at = max_shared_bounds(edges);
}

} // verus!
