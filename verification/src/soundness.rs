//! Why the values of coalitions carry over when part of the network changes.
use crate::consolidation::links::kinds_of;
use crate::lists::{count_where, gather, gather_chosen, gather_same, nth_place};
use crate::lp_builder::{
    commodities_of, flow_columns, gather_at, gather_len, group_opener, groups_of, is_heard,
    is_open_to, is_trunk, keep_exists, keep_list, kept_len, opens_group, tolls, trunk_columns,
    trunks, LpBuilderOutput, Toll,
};
use crate::lp_meaning::{at_places, expense, is_point};
use crate::quantity::Real;
use crate::reuse::{gate_keeps_out, has_bit, masks_of, opener_once};
use crate::routing::{
    all_limits, balances, holds_tie, is_own, is_program_of, is_routing, is_uniform, keeps_to,
    lane_at, lane_edge_exists, lane_total, lanes_match, lanes_of, led_groups, limits,
    load_coefficient, net_coefficient, opens_own_group, own_at, own_edges, own_limits, own_places,
    points_are_routings, right_sides, tie_coefficient, Lane,
};
use crate::shapley::gate_of;
use crate::solver::{usable_list, CoalitionProgram, PrecomputedRows};
use crate::text::views;
use crate::types::{EdgeRow, FlowRow};
use crate::warm::table_place;
use vstd::prelude::*;

verus! {

/// Two edges are the same but for the number of their bandwidth group.
pub open spec fn same_but_group(a: EdgeRow, b: EdgeRow) -> bool {
    &&& a.device1 == b.device1
    &&& a.device2 == b.device2
    &&& a.latency == b.latency
    &&& a.bandwidth == b.bandwidth
    &&& a.operator1 == b.operator1
    &&& a.operator2 == b.operator2
    &&& a.link_type == b.link_type
}

/// Two lists hold the same edges, grouped alike, however the groups are numbered.
pub open spec fn alike(a: Seq<EdgeRow>, b: Seq<EdgeRow>) -> bool {
    &&& a.len() == b.len()
    &&& forall|i: int|
        0 <= i < a.len() ==> same_but_group(#[trigger] a[i], b[i]) && (a[i].shared == 0
            <==> b[i].shared == 0)
    &&& forall|i: int, j: int|
        0 <= i < a.len() && 0 <= j < a.len() ==> ((#[trigger] a[i]).shared == (
        #[trigger] a[j]).shared <==> b[i].shared == b[j].shared)
}

/// Likeness goes both ways.
pub proof fn alike_turned(a: Seq<EdgeRow>, b: Seq<EdgeRow>)
    requires
        alike(a, b),
    ensures
        alike(b, a),
{
    assert forall|i: int| 0 <= i < b.len() implies same_but_group(#[trigger] b[i], a[i]) && (
    b[i].shared == 0 <==> a[i].shared == 0) by {
        assert(same_but_group(a[i], b[i]));
    }
    assert forall|i: int, j: int| 0 <= i < b.len() && 0 <= j < b.len() implies ((
    #[trigger] b[i]).shared == (#[trigger] b[j]).shared <==> a[i].shared == a[j].shared) by {
        assert(a[i].shared == a[j].shared <==> b[i].shared == b[j].shared);
    }
}

/// The lanes over edges that are alike are the same.
pub proof fn lanes_alike(a: Seq<EdgeRow>, b: Seq<EdgeRow>, flows: Seq<FlowRow>)
    requires
        alike(a, b),
    ensures
        trunks(a) == trunks(b),
        lanes_of(a, flows) == lanes_of(b, flows),
{
    let n = a.len() as int;
    let t1 = |i: int|
        if is_trunk(a[i]) {
            seq![i as usize]
        } else {
            Seq::empty()
        };
    let t2 = |i: int|
        if is_trunk(b[i]) {
            seq![i as usize]
        } else {
            Seq::empty()
        };
    assert forall|i: int| 0 <= i < n implies #[trigger] t1(i) == t2(i) by {
        assert(same_but_group(a[i], b[i]));
    }
    gather_same(n, t1, t2);
    let commodities = commodities_of(flows);
    let f = |k: int|
        gather(
            n,
            |j: int|
                if is_open_to(a[j], commodities[k]) {
                    seq![Lane::Flow { commodity: k, edge: j }]
                } else {
                    Seq::empty()
                },
        );
    let g = |k: int|
        gather(
            n,
            |j: int|
                if is_open_to(b[j], commodities[k]) {
                    seq![Lane::Flow { commodity: k, edge: j }]
                } else {
                    Seq::empty()
                },
        );
    assert forall|k: int| 0 <= k < commodities.len() implies #[trigger] f(k) == g(k) by {
        let x = |j: int|
            if is_open_to(a[j], commodities[k]) {
                seq![Lane::Flow { commodity: k, edge: j }]
            } else {
                Seq::empty()
            };
        let y = |j: int|
            if is_open_to(b[j], commodities[k]) {
                seq![Lane::Flow { commodity: k, edge: j }]
            } else {
                Seq::empty()
            };
        assert forall|j: int| 0 <= j < n implies #[trigger] x(j) == y(j) by {
            assert(same_but_group(a[j], b[j]));
        }
        gather_same(n, x, y);
    }
    gather_same(commodities.len() as int, f, g);
}

/// Coefficients that agree on the lanes come to the same.
proof fn totals_agree(
    lanes: Seq<Lane>,
    c: spec_fn(Lane) -> real,
    e: spec_fn(Lane) -> real,
    y: Seq<real>,
)
    requires
        forall|q: int| 0 <= q < lanes.len() ==> c(#[trigger] lanes[q]) == e(lanes[q]),
    ensures
        lane_total(lanes, c, y) == lane_total(lanes, e, y),
{
    assert(Seq::new(lanes.len(), |q: int| c(lanes[q])) =~= Seq::new(
        lanes.len(),
        |q: int| e(lanes[q]),
    ));
}

/// Of lists that are alike, the same edges are first in their groups.
pub proof fn openers_alike(a: Seq<EdgeRow>, b: Seq<EdgeRow>, j: int)
    requires
        alike(a, b),
    ensures
        opens_own_group(a, j) <==> opens_own_group(b, j),
{
    if 0 <= j < a.len() {
        assert(same_but_group(a[j], b[j]));
        if opens_own_group(b, j) {
            assert forall|i: int| 0 <= i < j implies (#[trigger] a[i]).shared != a[j].shared by {
                assert(b[i].shared != b[j].shared);
                assert(a[i].shared == a[j].shared <==> b[i].shared == b[j].shared);
            }
        }
        if opens_own_group(a, j) {
            assert forall|i: int| 0 <= i < j implies (#[trigger] b[i]).shared != b[j].shared by {
                assert(a[i].shared != a[j].shared);
                assert(a[i].shared == a[j].shared <==> b[i].shared == b[j].shared);
            }
        }
    }
}

/// The groups of the same edges have the same limits.
pub open spec fn limits_alike(
    a: Seq<EdgeRow>,
    b: Seq<EdgeRow>,
    bound1: spec_fn(u32) -> Option<Real>,
    bound2: spec_fn(u32) -> Option<Real>,
) -> bool {
    forall|i: int|
        0 <= i < a.len() && (#[trigger] a[i]).shared > 0 ==> bound1(a[i].shared) == bound2(b[i].shared)
}

/// A routing over some edges is one over edges that are alike, with limits alike.
pub proof fn routing_carries_over(
    a: Seq<EdgeRow>,
    b: Seq<EdgeRow>,
    bound1: spec_fn(u32) -> Option<Real>,
    bound2: spec_fn(u32) -> Option<Real>,
    flows: Seq<FlowRow>,
    amount: spec_fn(int) -> real,
    worth: spec_fn(Real) -> real,
    y: Seq<real>,
)
    requires
        alike(a, b),
        limits_alike(a, b, bound1, bound2),
        a.len() <= usize::MAX,
        is_routing(a, bound1, flows, amount, worth, y),
    ensures
        is_routing(b, bound2, flows, amount, worth, y),
{
    lanes_alike(a, b, flows);
    let lanes = lanes_of(a, flows);
    crate::lp_builder::trunks_are_edges(a);
    assert forall|k: int, v: Seq<char>| 0 <= k < commodities_of(flows).len() implies #[trigger]
    balances(b, flows, amount, y, k, v) by {
        assert(balances(a, flows, amount, y, k, v));
        let c = |lane: Lane| net_coefficient(a, lane, k, v);
        let e = |lane: Lane| net_coefficient(b, lane, k, v);
        assert forall|q: int| 0 <= q < lanes.len() implies c(#[trigger] lanes[q]) == e(
            lanes[q],
        ) by {
            lane_edge_exists(a, flows, q);
            match lanes[q] {
                Lane::Flow { commodity, edge } => {
                    assert(same_but_group(a[edge], b[edge]));
                },
                Lane::Trunk { group, trunk } => {},
            }
        }
        totals_agree(lanes, c, e, y);
    }
    assert forall|j: int| #[trigger] opens_own_group(b, j) implies keeps_to(
        b,
        flows,
        worth,
        y,
        b[j].shared,
        bound2(b[j].shared),
    ) by {
        openers_alike(a, b, j);
        assert(bound1(a[j].shared) == bound2(b[j].shared));
        let c = |lane: Lane| load_coefficient(a, flows, lane, a[j].shared);
        let e = |lane: Lane| load_coefficient(b, flows, lane, b[j].shared);
        assert forall|q: int| 0 <= q < lanes.len() implies c(#[trigger] lanes[q]) == e(
            lanes[q],
        ) by {
            lane_edge_exists(a, flows, q);
            match lanes[q] {
                Lane::Flow { commodity, edge } => {
                    assert(same_but_group(a[edge], b[edge]));
                    assert(a[edge].shared == a[j].shared <==> b[edge].shared == b[j].shared);
                },
                Lane::Trunk { group, trunk } => {
                    let x = trunks(a)[trunk] as int;
                    assert(a[x].shared == a[j].shared <==> b[x].shared == b[j].shared);
                },
            }
        }
        totals_agree(lanes, c, e, y);
        assert(same_but_group(a[j], b[j]));
    }
    assert forall|d: int, t: int|
        0 <= d < flows.len() && is_heard(flows[d]) && 0 <= t < trunks(
            b,
        ).len() implies #[trigger] holds_tie(b, flows, worth, y, d, t) by {
        assert(holds_tie(a, flows, worth, y, d, t));
        let c = |lane: Lane| tie_coefficient(a, flows, lane, d, t);
        let e = |lane: Lane| tie_coefficient(b, flows, lane, d, t);
        totals_agree(lanes, c, e, y);
    }
}

/// The edge belongs to a player that is named as changed.
pub open spec fn is_touched(
    edge: EdgeRow,
    changed: Seq<Seq<char>>,
    players: Seq<Seq<char>>,
) -> bool {
    (changed.contains(edge.operator1) && has_bit(edge.operator1, players)) || (changed.contains(
        edge.operator2,
    ) && has_bit(edge.operator2, players))
}

/// The edges that belong to no player that is named as changed.
pub open spec fn untouched(
    edges: Seq<EdgeRow>,
    changed: Seq<Seq<char>>,
    players: Seq<Seq<char>>,
) -> Seq<EdgeRow> {
    gather(
        edges.len() as int,
        |i: int|
            if is_touched(edges[i], changed, players) {
                Seq::empty()
            } else {
                seq![edges[i]]
            },
    )
}

/// The first edge of a bandwidth group belongs to no player that is named as changed.
pub open spec fn leads_untouched(
    edges: Seq<EdgeRow>,
    changed: Seq<Seq<char>>,
    players: Seq<Seq<char>>,
    id: u32,
) -> bool {
    exists|x: int| #[trigger]
        opens_group(edges, id, x) && !is_touched(edges[x], changed, players)
}

/// Of the groups of edges that are untouched, the same are led by such edges.
pub open spec fn leads_alike(
    edges1: Seq<EdgeRow>,
    edges2: Seq<EdgeRow>,
    changed: Seq<Seq<char>>,
    players: Seq<Seq<char>>,
) -> bool {
    let (a, b) = (untouched(edges1, changed, players), untouched(edges2, changed, players));
    forall|j: int|
        0 <= j < a.len() && (#[trigger] a[j]).shared > 0 ==> leads_untouched(
            edges1,
            changed,
            players,
            a[j].shared,
        ) == leads_untouched(edges2, changed, players, b[j].shared)
}

/// A coalition without changed players is limited in a group that is led by an edge that
/// is untouched, and whose first such edge is at its disposal.
proof fn led_by_untouched(
    edges: Seq<EdgeRow>,
    changed: Seq<Seq<char>>,
    players: Seq<Seq<char>>,
    coalition: u32,
    id: u32,
)
    requires
        coalition & gate_of(changed, players) == 0,
        id > 0,
    ensures
        led_groups(edges, players, coalition)(id) <==> leads_untouched(edges, changed, players, id)
            && exists|j: int| #[trigger]
            opens_own_group(untouched(edges, changed, players), j) && untouched(
                edges,
                changed,
                players,
            )[j].shared == id && is_own(untouched(edges, changed, players)[j], players, coalition),
        leads_untouched(edges, changed, players, id) ==> forall|j: int| #[trigger]
            opens_own_group(untouched(edges, changed, players), j) && untouched(
                edges,
                changed,
                players,
            )[j].shared == id ==> group_opener(edges, id) == untouched(edges, changed, players)[j],
{
    let rest = untouched(edges, changed, players);
    let n = edges.len() as int;
    let p = |i: int| !is_touched(edges[i], changed, players);
    gather_chosen(edges, n, p, |j: int, e: EdgeRow| seq![e]);
    gather_same(
        n,
        |i: int|
            if is_touched(edges[i], changed, players) {
                Seq::empty()
            } else {
                seq![edges[i]]
            },
        |i: int|
            if p(i) {
                seq![edges[i]]
            } else {
                Seq::empty()
            },
    );
    assert forall|x: int| #[trigger] opens_group(edges, id, x) && p(x) implies opens_own_group(
        rest,
        count_where(x, p) as int,
    ) && rest[count_where(x, p) as int] == edges[x] by {
        let j = count_where(x, p) as int;
        assert forall|i: int| 0 <= i < j implies (#[trigger] rest[i]).shared != rest[j].shared by {
            let at = nth_place(x, p, i);
            assert(p(at));
            assert(rest[count_where(at, p) as int] == edges[at]);
        }
    }
    if led_groups(edges, players, coalition)(id) {
        let x = choose|x: int| #[trigger]
            opens_group(edges, id, x) && is_own(edges[x], players, coalition);
        let e = edges[x];
        if is_touched(e, changed, players) {
            if changed.contains(e.operator1) && has_bit(e.operator1, players) {
                gate_keeps_out(changed, players, e.operator1, coalition);
            } else {
                gate_keeps_out(changed, players, e.operator2, coalition);
            }
        }
        assert(p(x));
        assert(opens_own_group(rest, count_where(x, p) as int));
    }
    if leads_untouched(edges, changed, players, id) {
        let x = choose|x: int| #[trigger]
            opens_group(edges, id, x) && !is_touched(edges[x], changed, players);
        assert(p(x));
        let k = count_where(x, p) as int;
        assert(opens_own_group(rest, k));
        opener_once(edges, id, x);
        assert forall|j: int| #[trigger] opens_own_group(rest, j) && rest[j].shared
            == id implies group_opener(edges, id) == rest[j] && rest[j] == edges[x] by {
            if j < k {
                assert(rest[j].shared != rest[k].shared);
            } else if k < j {
                assert(rest[k].shared != rest[j].shared);
            }
        }
    }
}

/// A coalition without changed players has its edges among those that are untouched.
proof fn own_among_untouched(
    edges: Seq<EdgeRow>,
    changed: Seq<Seq<char>>,
    players: Seq<Seq<char>>,
    coalition: u32,
)
    requires
        coalition & gate_of(changed, players) == 0,
    ensures
        own_edges(edges, players, coalition) == own_edges(
            untouched(edges, changed, players),
            players,
            coalition,
        ),
{
    let n = edges.len() as int;
    let p = |i: int| !is_touched(edges[i], changed, players);
    let h = |j: int, e: EdgeRow|
        if is_own(e, players, coalition) {
            seq![e]
        } else {
            Seq::empty()
        };
    gather_chosen(edges, n, p, h);
    let chosen = |i: int|
        if p(i) {
            seq![edges[i]]
        } else {
            Seq::empty()
        };
    let given = |i: int|
        if is_touched(edges[i], changed, players) {
            Seq::empty()
        } else {
            seq![edges[i]]
        };
    gather_same(n, chosen, given);
    let rest = untouched(edges, changed, players);
    let by_rest = |j: int| h(j, rest[j]);
    let listed = |j: int|
        if is_own(rest[j], players, coalition) {
            seq![rest[j]]
        } else {
            Seq::empty()
        };
    gather_same(rest.len() as int, by_rest, listed);
    let over = |i: int|
        if p(i) {
            h(count_where(i, p) as int, edges[i])
        } else {
            Seq::empty()
        };
    let own = |i: int|
        if is_own(edges[i], players, coalition) {
            seq![edges[i]]
        } else {
            Seq::empty()
        };
    assert forall|i: int| 0 <= i < n implies #[trigger] over(i) == own(i) by {
        let e = edges[i];
        if is_touched(e, changed, players) {
            if changed.contains(e.operator1) && has_bit(e.operator1, players) {
                gate_keeps_out(changed, players, e.operator1, coalition);
            } else {
                gate_keeps_out(changed, players, e.operator2, coalition);
            }
        }
    }
    gather_same(n, over, own);
}

/// Of lists that are alike, a coalition has edges that are alike, from the same places.
proof fn own_alike(
    a: Seq<EdgeRow>,
    b: Seq<EdgeRow>,
    players: Seq<Seq<char>>,
    coalition: u32,
)
    requires
        alike(a, b),
    ensures
        alike(own_edges(a, players, coalition), own_edges(b, players, coalition)),
        forall|j: int|
            0 <= j < own_edges(a, players, coalition).len() ==> exists|i: int|
                0 <= i < a.len() && #[trigger] own_edges(a, players, coalition)[j] == #[trigger] a[i]
                    && own_edges(b, players, coalition)[j] == b[i],
{
    let n = a.len() as int;
    let (p, q) = (own_at(a, players, coalition), own_at(b, players, coalition));
    own_places(a, players, coalition);
    own_places(b, players, coalition);
    let (x, y) = (own_edges(a, players, coalition), own_edges(b, players, coalition));
    assert forall|i: int| 0 <= i < n implies #[trigger] p(i) == q(i) by {
        assert(same_but_group(a[i], b[i]));
    }
    crate::lists::count_same(n, p, q);
    assert forall|j: int| 0 <= j < x.len() implies same_but_group(#[trigger] x[j], y[j]) && (
    x[j].shared == 0 <==> y[j].shared == 0) by {
        let i = nth_place(n, p, j);
        crate::lists::count_same(i, p, q);
        assert(p(i) && q(i));
        assert(x[j] == a[i] && y[j] == b[i]);
    }
    assert forall|j: int, k: int| 0 <= j < x.len() && 0 <= k < x.len() implies ((
    #[trigger] x[j]).shared == (#[trigger] x[k]).shared <==> y[j].shared == y[k].shared) by {
        let (i, m) = (nth_place(n, p, j), nth_place(n, p, k));
        crate::lists::count_same(i, p, q);
        crate::lists::count_same(m, p, q);
        assert(p(i) && q(i) && p(m) && q(m));
        assert(x[j] == a[i] && y[j] == b[i] && x[k] == a[m] && y[k] == b[m]);
        assert(a[i].shared == a[m].shared <==> b[i].shared == b[m].shared);
    }
    assert forall|j: int| 0 <= j < x.len() implies exists|i: int|
        0 <= i < a.len() && #[trigger] x[j] == #[trigger] a[i] && y[j] == b[i] by {
        let i = nth_place(n, p, j);
        crate::lists::count_same(i, p, q);
        assert(p(i) && q(i));
        assert(x[j] == a[i] && y[j] == b[i]);
    }
}

/// Two networks that agree on the edges of players that did not change have the same
/// linear program for every coalition of such players: the same points. So the value of
/// such a coalition carries over, whether links were changed, added or taken away, and
/// whoever shares a bandwidth group; only a group must not come to be led, or cease to be,
/// by an edge of a player that changed.
pub proof fn values_carry_over(
    program1: CoalitionProgram,
    program2: CoalitionProgram,
    out1: LpBuilderOutput,
    out2: LpBuilderOutput,
    rows1: PrecomputedRows,
    rows2: PrecomputedRows,
    edges1: Seq<EdgeRow>,
    edges2: Seq<EdgeRow>,
    flows: Seq<FlowRow>,
    players: Seq<Seq<char>>,
    changed: Seq<Seq<char>>,
    coalition: u32,
    amount: spec_fn(int) -> real,
    worth: spec_fn(Real) -> real,
    y: Seq<real>,
)
    requires
        out1.describes(edges1, flows),
        out2.describes(edges2, flows),
        is_program_of(program1, out1, rows1, players, coalition),
        is_program_of(program2, out2, rows2, players, coalition),
        is_uniform(edges1, flows),
        is_uniform(edges2, flows),
        alike(untouched(edges1, changed, players), untouched(edges2, changed, players)),
        leads_alike(edges1, edges2, changed, players),
        coalition & gate_of(changed, players) == 0,
    ensures
        program1.cols@.len() == program2.cols@.len(),
        is_point(program1, right_sides(out1, amount), limits(out1, worth), y) <==> is_point(
            program2,
            right_sides(out2, amount),
            limits(out2, worth),
            y,
        ),
{
    let own1 = own_edges(edges1, players, coalition);
    let own2 = own_edges(edges2, players, coalition);
    same_sight(edges1, edges2, changed, players, coalition);
    points_are_routings(
        program1,
        out1,
        rows1,
        edges1,
        flows,
        players,
        coalition,
        amount,
        worth,
        y,
    );
    points_are_routings(
        program2,
        out2,
        rows2,
        edges2,
        flows,
        players,
        coalition,
        amount,
        worth,
        y,
    );
    lanes_alike(own1, own2, flows);
    alike_turned(own1, own2);
    own_places(edges1, players, coalition);
    own_places(edges2, players, coalition);
    crate::lists::count_bound(edges1.len() as int, own_at(edges1, players, coalition));
    crate::lists::count_bound(edges2.len() as int, own_at(edges2, players, coalition));
    let bound1 = own_limits(edges1, players, coalition);
    let bound2 = own_limits(edges2, players, coalition);
    if is_routing(own1, bound1, flows, amount, worth, y) {
        routing_carries_over(own1, own2, bound1, bound2, flows, amount, worth, y);
    }
    if is_routing(own2, bound2, flows, amount, worth, y) {
        routing_carries_over(own2, own1, bound2, bound1, flows, amount, worth, y);
    }
}

/// Both networks give a coalition without changed players edges that are alike, with
/// limits alike.
pub proof fn same_sight(
    edges1: Seq<EdgeRow>,
    edges2: Seq<EdgeRow>,
    changed: Seq<Seq<char>>,
    players: Seq<Seq<char>>,
    coalition: u32,
)
    requires
        alike(untouched(edges1, changed, players), untouched(edges2, changed, players)),
        leads_alike(edges1, edges2, changed, players),
        coalition & gate_of(changed, players) == 0,
    ensures
        alike(
            own_edges(edges1, players, coalition),
            own_edges(edges2, players, coalition),
        ),
        limits_alike(
            own_edges(edges1, players, coalition),
            own_edges(edges2, players, coalition),
            own_limits(edges1, players, coalition),
            own_limits(edges2, players, coalition),
        ),
        limits_alike(
            own_edges(edges2, players, coalition),
            own_edges(edges1, players, coalition),
            own_limits(edges2, players, coalition),
            own_limits(edges1, players, coalition),
        ),
{
    own_among_untouched(edges1, changed, players, coalition);
    own_among_untouched(edges2, changed, players, coalition);
    own_alike(
        untouched(edges1, changed, players),
        untouched(edges2, changed, players),
        players,
        coalition,
    );
    let (a, b) = (untouched(edges1, changed, players), untouched(edges2, changed, players));
    let (x, y) = (
        own_edges(edges1, players, coalition),
        own_edges(edges2, players, coalition),
    );
    assert forall|j: int| 0 <= j < x.len() && x[j].shared > 0 implies own_limits(
        edges1,
        players,
        coalition,
    )((#[trigger] x[j]).shared) == own_limits(edges2, players, coalition)(y[j].shared) by {
        assert(same_but_group(x[j], y[j]));
        let i = choose|i: int|
            0 <= i < a.len() && own_edges(a, players, coalition)[j] == #[trigger] a[i] && own_edges(
                b,
                players,
                coalition,
            )[j] == b[i];
        led_by_untouched(edges1, changed, players, coalition, a[i].shared);
        led_by_untouched(edges2, changed, players, coalition, b[i].shared);
        assert forall|k: int| 0 <= k < a.len() implies (#[trigger] opens_own_group(a, k)
            && a[k].shared == a[i].shared && is_own(a[k], players, coalition)) == (opens_own_group(
            b,
            k,
        ) && b[k].shared == b[i].shared && is_own(b[k], players, coalition)) by {
            openers_alike(a, b, k);
            assert(same_but_group(a[k], b[k]));
            assert(a[k].shared == a[i].shared <==> b[k].shared == b[i].shared);
        }
        if exists|k: int| #[trigger]
            opens_own_group(a, k) && a[k].shared == a[i].shared && is_own(a[k], players, coalition) {
            let k = choose|k: int| #[trigger]
                opens_own_group(a, k) && a[k].shared == a[i].shared && is_own(
                    a[k],
                    players,
                    coalition,
                );
            assert(opens_own_group(b, k));
            assert(same_but_group(a[k], b[k]));
        }
        if exists|k: int| #[trigger]
            opens_own_group(b, k) && b[k].shared == b[i].shared && is_own(b[k], players, coalition) {
            let k = choose|k: int| #[trigger]
                opens_own_group(b, k) && b[k].shared == b[i].shared && is_own(
                    b[k],
                    players,
                    coalition,
                );
            assert(opens_own_group(a, k));
        }
    }
    assert forall|j: int| 0 <= j < y.len() && (#[trigger] y[j]).shared > 0 implies own_limits(
        edges2,
        players,
        coalition,
    )(y[j].shared) == own_limits(edges1, players, coalition)(x[j].shared) by {
        assert(same_but_group(x[j], y[j]));
        assert(x[j].shared > 0);
    }
}

/// What the columns of a linear program cost, where commodity `k` is rated `rate(k)`.
pub open spec fn prices(
    out: LpBuilderOutput,
    edges: Seq<EdgeRow>,
    worth: spec_fn(Real) -> real,
    rate: spec_fn(int) -> real,
) -> Seq<real> {
    Seq::new(
        out.cost@.len(),
        |q: int|
            match out.cost@[q] {
                Some(toll) => worth(edges[toll.link as int].latency) * rate(toll.commodity as int),
                None => 0real,
            },
    )
}

/// What a lane costs.
pub open spec fn lane_price(
    own: Seq<EdgeRow>,
    worth: spec_fn(Real) -> real,
    rate: spec_fn(int) -> real,
    lane: Lane,
) -> real {
    match lane {
        Lane::Flow { commodity: k, edge: j } => worth(own[j].latency) * rate(k),
        Lane::Trunk { .. } => 0real,
    }
}

/// A point of a coalition's linear program costs what its lanes cost.
pub proof fn cost_is_that_of_lanes(
    program: CoalitionProgram,
    out: LpBuilderOutput,
    rows: PrecomputedRows,
    edges: Seq<EdgeRow>,
    flows: Seq<FlowRow>,
    players: Seq<Seq<char>>,
    coalition: u32,
    worth: spec_fn(Real) -> real,
    rate: spec_fn(int) -> real,
    y: Seq<real>,
)
    requires
        out.describes(edges, flows),
        is_program_of(program, out, rows, players, coalition),
        is_uniform(edges, flows),
        y.len() == program.cols@.len(),
    ensures
        ({
            let own = own_edges(edges, players, coalition);
            expense(
                at_places(prices(out, edges, worth, rate), program.cols@),
                y,
                y.len() as int,
            ) == lane_total(
                lanes_of(own, flows),
                |lane: Lane| lane_price(own, worth, rate, lane),
                y,
            )
        }),
{
    let own = own_edges(edges, players, coalition);
    let lanes = lanes_of(own, flows);
    let near = masks_of(views(out.col_op1@), players);
    let far = masks_of(views(out.col_op2@), players);
    let list = usable_list(near, far, coalition);
    let keep = keep_list(edges, flows);
    let n = edges.len() as int;
    let k = commodities_of(flows).len() as int;
    let free = trunk_columns(edges, flows);
    let all = tolls(n, k, free);
    let p = own_at(edges, players, coalition);
    lanes_match(out, edges, flows, players, coalition);
    keep_exists(edges, flows);
    own_places(edges, players, coalition);
    let f = |k: int|
        Seq::new(n as nat, |i: int| Some(Toll { link: i as usize, commodity: k as usize }));
    gather_len(k, f, n);
    assert(free >= 0) by (nonlinear_arith)
        requires
            free == groups_of(flows).len() * trunks(edges).len() as int,
    ;
    kept_len(all, keep);
    let list_prices = at_places(prices(out, edges, worth, rate), list);
    let c = |lane: Lane| lane_price(own, worth, rate, lane);
    let wanted = Seq::new(lanes.len(), |q: int| c(lanes[q]));
    assert forall|q: int| 0 <= q < list.len() implies #[trigger] list_prices[q] == wanted[q] by {
        let at = keep[list[q] as int] as int;
        assert(lanes[q] == lane_at(edges, flows, players, coalition, at));
        assert(out.cost@[list[q] as int] == all[at]);
        if at < flow_columns(edges, flows) {
            table_place(at, k, n);
            let (b, i) = (at / n, at % n);
            gather_at(k, f, n, b, i);
            assert(all[at] == f(b)[i]);
            assert(p(i));
            assert(own[count_where(i, p) as int] == edges[i]);
            commodities_small(flows);
        } else {
            assert(all[at] == None::<Toll>);
        }
    }
    assert(list_prices =~= wanted);
}

/// There are no more commodities than numbers for them.
pub proof fn commodities_small(flows: Seq<FlowRow>)
    ensures
        commodities_of(flows).len() <= u32::MAX + 1,
{
    let ids = commodities_of(flows);
    crate::lists::sorted_ids_exist(kinds_of(flows));
    if ids.len() > 0 {
        ascending_from(ids, ids.len() - 1);
    }
}

/// In an ascending list a member is no smaller than its place.
proof fn ascending_from(s: Seq<u32>, k: int)
    requires
        crate::lists::ordered(s, crate::lists::below()),
        0 <= k < s.len(),
    ensures
        k <= s[k],
    decreases k,
{
    if k > 0 {
        ascending_from(s, k - 1);
        assert(crate::lists::below()(s[k - 1], s[k]));
    }
}

/// Lanes over edges that are alike cost the same.
pub proof fn lane_costs_agree(
    a: Seq<EdgeRow>,
    b: Seq<EdgeRow>,
    flows: Seq<FlowRow>,
    worth: spec_fn(Real) -> real,
    rate: spec_fn(int) -> real,
    y: Seq<real>,
)
    requires
        alike(a, b),
    ensures
        lane_total(lanes_of(a, flows), |lane: Lane| lane_price(a, worth, rate, lane), y)
            == lane_total(lanes_of(b, flows), |lane: Lane| lane_price(b, worth, rate, lane), y),
{
    lanes_alike(a, b, flows);
    let lanes = lanes_of(a, flows);
    let c = |lane: Lane| lane_price(a, worth, rate, lane);
    let e = |lane: Lane| lane_price(b, worth, rate, lane);
    assert forall|q: int| 0 <= q < lanes.len() implies c(#[trigger] lanes[q]) == e(lanes[q]) by {
        lane_edge_exists(a, flows, q);
        match lanes[q] {
            Lane::Flow { commodity, edge } => {
                assert(same_but_group(a[edge], b[edge]));
            },
            Lane::Trunk { group, trunk } => {},
        }
    }
    totals_agree(lanes, c, e, y);
}

/// Points of a coalition without changed players cost the same in both networks.
pub proof fn costs_of_points_carry_over(
    program1: CoalitionProgram,
    program2: CoalitionProgram,
    out1: LpBuilderOutput,
    out2: LpBuilderOutput,
    rows1: PrecomputedRows,
    rows2: PrecomputedRows,
    edges1: Seq<EdgeRow>,
    edges2: Seq<EdgeRow>,
    flows: Seq<FlowRow>,
    players: Seq<Seq<char>>,
    changed: Seq<Seq<char>>,
    coalition: u32,
    worth: spec_fn(Real) -> real,
    rate: spec_fn(int) -> real,
    y: Seq<real>,
)
    requires
        out1.describes(edges1, flows),
        out2.describes(edges2, flows),
        is_program_of(program1, out1, rows1, players, coalition),
        is_program_of(program2, out2, rows2, players, coalition),
        is_uniform(edges1, flows),
        is_uniform(edges2, flows),
        alike(untouched(edges1, changed, players), untouched(edges2, changed, players)),
        leads_alike(edges1, edges2, changed, players),
        coalition & gate_of(changed, players) == 0,
        y.len() == program1.cols@.len(),
        y.len() == program2.cols@.len(),
    ensures
        expense(
            at_places(prices(out1, edges1, worth, rate), program1.cols@),
            y,
            y.len() as int,
        ) == expense(
            at_places(prices(out2, edges2, worth, rate), program2.cols@),
            y,
            y.len() as int,
        ),
{
    let own1 = own_edges(edges1, players, coalition);
    let own2 = own_edges(edges2, players, coalition);
    same_sight(edges1, edges2, changed, players, coalition);
    lanes_alike(own1, own2, flows);
    cost_is_that_of_lanes(
        program1,
        out1,
        rows1,
        edges1,
        flows,
        players,
        coalition,
        worth,
        rate,
        y,
    );
    cost_is_that_of_lanes(
        program2,
        out2,
        rows2,
        edges2,
        flows,
        players,
        coalition,
        worth,
        rate,
        y,
    );
    lane_costs_agree(own1, own2, flows, worth, rate, y);
}

/// The groups of the same edges that are untouched have first edges of the same bandwidth.
pub open spec fn first_limits_alike(
    edges1: Seq<EdgeRow>,
    edges2: Seq<EdgeRow>,
    changed: Seq<Seq<char>>,
    players: Seq<Seq<char>>,
) -> bool {
    limits_alike(
        untouched(edges1, changed, players),
        untouched(edges2, changed, players),
        all_limits(edges1),
        all_limits(edges2),
    )
}

/// Both networks give a coalition without changed players edges that are alike, with the
/// limits of the whole network alike.
pub proof fn same_limits(
    edges1: Seq<EdgeRow>,
    edges2: Seq<EdgeRow>,
    changed: Seq<Seq<char>>,
    players: Seq<Seq<char>>,
    coalition: u32,
)
    requires
        alike(untouched(edges1, changed, players), untouched(edges2, changed, players)),
        first_limits_alike(edges1, edges2, changed, players),
        coalition & gate_of(changed, players) == 0,
    ensures
        alike(
            own_edges(edges1, players, coalition),
            own_edges(edges2, players, coalition),
        ),
        limits_alike(
            own_edges(edges1, players, coalition),
            own_edges(edges2, players, coalition),
            all_limits(edges1),
            all_limits(edges2),
        ),
        limits_alike(
            own_edges(edges2, players, coalition),
            own_edges(edges1, players, coalition),
            all_limits(edges2),
            all_limits(edges1),
        ),
{
    own_among_untouched(edges1, changed, players, coalition);
    own_among_untouched(edges2, changed, players, coalition);
    let (a, b) = (untouched(edges1, changed, players), untouched(edges2, changed, players));
    own_alike(a, b, players, coalition);
    let (x, y) = (
        own_edges(edges1, players, coalition),
        own_edges(edges2, players, coalition),
    );
    assert forall|j: int| 0 <= j < x.len() && x[j].shared > 0 implies all_limits(edges1)(
        (#[trigger] x[j]).shared,
    ) == all_limits(edges2)(y[j].shared) by {
        let i = choose|i: int|
            0 <= i < a.len() && own_edges(a, players, coalition)[j] == #[trigger] a[i] && own_edges(
                b,
                players,
                coalition,
            )[j] == b[i];
        assert(a[i].shared > 0);
    }
    assert forall|j: int| 0 <= j < y.len() && (#[trigger] y[j]).shared > 0 implies all_limits(
        edges2,
    )(y[j].shared) == all_limits(edges1)(x[j].shared) by {
        assert(same_but_group(x[j], y[j]));
        assert(x[j].shared > 0);
    }
}

} // verus!
