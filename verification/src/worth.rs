//! What a coalition is worth, how it is found, and when it carries over to another network.
use crate::laws::devices_private;
use crate::lp_builder::{program_fits_together, sizes_fit, LpBuilderOutput};
use crate::lp_meaning::{
    at_places, expense, is_pinned_point, is_point, pinned_points_are_spread, spread,
    spreading_keeps_the_cost,
};
use crate::quantity::Real;
use crate::reuse::masks_of;
use crate::routing::{
    all_limits, is_program_of, is_routing, is_uniform, lane_total, lanes_of, limits, own_at,
    own_edges, own_limits, own_places, pinned_points_are_routings, points_are_routings, right_sides,
    Lane,
};
use crate::sampling::is_admitted;
use crate::shapley::{bits_are_apart, carried_over, coalition_mask, gate_of, player_bit, ALWAYS_BIT};
use crate::solver::{usable_list, CoalitionProgram, PrecomputedRows};
use crate::soundness::{
    alike, alike_turned, cost_is_that_of_lanes, lane_costs_agree, lane_price, lanes_alike,
    limits_alike, prices, routing_carries_over, same_limits, same_sight,
};
use crate::tables::{leads_agree, limits_agree, tables_agree, tables_carry_over, Roll, Tables};
use crate::text::{place, place_found, views};
use crate::types::{EdgeRow, FlowRow, PublicRow};
use crate::warm::{
    all_heard, consolidated_groups_follow, consolidated_network_is_uniform, given_groups_follow,
    groups_follow, one_model_serves_all,
};
use vstd::prelude::*;

verus! {

/// How the numbers of a network are read: how much a flow carries, what a number stands
/// for, and how a commodity is rated.
pub struct Reading {
    pub amount: spec_fn(int) -> real,
    pub worth: spec_fn(Real) -> real,
    pub rate: spec_fn(int) -> real,
}

/// A routing of all flows over the given edges under the given limits.
pub open spec fn routes(
    own: Seq<EdgeRow>,
    bound: spec_fn(u32) -> Option<Real>,
    flows: Seq<FlowRow>,
    how: Reading,
    y: Seq<real>,
) -> bool {
    is_routing(own, bound, flows, how.amount, how.worth, y)
}

/// What a routing costs.
pub open spec fn routing_cost(
    own: Seq<EdgeRow>,
    flows: Seq<FlowRow>,
    how: Reading,
    y: Seq<real>,
) -> real {
    lane_total(lanes_of(own, flows), |lane: Lane| lane_price(own, how.worth, how.rate, lane), y)
}

/// What a coalition is worth over given edges under given limits: the cost of its cheapest
/// routing, turned round; nothing where it has no lane or no routing.
pub open spec fn is_value_over(
    own: Seq<EdgeRow>,
    bound: spec_fn(u32) -> Option<Real>,
    flows: Seq<FlowRow>,
    how: Reading,
    v: Option<real>,
) -> bool {
    if lanes_of(own, flows).len() == 0 {
        v is None
    } else {
        match v {
            Some(c) => {
                &&& exists|y: Seq<real>| #[trigger]
                    routes(own, bound, flows, how, y) && routing_cost(own, flows, how, y) == -c
                &&& forall|y: Seq<real>| #[trigger]
                    routes(own, bound, flows, how, y) ==> routing_cost(own, flows, how, y) >= -c
            },
            None => forall|y: Seq<real>| !#[trigger] routes(own, bound, flows, how, y),
        }
    }
}

/// What a coalition is worth in a network of consolidated edges: over the edges at its
/// disposal, limited in the groups whose first edge is among them.
pub open spec fn is_value(
    edges: Seq<EdgeRow>,
    flows: Seq<FlowRow>,
    players: Seq<Seq<char>>,
    coalition: u32,
    how: Reading,
    v: Option<real>,
) -> bool {
    is_value_over(
        own_edges(edges, players, coalition),
        own_limits(edges, players, coalition),
        flows,
        how,
        v,
    )
}

/// A coalition is worth one thing at most.
pub proof fn a_value_is_one(
    own: Seq<EdgeRow>,
    bound: spec_fn(u32) -> Option<Real>,
    flows: Seq<FlowRow>,
    how: Reading,
    v: Option<real>,
    w: Option<real>,
)
    requires
        is_value_over(own, bound, flows, how, v),
        is_value_over(own, bound, flows, how, w),
    ensures
        v == w,
{
    if lanes_of(own, flows).len() > 0 {
        if let Some(c) = v {
            let y = choose|y: Seq<real>| #[trigger]
                routes(own, bound, flows, how, y) && routing_cost(own, flows, how, y) == -c;
            assert(routes(own, bound, flows, how, y));
            if let Some(d) = w {
                let z = choose|z: Seq<real>| #[trigger]
                    routes(own, bound, flows, how, z) && routing_cost(own, flows, how, z) == -d;
                assert(routes(own, bound, flows, how, z));
            }
        } else if let Some(d) = w {
            let z = choose|z: Seq<real>| #[trigger]
                routes(own, bound, flows, how, z) && routing_cost(own, flows, how, z) == -d;
            assert(routes(own, bound, flows, how, z));
        }
    }
}

/// A point of a coalition's linear program.
pub open spec fn solves(
    program: CoalitionProgram,
    out: LpBuilderOutput,
    how: Reading,
    y: Seq<real>,
) -> bool {
    is_point(program, right_sides(out, how.amount), limits(out, how.worth), y)
}

/// What a point of a coalition's linear program costs.
pub open spec fn point_cost(
    program: CoalitionProgram,
    out: LpBuilderOutput,
    edges: Seq<EdgeRow>,
    how: Reading,
    y: Seq<real>,
) -> real {
    expense(
        at_places(prices(out, edges, how.worth, how.rate), program.cols@),
        y,
        y.len() as int,
    )
}

/// What comes of solving a coalition's linear program: the least cost of a point, turned
/// round; nothing where there is no column or no point.
pub open spec fn is_solution(
    program: CoalitionProgram,
    out: LpBuilderOutput,
    edges: Seq<EdgeRow>,
    how: Reading,
    v: Option<real>,
) -> bool {
    if program.cols@.len() == 0 {
        v is None
    } else {
        match v {
            Some(c) => {
                &&& exists|y: Seq<real>| #[trigger]
                    solves(program, out, how, y) && point_cost(program, out, edges, how, y) == -c
                &&& forall|y: Seq<real>| #[trigger]
                    solves(program, out, how, y) ==> point_cost(program, out, edges, how, y) >= -c
            },
            None => forall|y: Seq<real>| !#[trigger] solves(program, out, how, y),
        }
    }
}

/// Solving a coalition's linear program finds what the coalition is worth.
pub proof fn solving_finds_the_value(
    program: CoalitionProgram,
    out: LpBuilderOutput,
    rows: PrecomputedRows,
    edges: Seq<EdgeRow>,
    flows: Seq<FlowRow>,
    players: Seq<Seq<char>>,
    coalition: u32,
    how: Reading,
    v: Option<real>,
)
    requires
        out.describes(edges, flows),
        is_program_of(program, out, rows, players, coalition),
        is_uniform(edges, flows),
    ensures
        is_solution(program, out, edges, how, v) <==> is_value(
            edges,
            flows,
            players,
            coalition,
            how,
            v,
        ),
{
    let own = own_edges(edges, players, coalition);
    let bound = own_limits(edges, players, coalition);
    assert forall|y: Seq<real>| #[trigger] solves(program, out, how, y) == routes(own, bound, flows, how, y)
        && (routes(own, bound, flows, how, y) ==> point_cost(program, out, edges, how, y)
        == routing_cost(own, flows, how, y)) by {
        points_are_routings(
            program,
            out,
            rows,
            edges,
            flows,
            players,
            coalition,
            how.amount,
            how.worth,
            y,
        );
        if routes(own, bound, flows, how, y) {
            cost_is_that_of_lanes(
                program,
                out,
                rows,
                edges,
                flows,
                players,
                coalition,
                how.worth,
                how.rate,
                y,
            );
        }
    }
    points_are_routings(
        program,
        out,
        rows,
        edges,
        flows,
        players,
        coalition,
        how.amount,
        how.worth,
        Seq::empty(),
    );
    assert forall|y: Seq<real>| #[trigger] routes(own, bound, flows, how, y) == solves(
        program,
        out,
        how,
        y,
    ) by {}
    if let Some(c) = v {
        if program.cols@.len() > 0 {
            if is_solution(program, out, edges, how, v) {
                let y = choose|y: Seq<real>| #[trigger]
                    solves(program, out, how, y) && point_cost(program, out, edges, how, y) == -c;
                assert(routes(own, bound, flows, how, y) && routing_cost(own, flows, how, y) == -c);
            }
            if is_value(edges, flows, players, coalition, how, v) {
                let y = choose|y: Seq<real>| #[trigger]
                    routes(own, bound, flows, how, y) && routing_cost(own, flows, how, y) == -c;
                assert(solves(program, out, how, y) && point_cost(program, out, edges, how, y)
                    == -c);
            }
        }
    }
}

/// A point of the linear program of the whole network with the columns outside the
/// coalition held at zero.
pub open spec fn solves_pinned(
    out: LpBuilderOutput,
    rows: PrecomputedRows,
    players: Seq<Seq<char>>,
    coalition: u32,
    how: Reading,
    x: Seq<real>,
) -> bool {
    is_pinned_point(
        rows,
        masks_of(views(out.col_op1@), players),
        masks_of(views(out.col_op2@), players),
        coalition,
        right_sides(out, how.amount),
        limits(out, how.worth),
        x,
    )
}

/// What comes of solving the linear program of the whole network with the columns outside
/// the coalition held at zero: nothing where none is left or there is no point.
pub open spec fn is_pinned_solution(
    out: LpBuilderOutput,
    rows: PrecomputedRows,
    edges: Seq<EdgeRow>,
    players: Seq<Seq<char>>,
    coalition: u32,
    how: Reading,
    v: Option<real>,
) -> bool {
    let near = masks_of(views(out.col_op1@), players);
    let far = masks_of(views(out.col_op2@), players);
    let price = prices(out, edges, how.worth, how.rate);
    if usable_list(near, far, coalition).len() == 0 {
        v is None
    } else {
        match v {
            Some(c) => {
                &&& exists|x: Seq<real>| #[trigger]
                    solves_pinned(out, rows, players, coalition, how, x) && expense(
                        price,
                        x,
                        x.len() as int,
                    ) == -c
                &&& forall|x: Seq<real>| #[trigger]
                    solves_pinned(out, rows, players, coalition, how, x) ==> expense(
                        price,
                        x,
                        x.len() as int,
                    ) >= -c
            },
            None => forall|x: Seq<real>|
                !#[trigger] solves_pinned(out, rows, players, coalition, how, x),
        }
    }
}

/// A point of the coalition's linear program, spread out, is a point of the whole one with
/// columns held at zero, at the same cost.
proof fn point_is_spread(
    program: CoalitionProgram,
    out: LpBuilderOutput,
    rows: PrecomputedRows,
    edges: Seq<EdgeRow>,
    flows: Seq<FlowRow>,
    players: Seq<Seq<char>>,
    coalition: u32,
    how: Reading,
    y: Seq<real>,
)
    requires
        out.describes(edges, flows),
        is_program_of(program, out, rows, players, coalition),
        is_uniform(edges, flows),
        groups_follow(edges),
        forall|r: int| 0 <= r < out.a_ub.m ==> #[trigger] limits(out, how.worth)[r] >= 0real,
        y.len() == program.cols@.len(),
    ensures
        ({
            let near = masks_of(views(out.col_op1@), players);
            let far = masks_of(views(out.col_op2@), players);
            let x = spread(near, far, coalition, y);
            &&& solves(program, out, how, y) == solves_pinned(
                out,
                rows,
                players,
                coalition,
                how,
                x,
            )
            &&& point_cost(program, out, edges, how, y) == expense(
                prices(out, edges, how.worth, how.rate),
                x,
                x.len() as int,
            )
        }),
{
    let near = masks_of(views(out.col_op1@), players);
    let far = masks_of(views(out.col_op2@), players);
    program_fits_together(out, edges, flows);
    assert(near.len() == out.col_op1@.len());
    one_model_serves_all(
        out,
        rows,
        program,
        edges,
        flows,
        players,
        coalition,
        right_sides(out, how.amount),
        limits(out, how.worth),
        y,
    );
    spreading_keeps_the_cost(
        near,
        far,
        coalition,
        prices(out, edges, how.worth, how.rate),
        y,
    );
}

/// One model of the whole network finds what every coalition is worth, as the coalition's
/// own linear program does. No limit may lie below zero, and no first edge of a group may
/// have an operator that another edge of the group lacks.
pub proof fn one_model_finds_the_value(
    program: CoalitionProgram,
    out: LpBuilderOutput,
    rows: PrecomputedRows,
    edges: Seq<EdgeRow>,
    flows: Seq<FlowRow>,
    players: Seq<Seq<char>>,
    coalition: u32,
    how: Reading,
    v: Option<real>,
)
    requires
        out.describes(edges, flows),
        is_program_of(program, out, rows, players, coalition),
        is_uniform(edges, flows),
        groups_follow(edges),
        forall|r: int| 0 <= r < out.a_ub.m ==> #[trigger] limits(out, how.worth)[r] >= 0real,
    ensures
        is_pinned_solution(out, rows, edges, players, coalition, how, v) <==> is_solution(
            program,
            out,
            edges,
            how,
            v,
        ),
        is_pinned_solution(out, rows, edges, players, coalition, how, v) <==> is_value(
            edges,
            flows,
            players,
            coalition,
            how,
            v,
        ),
{
    let near = masks_of(views(out.col_op1@), players);
    let far = masks_of(views(out.col_op2@), players);
    let list = usable_list(near, far, coalition);
    let price = prices(out, edges, how.worth, how.rate);
    program_fits_together(out, edges, flows);
    assert(near.len() == out.col_op1@.len());
    assert forall|y: Seq<real>| #[trigger] solves(program, out, how, y) implies solves_pinned(
        out,
        rows,
        players,
        coalition,
        how,
        spread(near, far, coalition, y),
    ) && point_cost(program, out, edges, how, y) == expense(
        price,
        spread(near, far, coalition, y),
        near.len() as int,
    ) by {
        point_is_spread(program, out, rows, edges, flows, players, coalition, how, y);
    }
    assert forall|x: Seq<real>| #[trigger]
        solves_pinned(out, rows, players, coalition, how, x) implies solves(
        program,
        out,
        how,
        at_places(x, list),
    ) && point_cost(program, out, edges, how, at_places(x, list)) == expense(
        price,
        x,
        x.len() as int,
    ) by {
        let y = pinned_points_are_spread(near, far, coalition, x);
        point_is_spread(program, out, rows, edges, flows, players, coalition, how, y);
    }
    if let Some(c) = v {
        if is_solution(program, out, edges, how, v) && list.len() > 0 {
            let y = choose|y: Seq<real>| #[trigger]
                solves(program, out, how, y) && point_cost(program, out, edges, how, y) == -c;
            let x = spread(near, far, coalition, y);
            assert(solves_pinned(out, rows, players, coalition, how, x) && expense(
                price,
                x,
                x.len() as int,
            ) == -c);
        }
        if is_pinned_solution(out, rows, edges, players, coalition, how, v) && list.len() > 0 {
            let x = choose|x: Seq<real>| #[trigger]
                solves_pinned(out, rows, players, coalition, how, x) && expense(
                    price,
                    x,
                    x.len() as int,
                ) == -c;
            let y = at_places(x, list);
            assert(solves(program, out, how, y) && point_cost(program, out, edges, how, y) == -c);
        }
    }
    solving_finds_the_value(program, out, rows, edges, flows, players, coalition, how, v);
}

/// Where two networks have the links and devices of operators that did not change in
/// common, a coalition without any operator that changed is worth the same in both. Only
/// a group must not come to be bound, or cease to be, by a link of an operator that changed.
pub proof fn values_are_kept(
    a: Tables,
    b: Tables,
    roll: Roll,
    flows: Seq<FlowRow>,
    publics: Seq<PublicRow>,
    bonus: Real,
    coalition: u32,
    how: Reading,
    v: Option<real>,
)
    requires
        a.wf(),
        b.wf(),
        tables_agree(a, b, roll),
        leads_agree(a, b, roll),
        a.edges(flows, publics, bonus).len() <= usize::MAX,
        b.edges(flows, publics, bonus).len() <= usize::MAX,
        coalition & gate_of(roll.changed, roll.players) == 0,
    ensures
        is_value(a.edges(flows, publics, bonus), flows, roll.players, coalition, how, v)
            <==> is_value(b.edges(flows, publics, bonus), flows, roll.players, coalition, how, v),
{
    let x = own_edges(a.edges(flows, publics, bonus), roll.players, coalition);
    let y = own_edges(b.edges(flows, publics, bonus), roll.players, coalition);
    tables_carry_over(a, b, roll, flows, publics, bonus);
    same_sight(
        a.edges(flows, publics, bonus),
        b.edges(flows, publics, bonus),
        roll.changed,
        roll.players,
        coalition,
    );
    alike_turned(x, y);
    own_within(a.edges(flows, publics, bonus), roll.players, coalition);
    own_within(b.edges(flows, publics, bonus), roll.players, coalition);
    let bound1 = own_limits(a.edges(flows, publics, bonus), roll.players, coalition);
    let bound2 = own_limits(b.edges(flows, publics, bonus), roll.players, coalition);
    if is_value_over(x, bound1, flows, how, v) {
        value_over_alike(x, y, bound1, bound2, flows, how, v);
    }
    if is_value_over(y, bound2, flows, how, v) {
        value_over_alike(y, x, bound2, bound1, flows, how, v);
    }
}

/// A coalition has no more edges than there are.
proof fn own_within(edges: Seq<EdgeRow>, players: Seq<Seq<char>>, coalition: u32)
    ensures
        own_edges(edges, players, coalition).len() <= edges.len(),
{
    own_places(edges, players, coalition);
    crate::lists::count_bound(edges.len() as int, own_at(edges, players, coalition));
}

/// What is a value over some edges is one over edges that are alike, with limits alike.
proof fn value_over_alike(
    a: Seq<EdgeRow>,
    b: Seq<EdgeRow>,
    bound1: spec_fn(u32) -> Option<Real>,
    bound2: spec_fn(u32) -> Option<Real>,
    flows: Seq<FlowRow>,
    how: Reading,
    v: Option<real>,
)
    requires
        alike(a, b),
        alike(b, a),
        limits_alike(a, b, bound1, bound2),
        limits_alike(b, a, bound2, bound1),
        a.len() <= usize::MAX,
        is_value_over(a, bound1, flows, how, v),
    ensures
        is_value_over(b, bound2, flows, how, v),
{
    lanes_alike(a, b, flows);
    assert forall|y: Seq<real>| #[trigger] routes(a, bound1, flows, how, y) implies routes(
        b,
        bound2,
        flows,
        how,
        y,
    ) by {
        routing_carries_over(a, b, bound1, bound2, flows, how.amount, how.worth, y);
    }
    assert forall|y: Seq<real>| #[trigger] routes(b, bound2, flows, how, y) implies routes(
        a,
        bound1,
        flows,
        how,
        y,
    ) && routing_cost(a, flows, how, y) == routing_cost(b, flows, how, y) by {
        routing_carries_over(b, a, bound2, bound1, flows, how.amount, how.worth, y);
        lane_costs_agree(a, b, flows, how.worth, how.rate, y);
    }
    if let Some(c) = v {
        if lanes_of(a, flows).len() > 0 {
            let y = choose|y: Seq<real>| #[trigger]
                routes(a, bound1, flows, how, y) && routing_cost(a, flows, how, y) == -c;
            assert(routes(b, bound2, flows, how, y) && routing_cost(b, flows, how, y) == -c);
        }
    }
}

/// What a value found earlier stands for.
pub open spec fn reads(how: Reading, v: Option<Real>) -> Option<real> {
    match v {
        Some(x) => Some((how.worth)(x)),
        None => None,
    }
}

/// The values of an earlier run are what the coalitions are worth in its network.
pub open spec fn is_seed_of(
    t: Tables,
    seed: Map<u32, Option<Real>>,
    players: Seq<Seq<char>>,
    flows: Seq<FlowRow>,
    publics: Seq<PublicRow>,
    bonus: Real,
    how: Reading,
) -> bool {
    forall|mask: u32| #[trigger]
        seed.contains_key(mask) ==> is_value(
            t.edges(flows, publics, bonus),
            flows,
            players,
            mask,
            how,
            reads(how, seed[mask]),
        )
}

/// The bits of players stay clear of the one that is always set.
proof fn gate_is_clear(changed: Seq<Seq<char>>, players: Seq<Seq<char>>)
    requires
        players.len() <= 31,
    ensures
        gate_of(changed, players) & ALWAYS_BIT == 0,
    decreases changed.len(),
{
    if changed.len() == 0 {
        assert(0u32 & 0x8000_0000u32 == 0) by (bit_vector);
    } else {
        let rest = gate_of(changed.drop_last(), players);
        gate_is_clear(changed.drop_last(), players);
        if players.contains(changed.last()) {
            place_found(players, changed.last());
            let at = place(players, changed.last());
            bits_are_apart(at, at);
            let bit = player_bit(at);
            assert((rest | bit) & 0x8000_0000u32 == 0) by (bit_vector)
                requires
                    rest & 0x8000_0000u32 == 0,
                    bit & 0x8000_0000u32 == 0,
            ;
        } else {
            assert((rest | 0u32) & 0x8000_0000u32 == 0) by (bit_vector)
                requires
                    rest & 0x8000_0000u32 == 0,
            ;
        }
    }
}

/// A computation over all coalitions may build on an earlier one: each value that it takes
/// over is what the coalition is worth in the network at hand, as if found afresh. Only
/// links and devices of operators that are named as changed may differ, and a group must
/// not come to be bound, or cease to be, by a link of such an operator.
pub proof fn reuse_equals_fresh(
    before: Tables,
    now: Tables,
    seed: Map<u32, Option<Real>>,
    roll: Roll,
    flows: Seq<FlowRow>,
    publics: Seq<PublicRow>,
    bonus: Real,
    how: Reading,
    index: u32,
)
    requires
        before.wf(),
        now.wf(),
        tables_agree(before, now, roll),
        leads_agree(before, now, roll),
        before.edges(flows, publics, bonus).len() <= usize::MAX,
        now.edges(flows, publics, bonus).len() <= usize::MAX,
        roll.players.len() <= 31,
        is_seed_of(before, seed, roll.players, flows, publics, bonus, how),
    ensures
        carried_over(seed, gate_of(roll.changed, roll.players), index) matches Some(v) ==> is_value(
            now.edges(flows, publics, bonus),
            flows,
            roll.players,
            coalition_mask(index),
            how,
            reads(how, v),
        ),
{
    let gate = gate_of(roll.changed, roll.players);
    let mask = coalition_mask(index);
    gate_is_clear(roll.changed, roll.players);
    if carried_over(seed, gate, index) is Some {
        assert((index | 0x8000_0000u32) & gate == 0) by (bit_vector)
            requires
                index & gate == 0,
                gate & 0x8000_0000u32 == 0,
        ;
        values_are_kept(
            before,
            now,
            roll,
            flows,
            publics,
            bonus,
            mask,
            how,
            reads(how, seed[mask]),
        );
    }
}

/// An estimate may build on an earlier one: all values that it admits are what the
/// coalitions are worth in the network at hand.
pub proof fn admitted_values_are_fresh(
    before: Tables,
    now: Tables,
    seed: Map<u32, Option<Real>>,
    admitted: Map<u32, Option<Real>>,
    roll: Roll,
    flows: Seq<FlowRow>,
    publics: Seq<PublicRow>,
    bonus: Real,
    how: Reading,
)
    requires
        before.wf(),
        now.wf(),
        tables_agree(before, now, roll),
        leads_agree(before, now, roll),
        before.edges(flows, publics, bonus).len() <= usize::MAX,
        now.edges(flows, publics, bonus).len() <= usize::MAX,
        is_seed_of(before, seed, roll.players, flows, publics, bonus, how),
        is_admitted(seed, gate_of(roll.changed, roll.players), admitted),
    ensures
        is_seed_of(now, admitted, roll.players, flows, publics, bonus, how),
{
    assert forall|mask: u32| #[trigger] admitted.contains_key(mask) implies is_value(
        now.edges(flows, publics, bonus),
        flows,
        roll.players,
        mask,
        how,
        reads(how, admitted[mask]),
    ) by {
        assert(seed.contains_key(mask));
        values_are_kept(
            before,
            now,
            roll,
            flows,
            publics,
            bonus,
            mask,
            how,
            reads(how, seed[mask]),
        );
    }
}

/// In a consolidated network, solving finds what a coalition is worth: by the coalition's
/// own linear program, and by one model for all of them where no limit lies below zero and
/// the first link of a group has no operator that another link of the group lacks.
pub proof fn consolidated_values_are_found(
    t: Tables,
    program: CoalitionProgram,
    out: LpBuilderOutput,
    rows: PrecomputedRows,
    flows: Seq<FlowRow>,
    publics: Seq<PublicRow>,
    bonus: Real,
    players: Seq<Seq<char>>,
    coalition: u32,
    how: Reading,
    v: Option<real>,
)
    requires
        t.wf(),
        devices_private(t.devices),
        flows.len() > 0,
        flows.len() <= usize::MAX,
        all_heard(flows),
        t.edges(flows, publics, bonus).len() <= usize::MAX,
        sizes_fit(t.edges(flows, publics, bonus), flows),
        out.describes(t.edges(flows, publics, bonus), flows),
        is_program_of(program, out, rows, players, coalition),
    ensures
        is_solution(program, out, t.edges(flows, publics, bonus), how, v) <==> is_value(
            t.edges(flows, publics, bonus),
            flows,
            players,
            coalition,
            how,
            v,
        ),
        given_groups_follow(t.links, t.devices) && (forall|r: int|
            0 <= r < out.a_ub.m ==> #[trigger] limits(out, how.worth)[r] >= 0real) ==> (
        is_pinned_solution(
            out,
            rows,
            t.edges(flows, publics, bonus),
            players,
            coalition,
            how,
            v,
        ) <==> is_value(t.edges(flows, publics, bonus), flows, players, coalition, how, v)),
{
    let edges = t.edges(flows, publics, bonus);
    consolidated_network_is_uniform(t.links, t.capacity, t.devices, flows, publics, bonus);
    solving_finds_the_value(program, out, rows, edges, flows, players, coalition, how, v);
    if given_groups_follow(t.links, t.devices) && (forall|r: int|
        0 <= r < out.a_ub.m ==> #[trigger] limits(out, how.worth)[r] >= 0real) {
        consolidated_groups_follow(t.links, t.capacity, t.devices, flows, publics, bonus);
        one_model_finds_the_value(program, out, rows, edges, flows, players, coalition, how, v);
    }
}

/// A coalition without any operator that changed has the same answer from its linear
/// program in two networks that have the links and devices of operators that did not
/// change in common, whoever shares a group among these.
pub proof fn solutions_are_kept(
    a: Tables,
    b: Tables,
    roll: Roll,
    program1: CoalitionProgram,
    program2: CoalitionProgram,
    out1: LpBuilderOutput,
    out2: LpBuilderOutput,
    rows1: PrecomputedRows,
    rows2: PrecomputedRows,
    flows: Seq<FlowRow>,
    publics: Seq<PublicRow>,
    bonus: Real,
    coalition: u32,
    how: Reading,
    v: Option<real>,
)
    requires
        a.wf(),
        b.wf(),
        devices_private(a.devices),
        devices_private(b.devices),
        tables_agree(a, b, roll),
        leads_agree(a, b, roll),
        flows.len() > 0,
        flows.len() <= usize::MAX,
        all_heard(flows),
        a.edges(flows, publics, bonus).len() <= usize::MAX,
        b.edges(flows, publics, bonus).len() <= usize::MAX,
        sizes_fit(a.edges(flows, publics, bonus), flows),
        sizes_fit(b.edges(flows, publics, bonus), flows),
        out1.describes(a.edges(flows, publics, bonus), flows),
        out2.describes(b.edges(flows, publics, bonus), flows),
        is_program_of(program1, out1, rows1, roll.players, coalition),
        is_program_of(program2, out2, rows2, roll.players, coalition),
        coalition & gate_of(roll.changed, roll.players) == 0,
    ensures
        is_solution(program1, out1, a.edges(flows, publics, bonus), how, v) <==> is_solution(
            program2,
            out2,
            b.edges(flows, publics, bonus),
            how,
            v,
        ),
{
    let players = roll.players;
    consolidated_values_are_found(
        a,
        program1,
        out1,
        rows1,
        flows,
        publics,
        bonus,
        players,
        coalition,
        how,
        v,
    );
    consolidated_values_are_found(
        b,
        program2,
        out2,
        rows2,
        flows,
        publics,
        bonus,
        players,
        coalition,
        how,
        v,
    );
    values_are_kept(a, b, roll, flows, publics, bonus, coalition, how, v);
}

/// What one model for all coalitions finds of a coalition: what it is worth over the edges
/// at its disposal under the limits of the whole network.
pub open spec fn is_model_value(
    edges: Seq<EdgeRow>,
    flows: Seq<FlowRow>,
    players: Seq<Seq<char>>,
    coalition: u32,
    how: Reading,
    v: Option<real>,
) -> bool {
    is_value_over(own_edges(edges, players, coalition), all_limits(edges), flows, how, v)
}

/// A routing under the limits of the whole network, spread out, is a point of one model for
/// all coalitions, at the same cost.
proof fn routing_is_spread(
    program: CoalitionProgram,
    out: LpBuilderOutput,
    rows: PrecomputedRows,
    edges: Seq<EdgeRow>,
    flows: Seq<FlowRow>,
    players: Seq<Seq<char>>,
    coalition: u32,
    how: Reading,
    y: Seq<real>,
)
    requires
        out.describes(edges, flows),
        is_program_of(program, out, rows, players, coalition),
        is_uniform(edges, flows),
        forall|r: int| 0 <= r < out.a_ub.m ==> #[trigger] limits(out, how.worth)[r] >= 0real,
        y.len() == program.cols@.len(),
    ensures
        ({
            let own = own_edges(edges, players, coalition);
            let near = masks_of(views(out.col_op1@), players);
            let far = masks_of(views(out.col_op2@), players);
            let x = spread(near, far, coalition, y);
            &&& routes(own, all_limits(edges), flows, how, y) == solves_pinned(
                out,
                rows,
                players,
                coalition,
                how,
                x,
            )
            &&& routing_cost(own, flows, how, y) == expense(
                prices(out, edges, how.worth, how.rate),
                x,
                x.len() as int,
            )
        }),
{
    let near = masks_of(views(out.col_op1@), players);
    let far = masks_of(views(out.col_op2@), players);
    program_fits_together(out, edges, flows);
    assert(near.len() == out.col_op1@.len());
    pinned_points_are_routings(
        program,
        out,
        rows,
        edges,
        flows,
        players,
        coalition,
        how.amount,
        how.worth,
        y,
    );
    spreading_keeps_the_cost(
        near,
        far,
        coalition,
        prices(out, edges, how.worth, how.rate),
        y,
    );
    cost_is_that_of_lanes(
        program,
        out,
        rows,
        edges,
        flows,
        players,
        coalition,
        how.worth,
        how.rate,
        y,
    );
}

/// One model for all coalitions finds what a coalition is worth under the limits of the
/// whole network, whoever shares a group. No limit may lie below zero.
pub proof fn one_model_keeps_all_limits(
    program: CoalitionProgram,
    out: LpBuilderOutput,
    rows: PrecomputedRows,
    edges: Seq<EdgeRow>,
    flows: Seq<FlowRow>,
    players: Seq<Seq<char>>,
    coalition: u32,
    how: Reading,
    v: Option<real>,
)
    requires
        out.describes(edges, flows),
        is_program_of(program, out, rows, players, coalition),
        is_uniform(edges, flows),
        forall|r: int| 0 <= r < out.a_ub.m ==> #[trigger] limits(out, how.worth)[r] >= 0real,
    ensures
        is_pinned_solution(out, rows, edges, players, coalition, how, v) <==> is_model_value(
            edges,
            flows,
            players,
            coalition,
            how,
            v,
        ),
{
    let own = own_edges(edges, players, coalition);
    let bound = all_limits(edges);
    let near = masks_of(views(out.col_op1@), players);
    let far = masks_of(views(out.col_op2@), players);
    let list = usable_list(near, far, coalition);
    let price = prices(out, edges, how.worth, how.rate);
    program_fits_together(out, edges, flows);
    assert(near.len() == out.col_op1@.len());
    points_are_routings(
        program,
        out,
        rows,
        edges,
        flows,
        players,
        coalition,
        how.amount,
        how.worth,
        Seq::empty(),
    );
    assert(list.len() == lanes_of(own, flows).len());
    assert forall|y: Seq<real>| #[trigger] routes(own, bound, flows, how, y) implies solves_pinned(
        out,
        rows,
        players,
        coalition,
        how,
        spread(near, far, coalition, y),
    ) && routing_cost(own, flows, how, y) == expense(
        price,
        spread(near, far, coalition, y),
        near.len() as int,
    ) by {
        routing_is_spread(program, out, rows, edges, flows, players, coalition, how, y);
    }
    assert forall|x: Seq<real>| #[trigger]
        solves_pinned(out, rows, players, coalition, how, x) implies routes(
        own,
        bound,
        flows,
        how,
        at_places(x, list),
    ) && routing_cost(own, flows, how, at_places(x, list)) == expense(
        price,
        x,
        x.len() as int,
    ) by {
        let y = pinned_points_are_spread(near, far, coalition, x);
        routing_is_spread(program, out, rows, edges, flows, players, coalition, how, y);
    }
    if let Some(c) = v {
        if is_model_value(edges, flows, players, coalition, how, v) && list.len() > 0 {
            let y = choose|y: Seq<real>| #[trigger]
                routes(own, bound, flows, how, y) && routing_cost(own, flows, how, y) == -c;
            let x = spread(near, far, coalition, y);
            assert(solves_pinned(out, rows, players, coalition, how, x) && expense(
                price,
                x,
                x.len() as int,
            ) == -c);
        }
        if is_pinned_solution(out, rows, edges, players, coalition, how, v) && list.len() > 0 {
            let x = choose|x: Seq<real>| #[trigger]
                solves_pinned(out, rows, players, coalition, how, x) && expense(
                    price,
                    x,
                    x.len() as int,
                ) == -c;
            let y = at_places(x, list);
            assert(routes(own, bound, flows, how, y) && routing_cost(own, flows, how, y) == -c);
        }
    }
}

/// Where two networks have the links and devices of operators that did not change in
/// common, and the first links of their groups can carry the same, one model for all
/// coalitions has the same answer in both for a coalition without any operator that
/// changed, whoever shares a group.
pub proof fn model_answers_are_kept(
    a: Tables,
    b: Tables,
    roll: Roll,
    program1: CoalitionProgram,
    program2: CoalitionProgram,
    out1: LpBuilderOutput,
    out2: LpBuilderOutput,
    rows1: PrecomputedRows,
    rows2: PrecomputedRows,
    flows: Seq<FlowRow>,
    publics: Seq<PublicRow>,
    bonus: Real,
    coalition: u32,
    how: Reading,
    v: Option<real>,
)
    requires
        a.wf(),
        b.wf(),
        devices_private(a.devices),
        devices_private(b.devices),
        tables_agree(a, b, roll),
        limits_agree(a, b, roll),
        flows.len() > 0,
        flows.len() <= usize::MAX,
        all_heard(flows),
        a.edges(flows, publics, bonus).len() <= usize::MAX,
        b.edges(flows, publics, bonus).len() <= usize::MAX,
        sizes_fit(a.edges(flows, publics, bonus), flows),
        sizes_fit(b.edges(flows, publics, bonus), flows),
        out1.describes(a.edges(flows, publics, bonus), flows),
        out2.describes(b.edges(flows, publics, bonus), flows),
        is_program_of(program1, out1, rows1, roll.players, coalition),
        is_program_of(program2, out2, rows2, roll.players, coalition),
        forall|r: int| 0 <= r < out1.a_ub.m ==> #[trigger] limits(out1, how.worth)[r] >= 0real,
        forall|r: int| 0 <= r < out2.a_ub.m ==> #[trigger] limits(out2, how.worth)[r] >= 0real,
        coalition & gate_of(roll.changed, roll.players) == 0,
    ensures
        is_pinned_solution(
            out1,
            rows1,
            a.edges(flows, publics, bonus),
            roll.players,
            coalition,
            how,
            v,
        ) <==> is_pinned_solution(
            out2,
            rows2,
            b.edges(flows, publics, bonus),
            roll.players,
            coalition,
            how,
            v,
        ),
{
    let players = roll.players;
    let (e, g) = (a.edges(flows, publics, bonus), b.edges(flows, publics, bonus));
    consolidated_network_is_uniform(a.links, a.capacity, a.devices, flows, publics, bonus);
    consolidated_network_is_uniform(b.links, b.capacity, b.devices, flows, publics, bonus);
    one_model_keeps_all_limits(program1, out1, rows1, e, flows, players, coalition, how, v);
    one_model_keeps_all_limits(program2, out2, rows2, g, flows, players, coalition, how, v);
    tables_carry_over(a, b, roll, flows, publics, bonus);
    same_limits(e, g, roll.changed, players, coalition);
    let (x, y) = (own_edges(e, players, coalition), own_edges(g, players, coalition));
    alike_turned(x, y);
    own_within(e, players, coalition);
    own_within(g, players, coalition);
    if is_value_over(x, all_limits(e), flows, how, v) {
        value_over_alike(x, y, all_limits(e), all_limits(g), flows, how, v);
    }
    if is_value_over(y, all_limits(g), flows, how, v) {
        value_over_alike(y, x, all_limits(g), all_limits(e), flows, how, v);
    }
}

} // verus!
