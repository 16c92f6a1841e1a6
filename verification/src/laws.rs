//! Laws that span the parts of the library.
use crate::consolidation::links::{
    all_edges, compacted, crossings, ends_listed, entry_edge, exit_edge, forward_edges,
    groups_are_dense, id_span, is_listed, is_public_city, kinds_of, last_device_found, missing_end,
    naught, off_ramps, private_ramps, public_edge, public_pair, public_pairs, public_ramps,
    reverse_edges, serves, shared_cities, stops_of, switch_of, used_ids,
};
use crate::constants::{MAX_OPERATORS, OP_PUBLIC};
use crate::lists::{
    count_prefix, count_same, gather, gather_all, gather_holds, gather_member, sorted_ids,
    sorted_ids_once, sorted_of,
};
use crate::lp_builder::{
    commodities_of, group_openers, heard_before, is_heard, is_public, max_shared, max_shared_bounds,
    private_count, tie_rows, trunks, LpBuilderOutput,
};
use crate::quantity::Real;
use crate::shapley::players_of;
use crate::text::{holds_digit, views};
use crate::types::{DemandRow, DeviceRow, EdgeRow, FlowRow, PrivateRow, PublicRow};
use crate::validation::{
    demand_ends, fault_of, has_device, link_ends, none_where, off_network, public_ends, unlisted,
    with_digit,
};
use crate::warm::no_group_without_private;
use vstd::prelude::*;

verus! {

/// No device belongs to the public network.
pub open spec fn devices_private(devices: Seq<DeviceRow>) -> bool {
    forall|i: int| 0 <= i < devices.len() ==> (#[trigger] devices[i]).operator != OP_PUBLIC@
}

/// How many edges the private network has.
pub open spec fn private_part(
    links: Seq<PrivateRow>,
    devices: Seq<DeviceRow>,
    flows: Seq<FlowRow>,
    publics: Seq<PublicRow>,
    bonus: Real,
) -> int {
    let span = id_span(links);
    let types = sorted_ids(kinds_of(flows));
    let cities = shared_cities(devices, publics);
    (2 * links.len() + gather(
        types.len() as int,
        |t: int| private_ramps(devices, span, flows, types[t]),
    ).len() + gather(
        cities.len() as int,
        |c: int| crossings(devices, span, cities[c], bonus),
    ).len()) as int
}

/// The edges of devices that are not public are not public either.
proof fn ramps_private(
    devices: Seq<DeviceRow>,
    span: int,
    flows: Seq<FlowRow>,
    kind: u32,
    p: spec_fn(EdgeRow) -> bool,
)
    requires
        devices_private(devices),
        p == (|e: EdgeRow| !is_public(e)),
    ensures
        forall|k: int|
            0 <= k < private_ramps(devices, span, flows, kind).len() ==> p(
                #[trigger] private_ramps(devices, span, flows, kind)[k],
            ),
{
    let source = crate::consolidation::links::source_of(flows, kind);
    let stops = stops_of(flows, kind);
    let n = devices.len() as int;
    let f = |i: int|
        if serves(devices[i].device, source) {
            seq![entry_edge(devices, span, i, source, naught(), kind)]
        } else {
            Seq::empty()
        };
    assert forall|i: int, j: int| 0 <= i < n && 0 <= j < f(i).len() implies p(
        #[trigger] f(i)[j],
    ) by {
        assert(devices[i].operator != OP_PUBLIC@);
    }
    gather_all(n, f, p);
    let g = |d: int| off_ramps(devices, span, stops[d], kind);
    assert forall|d: int, j: int| 0 <= d < stops.len() && 0 <= j < g(d).len() implies p(
        #[trigger] g(d)[j],
    ) by {
        let h = |i: int|
            if serves(devices[i].device, stops[d]) {
                seq![exit_edge(devices, span, i, stops[d], naught(), kind)]
            } else {
                Seq::empty()
            };
        assert forall|i: int, j: int| 0 <= i < n && 0 <= j < h(i).len() implies p(
            #[trigger] h(i)[j],
        ) by {
            assert(devices[i].operator != OP_PUBLIC@);
        }
        gather_all(n, h, p);
        assert(g(d) == gather(n, h));
    }
    gather_all(stops.len() as int, g, p);
}

/// The same of the crossings.
proof fn crossings_private(
    devices: Seq<DeviceRow>,
    span: int,
    city: Seq<char>,
    bonus: Real,
    p: spec_fn(EdgeRow) -> bool,
)
    requires
        devices_private(devices),
        p == (|e: EdgeRow| !is_public(e)),
    ensures
        forall|k: int|
            0 <= k < crossings(devices, span, city, bonus).len() ==> p(
                #[trigger] crossings(devices, span, city, bonus)[k],
            ),
{
    let n = devices.len() as int;
    let f = |i: int|
        if serves(devices[i].device, city) {
            seq![
                exit_edge(devices, span, i, switch_of(city), bonus, 0),
                entry_edge(devices, span, i, switch_of(city), bonus, 0),
            ]
        } else {
            Seq::empty()
        };
    assert forall|i: int, j: int| 0 <= i < n && 0 <= j < f(i).len() implies p(
        #[trigger] f(i)[j],
    ) by {
        assert(devices[i].operator != OP_PUBLIC@);
    }
    gather_all(n, f, p);
}

/// The private edges come first, and the public edges that follow are limited by no
/// bandwidth group.
pub proof fn private_edges_first(
    links: Seq<PrivateRow>,
    capacity: Seq<Real>,
    devices: Seq<DeviceRow>,
    flows: Seq<FlowRow>,
    publics: Seq<PublicRow>,
    bonus: Real,
)
    requires
        devices_private(devices),
        ends_listed(links, devices),
    ensures
        ({
            let edges = compacted(all_edges(links, capacity, devices, flows, publics, bonus));
            let part = private_part(links, devices, flows, publics, bonus);
            &&& 0 <= part <= edges.len()
            &&& private_count(edges) == part
            &&& forall|i: int| 0 <= i < part ==> !is_public(#[trigger] edges[i])
            &&& forall|i: int|
                part <= i < edges.len() ==> is_public(#[trigger] edges[i]) && edges[i].shared == 0
        }),
{
    let all = all_edges(links, capacity, devices, flows, publics, bonus);
    let edges = compacted(all);
    let part = private_part(links, devices, flows, publics, bonus);
    let span = id_span(links);
    let types = sorted_ids(kinds_of(flows));
    let cities = shared_cities(devices, publics);
    let private = |e: EdgeRow| !is_public(e);
    let public = |e: EdgeRow| is_public(e) && e.shared == 0;
    let ahead = forward_edges(links, capacity, devices);
    let back = reverse_edges(links, capacity, devices);
    assert forall|i: int| 0 <= i < links.len() implies private(#[trigger] ahead[i]) && private(
        back[i],
    ) by {
        assert(missing_end(links[i], devices) is None);
        last_device_found(devices, links[i].device1);
        last_device_found(devices, links[i].device2);
    }
    let f = |t: int| private_ramps(devices, span, flows, types[t]);
    assert forall|t: int, j: int| 0 <= t < types.len() && 0 <= j < f(t).len() implies private(
        #[trigger] f(t)[j],
    ) by {
        ramps_private(devices, span, flows, types[t], private);
    }
    gather_all(types.len() as int, f, private);
    let g = |c: int| crossings(devices, span, cities[c], bonus);
    assert forall|c: int, j: int| 0 <= c < cities.len() && 0 <= j < g(c).len() implies private(
        #[trigger] g(c)[j],
    ) by {
        crossings_private(devices, span, cities[c], bonus, private);
    }
    gather_all(cities.len() as int, g, private);
    let pairs = |i: int| public_pair(publics[i]);
    gather_all(publics.len() as int, pairs, public);
    let h = |t: int| public_ramps(flows, types[t]);
    assert forall|t: int, j: int| 0 <= t < types.len() && 0 <= j < h(t).len() implies public(
        #[trigger] h(t)[j],
    ) by {
        let stops = stops_of(flows, types[t]);
        let k = |d: int| seq![public_edge(switch_of(stops[d]), stops[d], naught(), types[t])];
        gather_all(stops.len() as int, k, public);
    }
    gather_all(types.len() as int, h, public);
    let ramps = gather(types.len() as int, f);
    let cross = gather(cities.len() as int, g);
    let road = public_pairs(publics);
    let exits = gather(types.len() as int, h);
    assert(all == ahead + back + ramps + cross + road + exits);
    assert forall|i: int| 0 <= i < part implies !is_public(#[trigger] edges[i]) by {
        let n = links.len() as int;
        if i < n {
            assert(all[i] == ahead[i]);
            assert(private(ahead[i]));
        } else if i < 2 * n {
            assert(all[i] == back[i - n]);
            assert(private(ahead[i - n]) && private(back[i - n]));
        } else if i < 2 * n + ramps.len() {
            assert(all[i] == ramps[i - 2 * n]);
        } else {
            assert(all[i] == cross[i - 2 * n - ramps.len()]);
        }
    }
    assert forall|i: int| part <= i < edges.len() implies is_public(#[trigger] edges[i])
        && edges[i].shared == 0 by {
        if i < part + road.len() {
            assert(all[i] == road[i - part]);
        } else {
            assert(all[i] == exits[i - part - road.len()]);
        }
    }
    let p = |i: int| !is_public(edges[i]);
    count_prefix(edges.len() as int, p, part);
}

/// Every bandwidth constraint has its limit: of the consolidated edges, the groups
/// of the private ones are exactly the rows of the bandwidth constraints.
pub proof fn every_group_has_a_limit(
    links: Seq<PrivateRow>,
    capacity: Seq<Real>,
    devices: Seq<DeviceRow>,
    flows: Seq<FlowRow>,
    publics: Seq<PublicRow>,
    bonus: Real,
)
    requires
        devices_private(devices),
        ends_listed(links, devices),
    ensures
        ({
            let edges = compacted(all_edges(links, capacity, devices, flows, publics, bonus));
            let private = edges.take(private_count(edges) as int);
            &&& group_openers(private).len() == max_shared(edges)
            &&& forall|r: int|
                0 <= r < max_shared(edges) ==> #[trigger] sorted_ids(used_ids(private))[r] == r + 1
        }),
{
    let all = all_edges(links, capacity, devices, flows, publics, bonus);
    let edges = compacted(all);
    let part = private_count(edges) as int;
    private_edges_first(links, capacity, devices, flows, publics, bonus);
    let private = edges.take(part);
    let top = max_shared(edges);
    let at = max_shared_bounds(edges);
    let used = used_ids(private);
    let f = |i: int|
        if private[i].shared > 0 {
            seq![private[i].shared]
        } else {
            Seq::empty()
        };
    assert(used == gather(private.len() as int, f));
    let dense = Seq::new(top as nat, |r: int| (r + 1) as u32);
    assert forall|x: u32| #[trigger] dense.contains(x) <==> used.contains(x) by {
        if dense.contains(x) {
            let r = choose|r: int| 0 <= r < dense.len() && dense[r] == x;
            let j = groups_are_dense(all, at, x);
            assert(edges[j].shared == x);
            assert(j < part);
            assert(private[j] == edges[j]);
            assert(f(j) == seq![x]);
            gather_holds(private.len() as int, f, j, 0);
        }
        if used.contains(x) {
            let m = choose|m: int| 0 <= m < used.len() && used[m] == x;
            let (i, j) = gather_member(private.len() as int, f, m);
            assert(edges[i].shared == x);
            assert(dense[x - 1] == x);
        }
    }
    assert(sorted_of(dense, used));
    sorted_ids_once(dense, used);
}

/// The rows of a linear program fit together: as many limits and operators as
/// inequalities, where every multicast flow has a receiver.
pub proof fn rows_fit_together(
    out: LpBuilderOutput,
    links: Seq<PrivateRow>,
    capacity: Seq<Real>,
    devices: Seq<DeviceRow>,
    flows: Seq<FlowRow>,
    publics: Seq<PublicRow>,
    bonus: Real,
)
    requires
        devices_private(devices),
        ends_listed(links, devices),
        flows.len() > 0,
        forall|d: int| 0 <= d < flows.len() && (#[trigger] flows[d]).multicast ==> flows[d].receivers > 0,
        ({
            let edges = compacted(all_edges(links, capacity, devices, flows, publics, bonus));
            edges.len() <= usize::MAX && out.describes(edges, flows)
        }),
    ensures
        out.b_ub@.len() == out.a_ub.m,
        out.row_op1@.len() == out.a_ub.m,
        out.row_op2@.len() == out.a_ub.m,
{
    let edges = compacted(all_edges(links, capacity, devices, flows, publics, bonus));
    every_group_has_a_limit(links, capacity, devices, flows, publics, bonus);
    no_group_without_private(edges);
    crate::lists::sorted_ids_exist(kinds_of(flows));
    assert(kinds_of(flows)[0] == flows[0].kind);
    assert(kinds_of(flows).contains(flows[0].kind));
    assert(commodities_of(flows).contains(flows[0].kind));
    let heard = heard_before(flows, flows.len() as int) as int;
    let t = trunks(edges).len() as int;
    assert(tie_rows(edges, flows) >= 0) by (nonlinear_arith)
        requires
            tie_rows(edges, flows) == heard * t,
            heard >= 0,
            t >= 0,
    ;
    count_same(
        flows.len() as int,
        |i: int| is_heard(flows[i]),
        |d: int| flows[d].multicast,
    );
    crate::lp_builder::row_operators_len(edges, flows, false);
    crate::lp_builder::row_operators_len(edges, flows, true);
    assert(out.row_op1@.len() == views(out.row_op1@).len());
    assert(out.row_op2@.len() == views(out.row_op2@).len());
}

/// A network that passes the check can be consolidated: both ends of every link are
/// listed, no device is public, there is a link, the players can be enumerated, and no
/// label of a city holds a digit.
pub proof fn checked_network_is_ready(
    links: Seq<PrivateRow>,
    devices: Seq<DeviceRow>,
    demands: Seq<DemandRow>,
    publics: Seq<PublicRow>,
    uptime: Real,
)
    requires
        fault_of(links, devices, demands, publics, uptime) is None,
    ensures
        ends_listed(links, devices),
        devices_private(devices),
        links.len() > 0,
        players_of(devices).len() <= MAX_OPERATORS,
        forall|d: int|
            0 <= d < demands.len() ==> !holds_digit((#[trigger] demands[d]).start) && !holds_digit(
                demands[d].end,
            ),
        forall|i: int|
            0 <= i < publics.len() ==> !holds_digit((#[trigger] publics[i]).city1) && !holds_digit(
                publics[i].city2,
            ),
        forall|d: int|
            0 <= d < demands.len() ==> is_public_city(publics, (#[trigger] demands[d]).start)
                && is_public_city(publics, demands[d].end),
{
    let roads = public_ends(publics);
    let cities = demand_ends(demands);
    let ends = link_ends(links);
    none_where(roads + cities, with_digit());
    none_where(ends, unlisted(devices));
    none_where(cities, off_network(publics));
    let f = |i: int| seq![publics[i].city1, publics[i].city2];
    let g = |i: int| seq![demands[i].start, demands[i].end];
    let h = |i: int| seq![links[i].device1, links[i].device2];
    assert forall|i: int| 0 <= i < publics.len() implies !holds_digit(
        (#[trigger] publics[i]).city1,
    ) && !holds_digit(publics[i].city2) by {
        gather_holds(publics.len() as int, f, i, 0);
        gather_holds(publics.len() as int, f, i, 1);
        let k = gather(i, f).len() as int;
        assert(!with_digit()((roads + cities)[k]));
        assert(!with_digit()((roads + cities)[k + 1]));
    }
    assert forall|d: int| 0 <= d < demands.len() implies !holds_digit(
        (#[trigger] demands[d]).start,
    ) && !holds_digit(demands[d].end) && is_public_city(publics, demands[d].start)
        && is_public_city(publics, demands[d].end) by {
        gather_holds(demands.len() as int, g, d, 0);
        gather_holds(demands.len() as int, g, d, 1);
        let k = gather(d, g).len() as int;
        assert(!with_digit()((roads + cities)[roads.len() + k]));
        assert(!with_digit()((roads + cities)[roads.len() + k + 1]));
        assert(!off_network(publics)(cities[k]));
        assert(!off_network(publics)(cities[k + 1]));
    }
    assert forall|i: int| 0 <= i < links.len() implies missing_end(
        #[trigger] links[i],
        devices,
    ) is None by {
        gather_holds(links.len() as int, h, i, 0);
        gather_holds(links.len() as int, h, i, 1);
        let k = gather(i, h).len() as int;
        assert(!unlisted(devices)(ends[k]));
        assert(!unlisted(devices)(ends[k + 1]));
        device_is_listed(devices, links[i].device1);
        device_is_listed(devices, links[i].device2);
    }
}

/// A name that a device has is listed.
proof fn device_is_listed(devices: Seq<DeviceRow>, name: Seq<char>)
    requires
        has_device(devices, name),
    ensures
        is_listed(devices, name),
{
    last_device_found(devices, name);
    let k = choose|k: int| 0 <= k < devices.len() && (#[trigger] devices[k]).device == name;
    if !is_listed(devices, name) {
        assert(devices[k].device != name);
    }
}

} // verus!
