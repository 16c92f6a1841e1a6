//! Which edges a consolidated network has, and which of them share their bandwidth.
use crate::consolidation::links::{
    all_edges, compacted, crossings, ends_listed, entry_edge, entry_id, exit_edge, exit_id,
    first_broken, forward_edges, given_id, given_within, groups_are_kept, id_span, ids_fit,
    is_listed, kinds_of, last_device, last_device_found, leads, link_id, link_id_within,
    missing_end, naught, off_ramps, on_ramps, private_ramps, public_edge, public_pair,
    public_pairs, public_ramps, reverse_edges, serves, shared_cities, shared_city, source_of,
    stops_of, switch_of, top_id, used_ids,
};
use crate::lists::{count_where, gather, gather_holds, gather_member, sorted_ids, sorted_ids_exist};
use crate::quantity::{counts, counts_are_numbers, Real};
use crate::statements::inputs::is_named;
use crate::text::sorted_list_exists;
use crate::types::{DeviceRow, EdgeRow, FlowRow, PrivateRow, PublicRow};
use vstd::prelude::*;

verus! {

/// The name begins with the label of the city and does not end in two zeros.
pub open spec fn lies_in(name: Seq<char>, city: Seq<char>) -> bool {
    &&& city.len() <= name.len()
    &&& forall|i: int| 0 <= i < city.len() ==> #[trigger] name[i] == city[i]
    &&& !(name.len() >= 2 && name[name.len() - 1] == '0' && name[name.len() - 2] == '0')
}

/// A city that a public link names.
pub open spec fn on_public(publics: Seq<PublicRow>, city: Seq<char>) -> bool {
    exists|p: int|
        0 <= p < publics.len() && ((#[trigger] publics[p]).city1 == city || publics[p].city2 == city)
}

/// A city of three characters that both networks reach: a device's name begins with it, and
/// a public link names it.
pub open spec fn on_both(
    devices: Seq<DeviceRow>,
    publics: Seq<PublicRow>,
    city: Seq<char>,
) -> bool {
    &&& city.len() == 3
    &&& on_public(publics, city)
    &&& exists|j: int|
        0 <= j < devices.len() && (#[trigger] devices[j]).device.len() >= 3 && city
            == devices[j].device.subrange(0, 3)
}

/// The edge leads from one place to another, at that latency, for that kind of traffic.
pub open spec fn runs(edge: EdgeRow, from: Seq<char>, to: Seq<char>, latency: Real, kind: u32) -> bool {
    &&& edge.device1 == from
    &&& edge.device2 == to
    &&& edge.latency == latency
    &&& edge.link_type == kind
}

/// The edge belongs to the device: to its operator, with the bandwidth at its edge, in some
/// group.
pub open spec fn is_of_device(edge: EdgeRow, d: DeviceRow) -> bool {
    &&& edge.operator1 == d.operator
    &&& edge.operator2 == d.operator
    &&& counts(edge.bandwidth, d.edge as int)
    &&& edge.shared > 0
}

/// The edge belongs to the public network, and its bandwidth is not limited.
pub open spec fn is_of_public(edge: EdgeRow) -> bool {
    edge.operator1 == "Public"@ && edge.operator2 == "Public"@ && edge.shared == 0
}

/// What is said of names by their characters is what is said of them by their parts.
proof fn lies_in_serves(name: Seq<char>, city: Seq<char>)
    ensures
        serves(name, city) == lies_in(name, city),
{
    reveal_strlit("00");
    let n = name.len() as int;
    if city.len() <= name.len() {
        assert(name.take(city.len() as int) == city <==> forall|i: int|
            0 <= i < city.len() ==> #[trigger] name[i] == city[i]) by {
            if forall|i: int| 0 <= i < city.len() ==> #[trigger] name[i] == city[i] {
                assert(name.take(city.len() as int) =~= city);
            }
            if name.take(city.len() as int) == city {
                assert forall|i: int| 0 <= i < city.len() implies #[trigger] name[i] == city[i] by {
                    assert(name.take(city.len() as int)[i] == city[i]);
                }
            }
        }
    }
    if n >= 2 {
        assert(name.skip(n - 2)[0] == name[n - 2] && name.skip(n - 2)[1] == name[n - 1]);
        if name[n - 1] == '0' && name[n - 2] == '0' {
            assert(name.skip(n - 2) =~= "00"@);
        }
    }
}

/// An edge keeps all but the number of its group, and a group stays one.
proof fn edge_kept(all: Seq<EdgeRow>, x: int)
    requires
        0 <= x < all.len(),
    ensures
        compacted(all)[x] == (EdgeRow { shared: compacted(all)[x].shared, ..all[x] }),
        compacted(all)[x].shared == 0 <==> all[x].shared == 0,
{
    groups_are_kept(all, x, x);
}

/// The parts of the list of all edges, one after the other.
proof fn all_parts(
    links: Seq<PrivateRow>,
    capacity: Seq<Real>,
    devices: Seq<DeviceRow>,
    flows: Seq<FlowRow>,
    publics: Seq<PublicRow>,
    bonus: Real,
)
    ensures
        ({
            let all = all_edges(links, capacity, devices, flows, publics, bonus);
            let n = links.len() as int;
            let span = id_span(links);
            let types = sorted_ids(kinds_of(flows));
            let cities = shared_cities(devices, publics);
            let a = gather(
                types.len() as int,
                |t: int| private_ramps(devices, span, flows, types[t]),
            );
            let b = gather(
                cities.len() as int,
                |c: int| crossings(devices, span, cities[c], bonus),
            );
            let c = public_pairs(publics);
            let d = gather(types.len() as int, |t: int| public_ramps(flows, types[t]));
            &&& all.len() == 2 * n + a.len() + b.len() + c.len() + d.len()
            &&& forall|i: int|
                0 <= i < n ==> #[trigger] all[i] == forward_edges(links, capacity, devices)[i]
            &&& forall|i: int|
                n <= i < 2 * n ==> #[trigger] all[i] == reverse_edges(
                    links,
                    capacity,
                    devices,
                )[i - n]
            &&& forall|i: int| 0 <= i < a.len() ==> all[2 * n + i] == #[trigger] a[i]
            &&& forall|i: int| 0 <= i < b.len() ==> all[2 * n + a.len() + i] == #[trigger] b[i]
            &&& forall|i: int|
                0 <= i < c.len() ==> all[2 * n + a.len() + b.len() + i] == #[trigger] c[i]
            &&& forall|i: int|
                0 <= i < d.len() ==> all[2 * n + a.len() + b.len() + c.len() + i] == #[trigger] d[i]
        }),
{
}

/// The first flow of its kind.
pub open spec fn comes_first(flows: Seq<FlowRow>, d: int) -> bool {
    &&& 0 <= d < flows.len()
    &&& forall|k: int| 0 <= k < d ==> (#[trigger] flows[k]).kind != flows[d].kind
}

/// The kind of a flow is among the kinds, at some place.
proof fn kind_place(flows: Seq<FlowRow>, d: int) -> (t: int)
    requires
        0 <= d < flows.len(),
    ensures
        0 <= t < sorted_ids(kinds_of(flows)).len(),
        sorted_ids(kinds_of(flows))[t] == flows[d].kind,
{
    let kinds = kinds_of(flows);
    sorted_ids_exist(kinds);
    assert(kinds[d] == flows[d].kind);
    assert(kinds.contains(flows[d].kind));
    assert(sorted_ids(kinds).contains(flows[d].kind));
    choose|t: int| 0 <= t < sorted_ids(kinds).len() && sorted_ids(kinds)[t] == flows[d].kind
}

/// Where the flows of a kind start.
proof fn source_found(flows: Seq<FlowRow>, d: int)
    requires
        comes_first(flows, d),
    ensures
        source_of(flows, flows[d].kind) == flows[d].start,
{
    let kind = flows[d].kind;
    assert(leads(flows, kind, d));
    let c = choose|c: int| leads(flows, kind, c);
    if c < d {
        assert(flows[c].kind != kind);
    } else if d < c {
        assert(flows[d].kind != kind);
    }
}

/// Where a flow ends is among the stops of its kind, at some place.
proof fn stop_place(flows: Seq<FlowRow>, d: int) -> (s: int)
    requires
        0 <= d < flows.len(),
    ensures
        0 <= s < stops_of(flows, flows[d].kind).len(),
        stops_of(flows, flows[d].kind)[s] == flows[d].end,
{
    let kind = flows[d].kind;
    let f = |i: int|
        if flows[i].kind == kind {
            seq![flows[i].end]
        } else {
            Seq::empty()
        };
    let ends = gather(flows.len() as int, f);
    assert(f(d) == seq![flows[d].end]);
    gather_holds(flows.len() as int, f, d, 0);
    assert(ends.contains(flows[d].end));
    sorted_list_exists(ends);
    let stops = stops_of(flows, kind);
    assert(stops.contains(flows[d].end));
    choose|s: int| 0 <= s < stops.len() && stops[s] == flows[d].end
}

/// A device has groups of its own for what enters and what leaves.
proof fn device_edge_grouped(
    links: Seq<PrivateRow>,
    devices: Seq<DeviceRow>,
    i: int,
    city: Seq<char>,
    latency: Real,
    kind: u32,
)
    requires
        ids_fit(links, devices.len() as int),
        0 <= i < devices.len(),
    ensures
        ({
            let into = entry_edge(devices, id_span(links), i, city, latency, kind);
            let out = exit_edge(devices, id_span(links), i, city, latency, kind);
            is_of_device(into, devices[i]) && is_of_device(out, devices[i])
        }),
{
    given_within(links);
    last_device_found(devices, devices[i].device);
    counts_are_numbers(devices[i].edge as int);
}

/// Traffic enters the private network at every device in the city that it starts from: the
/// name of the device begins with that of the city and does not end in two zeros, and that
/// is all that is asked of it.
pub proof fn traffic_enters_at_devices(
    links: Seq<PrivateRow>,
    capacity: Seq<Real>,
    devices: Seq<DeviceRow>,
    flows: Seq<FlowRow>,
    publics: Seq<PublicRow>,
    bonus: Real,
    d: int,
    i: int,
) -> (x: int)
    requires
        ids_fit(links, devices.len() as int),
        comes_first(flows, d),
        0 <= i < devices.len(),
        lies_in(devices[i].device, flows[d].start),
    ensures
        ({
            let edges = compacted(all_edges(links, capacity, devices, flows, publics, bonus));
            &&& 2 * links.len() <= x < edges.len()
            &&& runs(
                edges[x],
                flows[d].start,
                devices[i].device,
                Real { bits: 0 },
                flows[d].kind,
            )
            &&& is_of_device(edges[x], devices[i])
        }),
{
    let all = all_edges(links, capacity, devices, flows, publics, bonus);
    let span = id_span(links);
    let n = devices.len() as int;
    let kind = flows[d].kind;
    let source = flows[d].start;
    let types = sorted_ids(kinds_of(flows));
    all_parts(links, capacity, devices, flows, publics, bonus);
    source_found(flows, d);
    lies_in_serves(devices[i].device, source);
    device_edge_grouped(links, devices, i, source, naught(), kind);
    let f = |i: int|
        if serves(devices[i].device, source) {
            seq![entry_edge(devices, span, i, source, naught(), kind)]
        } else {
            Seq::empty()
        };
    assert(f(i) == seq![entry_edge(devices, span, i, source, naught(), kind)]);
    gather_holds(n, f, i, 0);
    let at = gather(i, f).len() as int;
    let t = kind_place(flows, d);
    let g = |t: int| private_ramps(devices, span, flows, types[t]);
    assert(g(t)[at] == on_ramps(devices, span, source, kind)[at]);
    gather_holds(types.len() as int, g, t, at);
    let x = 2 * links.len() + gather(t, g).len() + at;
    edge_kept(all, x);
    x
}

/// Traffic leaves the private network at every device in the city that it goes to.
pub proof fn traffic_leaves_at_devices(
    links: Seq<PrivateRow>,
    capacity: Seq<Real>,
    devices: Seq<DeviceRow>,
    flows: Seq<FlowRow>,
    publics: Seq<PublicRow>,
    bonus: Real,
    d: int,
    i: int,
) -> (x: int)
    requires
        ids_fit(links, devices.len() as int),
        0 <= d < flows.len(),
        0 <= i < devices.len(),
        lies_in(devices[i].device, flows[d].end),
    ensures
        ({
            let edges = compacted(all_edges(links, capacity, devices, flows, publics, bonus));
            &&& 2 * links.len() <= x < edges.len()
            &&& runs(
                edges[x],
                devices[i].device,
                flows[d].end,
                Real { bits: 0 },
                flows[d].kind,
            )
            &&& is_of_device(edges[x], devices[i])
        }),
{
    let all = all_edges(links, capacity, devices, flows, publics, bonus);
    let span = id_span(links);
    let n = devices.len() as int;
    let kind = flows[d].kind;
    let city = flows[d].end;
    let types = sorted_ids(kinds_of(flows));
    all_parts(links, capacity, devices, flows, publics, bonus);
    lies_in_serves(devices[i].device, city);
    device_edge_grouped(links, devices, i, city, naught(), kind);
    let f = |i: int|
        if serves(devices[i].device, city) {
            seq![exit_edge(devices, span, i, city, naught(), kind)]
        } else {
            Seq::empty()
        };
    assert(f(i) == seq![exit_edge(devices, span, i, city, naught(), kind)]);
    gather_holds(n, f, i, 0);
    let at = gather(i, f).len() as int;
    let s = stop_place(flows, d);
    let stops = stops_of(flows, kind);
    let h = |s: int| off_ramps(devices, span, stops[s], kind);
    assert(h(s)[at] == gather(n, f)[at]);
    gather_holds(stops.len() as int, h, s, at);
    let t = kind_place(flows, d);
    let g = |t: int| private_ramps(devices, span, flows, types[t]);
    let into = on_ramps(devices, span, source_of(flows, kind), kind);
    let z = into.len() + gather(s, h).len() + at;
    assert(g(t)[z] == gather(stops.len() as int, h)[gather(s, h).len() + at]);
    gather_holds(types.len() as int, g, t, z);
    let x = 2 * links.len() + gather(t, g).len() + z;
    edge_kept(all, x);
    x
}

/// In every city that both networks reach, each device crosses to the public switch of the
/// city and back, at the latency asked for, for all traffic.
pub proof fn devices_cross_over(
    links: Seq<PrivateRow>,
    capacity: Seq<Real>,
    devices: Seq<DeviceRow>,
    flows: Seq<FlowRow>,
    publics: Seq<PublicRow>,
    bonus: Real,
    city: Seq<char>,
    i: int,
) -> (x: (int, int))
    requires
        ids_fit(links, devices.len() as int),
        on_both(devices, publics, city),
        0 <= i < devices.len(),
        lies_in(devices[i].device, city),
    ensures
        ({
            let edges = compacted(all_edges(links, capacity, devices, flows, publics, bonus));
            let switch = city + "00"@;
            &&& 2 * links.len() <= x.0 < edges.len()
            &&& 2 * links.len() <= x.1 < edges.len()
            &&& runs(edges[x.0], devices[i].device, switch, bonus, 0)
            &&& runs(edges[x.1], switch, devices[i].device, bonus, 0)
            &&& is_of_device(edges[x.0], devices[i])
            &&& is_of_device(edges[x.1], devices[i])
        }),
{
    let all = all_edges(links, capacity, devices, flows, publics, bonus);
    let span = id_span(links);
    let n = devices.len() as int;
    let types = sorted_ids(kinds_of(flows));
    let cities = shared_cities(devices, publics);
    all_parts(links, capacity, devices, flows, publics, bonus);
    lies_in_serves(devices[i].device, city);
    let switch = switch_of(city);
    device_edge_grouped(links, devices, i, switch, bonus, 0);
    let c = city_place(devices, publics, city);
    let f = |i: int|
        if serves(devices[i].device, city) {
            seq![
                exit_edge(devices, span, i, switch, bonus, 0),
                entry_edge(devices, span, i, switch, bonus, 0),
            ]
        } else {
            Seq::empty()
        };
    assert(f(i).len() == 2);
    gather_holds(n, f, i, 0);
    gather_holds(n, f, i, 1);
    let at = gather(i, f).len() as int;
    let g = |c: int| crossings(devices, span, cities[c], bonus);
    assert(g(c) == gather(n, f));
    gather_holds(cities.len() as int, g, c, at);
    gather_holds(cities.len() as int, g, c, at + 1);
    let ramps = gather(types.len() as int, |t: int| private_ramps(devices, span, flows, types[t]));
    let x = 2 * links.len() + ramps.len() + gather(c, g).len() + at;
    edge_kept(all, x);
    edge_kept(all, x + 1);
    (x, x + 1)
}

/// A city that both networks reach has a place among those that do.
proof fn city_place(devices: Seq<DeviceRow>, publics: Seq<PublicRow>, city: Seq<char>) -> (c: int)
    requires
        on_both(devices, publics, city),
    ensures
        0 <= c < shared_cities(devices, publics).len(),
        shared_cities(devices, publics)[c] == city,
{
    let j = choose|j: int|
        0 <= j < devices.len() && (#[trigger] devices[j]).device.len() >= 3 && city
            == devices[j].device.subrange(0, 3);
    let f = |i: int| shared_city(publics, devices[i].device);
    let names = gather(devices.len() as int, f);
    assert(devices[j].device.take(3) =~= city);
    assert(f(j) == seq![city]);
    gather_holds(devices.len() as int, f, j, 0);
    assert(names.contains(city));
    sorted_list_exists(names);
    let cities = shared_cities(devices, publics);
    assert(cities.contains(city));
    choose|c: int| 0 <= c < cities.len() && cities[c] == city
}

/// Every public link can be taken in both directions, between the public switches of its
/// cities.
pub proof fn public_links_go_both_ways(
    links: Seq<PrivateRow>,
    capacity: Seq<Real>,
    devices: Seq<DeviceRow>,
    flows: Seq<FlowRow>,
    publics: Seq<PublicRow>,
    bonus: Real,
    p: int,
) -> (x: (int, int))
    requires
        0 <= p < publics.len(),
    ensures
        ({
            let edges = compacted(all_edges(links, capacity, devices, flows, publics, bonus));
            let (a, b) = (publics[p].city1 + "00"@, publics[p].city2 + "00"@);
            &&& 0 <= x.0 < edges.len()
            &&& 0 <= x.1 < edges.len()
            &&& runs(edges[x.0], a, b, publics[p].latency, 0) && is_of_public(edges[x.0])
            &&& runs(edges[x.1], b, a, publics[p].latency, 0) && is_of_public(edges[x.1])
        }),
{
    let all = all_edges(links, capacity, devices, flows, publics, bonus);
    let span = id_span(links);
    let types = sorted_ids(kinds_of(flows));
    let cities = shared_cities(devices, publics);
    all_parts(links, capacity, devices, flows, publics, bonus);
    let f = |i: int| public_pair(publics[i]);
    assert(f(p).len() == 2);
    gather_holds(publics.len() as int, f, p, 0);
    gather_holds(publics.len() as int, f, p, 1);
    let at = gather(p, f).len() as int;
    let a = gather(types.len() as int, |t: int| private_ramps(devices, span, flows, types[t]));
    let b = gather(cities.len() as int, |c: int| crossings(devices, span, cities[c], bonus));
    let x = 2 * links.len() + a.len() + b.len() + at;
    assert(public_pairs(publics)[at] == all[x]);
    assert(public_pairs(publics)[at + 1] == all[x + 1]);
    edge_kept(all, x);
    edge_kept(all, x + 1);
    (x, x + 1)
}

/// Traffic enters the public network where it starts and leaves it where it ends, by the
/// public switches of these cities.
pub proof fn traffic_takes_the_public_network(
    links: Seq<PrivateRow>,
    capacity: Seq<Real>,
    devices: Seq<DeviceRow>,
    flows: Seq<FlowRow>,
    publics: Seq<PublicRow>,
    bonus: Real,
    d: int,
) -> (x: (int, int))
    requires
        0 <= d < flows.len(),
    ensures
        ({
            let edges = compacted(all_edges(links, capacity, devices, flows, publics, bonus));
            let (start, end, kind) = (flows[d].start, flows[d].end, flows[d].kind);
            &&& 0 <= x.0 < edges.len()
            &&& 0 <= x.1 < edges.len()
            &&& comes_first(flows, d) ==> runs(
                edges[x.0],
                start,
                start + "00"@,
                Real { bits: 0 },
                kind,
            ) && is_of_public(edges[x.0])
            &&& runs(edges[x.1], end + "00"@, end, Real { bits: 0 }, kind) && is_of_public(
                edges[x.1],
            )
        }),
{
    let all = all_edges(links, capacity, devices, flows, publics, bonus);
    let span = id_span(links);
    let types = sorted_ids(kinds_of(flows));
    let cities = shared_cities(devices, publics);
    let kind = flows[d].kind;
    all_parts(links, capacity, devices, flows, publics, bonus);
    if comes_first(flows, d) {
        source_found(flows, d);
    }
    let s = stop_place(flows, d);
    let stops = stops_of(flows, kind);
    let h = |s: int| seq![public_edge(switch_of(stops[s]), stops[s], naught(), kind)];
    gather_holds(stops.len() as int, h, s, 0);
    let t = kind_place(flows, d);
    let g = |t: int| public_ramps(flows, types[t]);
    let z = 1 + gather(s, h).len();
    assert(g(t)[z as int] == gather(stops.len() as int, h)[z - 1]);
    assert(g(t)[0] == public_edge(
        source_of(flows, kind),
        switch_of(source_of(flows, kind)),
        naught(),
        kind,
    ));
    gather_holds(types.len() as int, g, t, 0);
    gather_holds(types.len() as int, g, t, z as int);
    let a = gather(types.len() as int, |t: int| private_ramps(devices, span, flows, types[t]));
    let b = gather(cities.len() as int, |c: int| crossings(devices, span, cities[c], bonus));
    let x = 2 * links.len() + a.len() + b.len() + public_pairs(publics).len() + gather(t, g).len();
    edge_kept(all, x as int);
    edge_kept(all, (x + z) as int);
    (x as int, (x + z) as int)
}

/// The last device of that name.
pub open spec fn stands_last(devices: Seq<DeviceRow>, k: int, name: Seq<char>) -> bool {
    &&& 0 <= k < devices.len()
    &&& devices[k].device == name
    &&& forall|m: int| k < m < devices.len() ==> (#[trigger] devices[m]).device != name
}

/// Each link is there in both directions, between the devices that it names, with what it
/// can carry, its latency, and the operators of the devices, for all traffic.
pub proof fn links_run_between_their_devices(
    links: Seq<PrivateRow>,
    capacity: Seq<Real>,
    devices: Seq<DeviceRow>,
    flows: Seq<FlowRow>,
    publics: Seq<PublicRow>,
    bonus: Real,
    i: int,
    k1: int,
    k2: int,
)
    requires
        ids_fit(links, devices.len() as int),
        0 <= i < links.len(),
        stands_last(devices, k1, links[i].device1),
        stands_last(devices, k2, links[i].device2),
    ensures
        ({
            let edges = compacted(all_edges(links, capacity, devices, flows, publics, bonus));
            let (a, b) = (edges[i], edges[links.len() + i]);
            &&& links.len() + i < edges.len()
            &&& runs(a, links[i].device1, links[i].device2, links[i].latency, 0)
            &&& runs(b, links[i].device2, links[i].device1, links[i].latency, 0)
            &&& a.bandwidth == capacity[i] && b.bandwidth == capacity[i]
            &&& a.operator1 == devices[k1].operator && a.operator2 == devices[k2].operator
            &&& b.operator1 == devices[k2].operator && b.operator2 == devices[k1].operator
            &&& a.shared > 0 && b.shared > 0
        }),
{
    let all = all_edges(links, capacity, devices, flows, publics, bonus);
    let n = links.len() as int;
    all_parts(links, capacity, devices, flows, publics, bonus);
    last_found(devices, k1, links[i].device1);
    last_found(devices, k2, links[i].device2);
    given_within(links);
    link_id_within(links, i);
    edge_kept(all, i);
    edge_kept(all, n + i);
    assert(all[n + i] == reverse_edges(links, capacity, devices)[i]);
}

/// The last device of a name is found as such.
proof fn last_found(devices: Seq<DeviceRow>, k: int, name: Seq<char>)
    requires
        stands_last(devices, k, name),
    ensures
        last_device(devices, name) == k,
{
    last_device_found(devices, name);
    let c = last_device(devices, name);
    if c < k {
        assert(devices[k].device != name);
    } else if k < c {
        assert(devices[c].device != name);
    }
}

/// What an edge of the network is there for.
pub enum Reason {
    /// A link, in one direction or the other.
    Link { link: int, back: bool },
    /// The way of a flow from the city where it starts into a device.
    Entry { flow: int, device: int },
    /// The way of a flow from a device out to the city where it ends.
    Exit { flow: int, device: int },
    /// The way from a device to the public switch of a city, or back.
    Crossing { city: Seq<char>, device: int, back: bool },
    /// A public link, in one direction or the other.
    Public { link: int, back: bool },
    /// The way of a flow onto the public network where it starts.
    On { flow: int },
    /// The way of a flow off the public network where it ends.
    Off { flow: int },
}

/// The edge is there for the reason.
pub open spec fn is_there_for(
    edge: EdgeRow,
    reason: Reason,
    links: Seq<PrivateRow>,
    devices: Seq<DeviceRow>,
    flows: Seq<FlowRow>,
    publics: Seq<PublicRow>,
    bonus: Real,
) -> bool {
    let zero = Real { bits: 0 };
    match reason {
        Reason::Link { link: i, back } => {
            &&& 0 <= i < links.len()
            &&& if back {
                runs(edge, links[i].device2, links[i].device1, links[i].latency, 0)
            } else {
                runs(edge, links[i].device1, links[i].device2, links[i].latency, 0)
            }
        },
        Reason::Entry { flow: d, device: i } => {
            &&& comes_first(flows, d) && 0 <= i < devices.len()
            &&& lies_in(devices[i].device, flows[d].start)
            &&& runs(edge, flows[d].start, devices[i].device, zero, flows[d].kind)
            &&& is_of_device(edge, devices[i])
        },
        Reason::Exit { flow: d, device: i } => {
            &&& 0 <= d < flows.len() && 0 <= i < devices.len()
            &&& lies_in(devices[i].device, flows[d].end)
            &&& runs(edge, devices[i].device, flows[d].end, zero, flows[d].kind)
            &&& is_of_device(edge, devices[i])
        },
        Reason::Crossing { city, device: i, back } => {
            &&& 0 <= i < devices.len()
            &&& on_both(devices, publics, city)
            &&& lies_in(devices[i].device, city)
            &&& if back {
                runs(edge, city + "00"@, devices[i].device, bonus, 0)
            } else {
                runs(edge, devices[i].device, city + "00"@, bonus, 0)
            }
            &&& is_of_device(edge, devices[i])
        },
        Reason::Public { link: p, back } => {
            &&& 0 <= p < publics.len()
            &&& if back {
                runs(
                    edge,
                    publics[p].city2 + "00"@,
                    publics[p].city1 + "00"@,
                    publics[p].latency,
                    0,
                )
            } else {
                runs(
                    edge,
                    publics[p].city1 + "00"@,
                    publics[p].city2 + "00"@,
                    publics[p].latency,
                    0,
                )
            }
            &&& is_of_public(edge)
        },
        Reason::On { flow: d } => {
            &&& comes_first(flows, d)
            &&& runs(edge, flows[d].start, flows[d].start + "00"@, zero, flows[d].kind)
            &&& is_of_public(edge)
        },
        Reason::Off { flow: d } => {
            &&& 0 <= d < flows.len()
            &&& runs(edge, flows[d].end + "00"@, flows[d].end, zero, flows[d].kind)
            &&& is_of_public(edge)
        },
    }
}

/// The first flow of the kind at a place among the kinds.
proof fn first_of_place(flows: Seq<FlowRow>, t: int) -> (d: int)
    requires
        0 <= t < sorted_ids(kinds_of(flows)).len(),
    ensures
        comes_first(flows, d),
        flows[d].kind == sorted_ids(kinds_of(flows))[t],
{
    let kinds = kinds_of(flows);
    sorted_ids_exist(kinds);
    let kind = sorted_ids(kinds)[t];
    assert(sorted_ids(kinds).contains(kind));
    let k = choose|k: int| 0 <= k < kinds.len() && kinds[k] == kind;
    first_from(flows, k)
}

/// The first flow of the kind of a flow.
proof fn first_from(flows: Seq<FlowRow>, k: int) -> (d: int)
    requires
        0 <= k < flows.len(),
    ensures
        comes_first(flows, d),
        flows[d].kind == flows[k].kind,
    decreases k,
{
    if exists|m: int| 0 <= m < k && (#[trigger] flows[m]).kind == flows[k].kind {
        let m = choose|m: int| 0 <= m < k && (#[trigger] flows[m]).kind == flows[k].kind;
        first_from(flows, m)
    } else {
        k
    }
}

/// The flow that ends at a stop of a kind.
proof fn flow_of_stop(flows: Seq<FlowRow>, kind: u32, s: int) -> (d: int)
    requires
        0 <= s < stops_of(flows, kind).len(),
    ensures
        0 <= d < flows.len(),
        flows[d].kind == kind,
        flows[d].end == stops_of(flows, kind)[s],
{
    let f = |i: int|
        if flows[i].kind == kind {
            seq![flows[i].end]
        } else {
            Seq::empty()
        };
    let ends = gather(flows.len() as int, f);
    sorted_list_exists(ends);
    let stops = stops_of(flows, kind);
    assert(stops.contains(stops[s]));
    let k = choose|k: int| 0 <= k < ends.len() && ends[k] == stops[s];
    let (d, z) = gather_member(flows.len() as int, f, k);
    d
}

/// The city at a place among those that both networks reach.
proof fn city_at(devices: Seq<DeviceRow>, publics: Seq<PublicRow>, c: int)
    requires
        0 <= c < shared_cities(devices, publics).len(),
    ensures
        on_both(devices, publics, shared_cities(devices, publics)[c]),
{
    let f = |i: int| shared_city(publics, devices[i].device);
    let names = gather(devices.len() as int, f);
    sorted_list_exists(names);
    let cities = shared_cities(devices, publics);
    assert(cities.contains(cities[c]));
    let k = choose|k: int| 0 <= k < names.len() && names[k] == cities[c];
    let (j, z) = gather_member(devices.len() as int, f, k);
    assert(f(j)[z] == cities[c]);
    assert(devices[j].device.take(3) =~= devices[j].device.subrange(0, 3));
}

/// The private ways in and out, before renumbering: why each is there, and its group.
proof fn ramp_reason(
    links: Seq<PrivateRow>,
    devices: Seq<DeviceRow>,
    flows: Seq<FlowRow>,
    publics: Seq<PublicRow>,
    bonus: Real,
    t: int,
    z: int,
) -> (r: (Reason, int))
    requires
        ids_fit(links, devices.len() as int),
        0 <= t < sorted_ids(kinds_of(flows)).len(),
        0 <= z < private_ramps(
            devices,
            id_span(links),
            flows,
            sorted_ids(kinds_of(flows))[t],
        ).len(),
    ensures
        ({
            let edge = private_ramps(
                devices,
                id_span(links),
                flows,
                sorted_ids(kinds_of(flows))[t],
            )[z];
            let i = r.1;
            &&& 0 <= i < devices.len()
            &&& is_there_for(edge, r.0, links, devices, flows, publics, bonus)
            &&& match r.0 {
                Reason::Entry { flow, device } => edge.device2 == devices[i].device && edge.shared
                    == entry_id(devices, id_span(links), devices[i].device),
                Reason::Exit { flow, device } => edge.device1 == devices[i].device && edge.shared
                    == exit_id(devices, id_span(links), devices[i].device),
                _ => false,
            }
        }),
{
    let span = id_span(links);
    let n = devices.len() as int;
    let kind = sorted_ids(kinds_of(flows))[t];
    let d = first_of_place(flows, t);
    source_found(flows, d);
    let source = flows[d].start;
    let into = on_ramps(devices, span, source, kind);
    given_within(links);
    if z < into.len() {
        let f = |i: int|
            if serves(devices[i].device, source) {
                seq![entry_edge(devices, span, i, source, naught(), kind)]
            } else {
                Seq::empty()
            };
        let (i, y) = gather_member(n, f, z);
        lies_in_serves(devices[i].device, source);
        device_edge_grouped(links, devices, i, source, naught(), kind);
        last_device_found(devices, devices[i].device);
        (Reason::Entry { flow: d, device: i }, i)
    } else {
        let stops = stops_of(flows, kind);
        let h = |s: int| off_ramps(devices, span, stops[s], kind);
        let (s, y) = gather_member(stops.len() as int, h, z - into.len());
        let e = flow_of_stop(flows, kind, s);
        let city = stops[s];
        let f = |i: int|
            if serves(devices[i].device, city) {
                seq![exit_edge(devices, span, i, city, naught(), kind)]
            } else {
                Seq::empty()
            };
        assert(h(s) == gather(n, f));
        let (i, w) = gather_member(n, f, y);
        lies_in_serves(devices[i].device, city);
        device_edge_grouped(links, devices, i, city, naught(), kind);
        last_device_found(devices, devices[i].device);
        (Reason::Exit { flow: e, device: i }, i)
    }
}

/// The crossings, before renumbering: why each is there, and its group.
proof fn crossing_reason(
    links: Seq<PrivateRow>,
    devices: Seq<DeviceRow>,
    flows: Seq<FlowRow>,
    publics: Seq<PublicRow>,
    bonus: Real,
    c: int,
    z: int,
) -> (r: (Reason, int))
    requires
        ids_fit(links, devices.len() as int),
        0 <= c < shared_cities(devices, publics).len(),
        0 <= z < crossings(
            devices,
            id_span(links),
            shared_cities(devices, publics)[c],
            bonus,
        ).len(),
    ensures
        ({
            let edge = crossings(
                devices,
                id_span(links),
                shared_cities(devices, publics)[c],
                bonus,
            )[z];
            let i = r.1;
            &&& 0 <= i < devices.len()
            &&& is_there_for(edge, r.0, links, devices, flows, publics, bonus)
            &&& match r.0 {
                Reason::Crossing { city, device, back } => if back {
                    edge.device2 == devices[i].device && edge.shared == entry_id(
                        devices,
                        id_span(links),
                        devices[i].device,
                    )
                } else {
                    edge.device1 == devices[i].device && edge.shared == exit_id(
                        devices,
                        id_span(links),
                        devices[i].device,
                    )
                },
                _ => false,
            }
        }),
{
    let span = id_span(links);
    let n = devices.len() as int;
    let city = shared_cities(devices, publics)[c];
    let switch = switch_of(city);
    city_at(devices, publics, c);
    given_within(links);
    let f = |i: int|
        if serves(devices[i].device, city) {
            seq![
                exit_edge(devices, span, i, switch, bonus, 0),
                entry_edge(devices, span, i, switch, bonus, 0),
            ]
        } else {
            Seq::empty()
        };
    let (i, y) = gather_member(n, f, z);
    lies_in_serves(devices[i].device, city);
    device_edge_grouped(links, devices, i, switch, bonus, 0);
    last_device_found(devices, devices[i].device);
    (Reason::Crossing { city, device: i, back: y == 1 }, i)
}

/// The edges are no more than these: each is a link in one direction, a way of a flow into
/// or out of a device in its city, a crossing, a public link in one direction, or a way of
/// a flow onto or off the public network.
pub proof fn every_edge_has_a_reason(
    links: Seq<PrivateRow>,
    capacity: Seq<Real>,
    devices: Seq<DeviceRow>,
    flows: Seq<FlowRow>,
    publics: Seq<PublicRow>,
    bonus: Real,
    x: int,
) -> (r: Reason)
    requires
        ids_fit(links, devices.len() as int),
        0 <= x < compacted(all_edges(links, capacity, devices, flows, publics, bonus)).len(),
    ensures
        is_there_for(
            compacted(all_edges(links, capacity, devices, flows, publics, bonus))[x],
            r,
            links,
            devices,
            flows,
            publics,
            bonus,
        ),
        r is Link <==> x < 2 * links.len(),
        r matches Reason::Link { link, back } ==> x == if back {
            links.len() + link
        } else {
            link
        },
{
    edge_bundle(links, capacity, devices, flows, publics, bonus, x)
}

/// The group that an edge goes by: that of links which were given one, a link of its own,
/// or what enters or leaves at a device.
pub enum Bundle {
    Given { id: u32, back: bool },
    Own { link: int, back: bool },
    Into { device: Seq<char> },
    Out { device: Seq<char> },
    Open,
}

/// The group of an edge that is there for the reason. A group numbered zero is none.
pub open spec fn bundle_of(
    reason: Reason,
    links: Seq<PrivateRow>,
    devices: Seq<DeviceRow>,
) -> Bundle {
    match reason {
        Reason::Link { link: i, back } => match links[i].shared {
            Some(id) => if id > 0 {
                Bundle::Given { id, back }
            } else {
                Bundle::Own { link: i, back }
            },
            None => Bundle::Own { link: i, back },
        },
        Reason::Entry { flow, device } => Bundle::Into { device: devices[device].device },
        Reason::Exit { flow, device } => Bundle::Out { device: devices[device].device },
        Reason::Crossing { city, device, back } => if back {
            Bundle::Into { device: devices[device].device }
        } else {
            Bundle::Out { device: devices[device].device }
        },
        _ => Bundle::Open,
    }
}

/// The number of a bundle, before the groups are renumbered.
spec fn bundle_number(links: Seq<PrivateRow>, devices: Seq<DeviceRow>, b: Bundle) -> int {
    let span = id_span(links);
    match b {
        Bundle::Given { id, back } => if back {
            id + span
        } else {
            id as int
        },
        Bundle::Own { link, back } => if back {
            link_id(links, link) + span
        } else {
            link_id(links, link)
        },
        Bundle::Into { device } => entry_id(devices, span, device),
        Bundle::Out { device } => exit_id(devices, span, device),
        Bundle::Open => 0,
    }
}

/// The bundle is one of the network.
spec fn bundle_known(links: Seq<PrivateRow>, devices: Seq<DeviceRow>, b: Bundle) -> bool {
    match b {
        Bundle::Given { id, back } => 0 < id <= top_id(links),
        Bundle::Own { link, back } => 0 <= link < links.len() && given_id(links[link]) == 0,
        Bundle::Into { device } => is_listed(devices, device),
        Bundle::Out { device } => is_listed(devices, device),
        Bundle::Open => true,
    }
}

/// Different bundles have different numbers.
proof fn bundles_apart(links: Seq<PrivateRow>, devices: Seq<DeviceRow>, a: Bundle, b: Bundle)
    requires
        ids_fit(links, devices.len() as int),
        bundle_known(links, devices, a),
        bundle_known(links, devices, b),
        bundle_number(links, devices, a) == bundle_number(links, devices, b),
    ensures
        a == b,
{
    given_within(links);
    match a {
        Bundle::Own { link, back } => {
            link_id_within(links, link);
        },
        Bundle::Into { device } => {
            last_device_found(devices, device);
        },
        Bundle::Out { device } => {
            last_device_found(devices, device);
        },
        _ => {},
    }
    match b {
        Bundle::Own { link, back } => {
            link_id_within(links, link);
        },
        Bundle::Into { device } => {
            last_device_found(devices, device);
        },
        Bundle::Out { device } => {
            last_device_found(devices, device);
        },
        _ => {},
    }
    assert(id_span(links) >= top_id(links));
    if let (Bundle::Own { link: i, back: u }, Bundle::Own { link: j, back: v }) = (a, b) {
        if u == v {
            crate::warm::one_link_or_given(links, i, j);
        }
    }
}

/// The number of an edge's group is that of its bundle.
proof fn edge_bundle(
    links: Seq<PrivateRow>,
    capacity: Seq<Real>,
    devices: Seq<DeviceRow>,
    flows: Seq<FlowRow>,
    publics: Seq<PublicRow>,
    bonus: Real,
    x: int,
) -> (r: Reason)
    requires
        ids_fit(links, devices.len() as int),
        0 <= x < all_edges(links, capacity, devices, flows, publics, bonus).len(),
    ensures
        ({
            let all = all_edges(links, capacity, devices, flows, publics, bonus);
            let edge = compacted(all)[x];
            let b = bundle_of(r, links, devices);
            &&& is_there_for(edge, r, links, devices, flows, publics, bonus)
            &&& bundle_known(links, devices, b)
            &&& all[x].shared == bundle_number(links, devices, b)
        }),
        r is Link <==> x < 2 * links.len(),
        r matches Reason::Link { link, back } ==> x == if back {
            links.len() + link
        } else {
            link
        },
{
    let all = all_edges(links, capacity, devices, flows, publics, bonus);
    let n = links.len() as int;
    let span = id_span(links);
    let types = sorted_ids(kinds_of(flows));
    let cities = shared_cities(devices, publics);
    all_parts(links, capacity, devices, flows, publics, bonus);
    edge_kept(all, x);
    given_within(links);
    let f = |t: int| private_ramps(devices, span, flows, types[t]);
    let g = |c: int| crossings(devices, span, cities[c], bonus);
    let h = |i: int| public_pair(publics[i]);
    let k = |t: int| public_ramps(flows, types[t]);
    let c = public_pairs(publics);
    let d = gather(types.len() as int, k);
    let a = gather(types.len() as int, f);
    let b = gather(cities.len() as int, g);
    if x < 2 * n {
        let i = if x < n {
            x
        } else {
            x - n
        };
        link_id_within(links, i);
        assert(given_id(links[i]) <= top_id(links));
        Reason::Link { link: i, back: x >= n }
    } else if x < 2 * n + a.len() {
        let (t, z) = gather_member(types.len() as int, f, x - 2 * n);
        assert(a[x - 2 * n] == f(t)[z]);
        let (r, i) = ramp_reason(links, devices, flows, publics, bonus, t, z);
        last_device_found(devices, devices[i].device);
        r
    } else if x < 2 * n + a.len() + b.len() {
        let y = x - 2 * n - a.len();
        let (t, z) = gather_member(cities.len() as int, g, y);
        assert(b[y] == g(t)[z]);
        let (r, i) = crossing_reason(links, devices, flows, publics, bonus, t, z);
        last_device_found(devices, devices[i].device);
        r
    } else if x < 2 * n + a.len() + b.len() + c.len() {
        let y = x - 2 * n - a.len() - b.len();
        let (p, z) = gather_member(publics.len() as int, h, y);
        assert(c[y] == h(p)[z]);
        Reason::Public { link: p, back: z == 1 }
    } else {
        let y = x - 2 * n - a.len() - b.len() - c.len();
        let (t, z) = gather_member(types.len() as int, k, y);
        assert(d[y] == k(t)[z]);
        let e = first_of_place(flows, t);
        source_found(flows, e);
        if z == 0 {
            Reason::On { flow: e }
        } else {
            let stops = stops_of(flows, types[t]);
            let w = |s: int| seq![public_edge(switch_of(stops[s]), stops[s], naught(), types[t])];
            let (s, v) = gather_member(stops.len() as int, w, z - 1);
            let q = flow_of_stop(flows, types[t], s);
            Reason::Off { flow: q }
        }
    }
}

/// Which edges share their bandwidth: links that were given one group, in one direction; all
/// that enters at a device, by whatever way; all that leaves at it; and nothing else does.
pub proof fn edges_share_by_bundle(
    links: Seq<PrivateRow>,
    capacity: Seq<Real>,
    devices: Seq<DeviceRow>,
    flows: Seq<FlowRow>,
    publics: Seq<PublicRow>,
    bonus: Real,
    x: int,
    y: int,
) -> (r: (Reason, Reason))
    requires
        ids_fit(links, devices.len() as int),
        0 <= x < compacted(all_edges(links, capacity, devices, flows, publics, bonus)).len(),
        0 <= y < compacted(all_edges(links, capacity, devices, flows, publics, bonus)).len(),
    ensures
        ({
            let edges = compacted(all_edges(links, capacity, devices, flows, publics, bonus));
            let (a, b) = (bundle_of(r.0, links, devices), bundle_of(r.1, links, devices));
            &&& is_there_for(edges[x], r.0, links, devices, flows, publics, bonus)
            &&& is_there_for(edges[y], r.1, links, devices, flows, publics, bonus)
            &&& edges[x].shared == edges[y].shared <==> a == b
            &&& edges[x].shared == 0 <==> a is Open
        }),
{
    let all = all_edges(links, capacity, devices, flows, publics, bonus);
    let r = edge_bundle(links, capacity, devices, flows, publics, bonus, x);
    let q = edge_bundle(links, capacity, devices, flows, publics, bonus, y);
    groups_are_kept(all, x, y);
    let (a, b) = (bundle_of(r, links, devices), bundle_of(q, links, devices));
    if bundle_number(links, devices, a) == bundle_number(links, devices, b) {
        bundles_apart(links, devices, a, b);
    }
    if bundle_number(links, devices, a) == bundle_number(links, devices, Bundle::Open) {
        bundles_apart(links, devices, a, Bundle::Open);
    }
    (r, q)
}

/// The sum of `f(0)`, `f(1)`, up to `f(n - 1)`.
pub open spec fn total(n: int, f: spec_fn(int) -> int) -> int
    decreases n,
{
    if n <= 0 {
        0
    } else {
        total(n - 1, f) + f(n - 1)
    }
}

/// How many devices lie in a city.
pub open spec fn devices_in(devices: Seq<DeviceRow>, city: Seq<char>) -> int {
    count_where(devices.len() as int, |i: int| lies_in(devices[i].device, city)) as int
}

/// Pieces hold together what each of them holds.
proof fn pieces_total<T>(n: int, f: spec_fn(int) -> Seq<T>, g: spec_fn(int) -> int)
    requires
        forall|i: int| 0 <= i < n ==> (#[trigger] f(i)).len() == g(i),
    ensures
        gather(n, f).len() == total(n, g),
    decreases n,
{
    if n > 0 {
        pieces_total(n - 1, f, g);
        assert(f(n - 1).len() == g(n - 1));
    }
}

/// As many edges as devices in the city, so many for each.
proof fn ways_total<T>(
    devices: Seq<DeviceRow>,
    city: Seq<char>,
    f: spec_fn(int) -> Seq<T>,
    each: int,
    n: int,
)
    requires
        0 <= n <= devices.len(),
        forall|i: int|
            0 <= i < devices.len() ==> (#[trigger] f(i)).len() == if serves(
                devices[i].device,
                city,
            ) {
                each
            } else {
                0
            },
    ensures
        gather(n, f).len() == each * count_where(n, |i: int| lies_in(devices[i].device, city)),
    decreases n,
{
    let p = |i: int| lies_in(devices[i].device, city);
    if n > 0 {
        ways_total(devices, city, f, each, n - 1);
        lies_in_serves(devices[n - 1].device, city);
        assert(f(n - 1).len() == if serves(devices[n - 1].device, city) {
            each
        } else {
            0
        });
        let c = count_where(n - 1, p) as int;
        assert(each * (c + 1) == each * c + each) by (nonlinear_arith);
    } else {
        assert(each * 0 == 0) by (nonlinear_arith);
    }
}

/// No edge is there more often than it has reasons: the edges are as many as the links twice;
/// for each kind of traffic the devices where it starts and those where it ends; twice the
/// devices of each city that both networks reach; the public links twice; and for each kind
/// of traffic one way onto the public network and one off it for each city where it ends.
pub proof fn edges_are_counted(
    links: Seq<PrivateRow>,
    capacity: Seq<Real>,
    devices: Seq<DeviceRow>,
    flows: Seq<FlowRow>,
    publics: Seq<PublicRow>,
    bonus: Real,
)
    ensures
        ({
            let edges = compacted(all_edges(links, capacity, devices, flows, publics, bonus));
            let kinds = sorted_ids(kinds_of(flows));
            let cities = shared_cities(devices, publics);
            edges.len() == 2 * links.len() + total(
                kinds.len() as int,
                |t: int|
                    devices_in(devices, source_of(flows, kinds[t])) + total(
                        stops_of(flows, kinds[t]).len() as int,
                        |s: int| devices_in(devices, stops_of(flows, kinds[t])[s]),
                    ),
            ) + total(cities.len() as int, |c: int| 2 * devices_in(devices, cities[c])) + 2
                * publics.len() + total(
                kinds.len() as int,
                |t: int| 1 + stops_of(flows, kinds[t]).len() as int,
            )
        }),
{
    let span = id_span(links);
    let kinds = sorted_ids(kinds_of(flows));
    let cities = shared_cities(devices, publics);
    all_parts(links, capacity, devices, flows, publics, bonus);
    let f = |t: int| private_ramps(devices, span, flows, kinds[t]);
    let fg = |t: int|
        devices_in(devices, source_of(flows, kinds[t])) + total(
            stops_of(flows, kinds[t]).len() as int,
            |s: int| devices_in(devices, stops_of(flows, kinds[t])[s]),
        );
    assert forall|t: int| 0 <= t < kinds.len() implies (#[trigger] f(t)).len() == fg(t) by {
        ramps_counted(devices, span, flows, kinds[t]);
    }
    pieces_total(kinds.len() as int, f, fg);
    let g = |c: int| crossings(devices, span, cities[c], bonus);
    let gg = |c: int| 2 * devices_in(devices, cities[c]);
    assert forall|c: int| 0 <= c < cities.len() implies (#[trigger] g(c)).len() == gg(c) by {
        let city = cities[c];
        let h = |i: int|
            if serves(devices[i].device, city) {
                seq![
                    exit_edge(devices, span, i, switch_of(city), bonus, 0),
                    entry_edge(devices, span, i, switch_of(city), bonus, 0),
                ]
            } else {
                Seq::empty()
            };
        ways_total(devices, city, h, 2, devices.len() as int);
    }
    pieces_total(cities.len() as int, g, gg);
    let h = |i: int| public_pair(publics[i]);
    crate::lp_builder::gather_len(publics.len() as int, h, 2);
    let k = |t: int| public_ramps(flows, kinds[t]);
    let kg = |t: int| 1 + stops_of(flows, kinds[t]).len() as int;
    assert forall|t: int| 0 <= t < kinds.len() implies (#[trigger] k(t)).len() == kg(t) by {
        let stops = stops_of(flows, kinds[t]);
        crate::lp_builder::gather_len(
            stops.len() as int,
            |d: int| seq![public_edge(switch_of(stops[d]), stops[d], naught(), kinds[t])],
            1,
        );
    }
    pieces_total(kinds.len() as int, k, kg);
}

proof fn ramps_counted(devices: Seq<DeviceRow>, span: int, flows: Seq<FlowRow>, kind: u32)
    ensures
        private_ramps(devices, span, flows, kind).len() == devices_in(
            devices,
            source_of(flows, kind),
        ) + total(
            stops_of(flows, kind).len() as int,
            |s: int| devices_in(devices, stops_of(flows, kind)[s]),
        ),
{
    let source = source_of(flows, kind);
    let stops = stops_of(flows, kind);
    let n = devices.len() as int;
    let h = |i: int|
        if serves(devices[i].device, source) {
            seq![entry_edge(devices, span, i, source, naught(), kind)]
        } else {
            Seq::empty()
        };
    ways_total(devices, source, h, 1, n);
    let f = |s: int| off_ramps(devices, span, stops[s], kind);
    let g = |s: int| devices_in(devices, stops_of(flows, kind)[s]);
    assert forall|s: int| 0 <= s < stops.len() implies (#[trigger] f(s)).len() == g(s) by {
        let city = stops[s];
        let k = |i: int|
            if serves(devices[i].device, city) {
                seq![exit_edge(devices, span, i, city, naught(), kind)]
            } else {
                Seq::empty()
            };
        ways_total(devices, city, k, 1, n);
    }
    pieces_total(stops.len() as int, f, g);
}

/// The lists that edges are made by hold each of their members once: the kinds of the flows,
/// the cities where a kind ends, and the cities that both networks reach.
pub proof fn edges_are_made_by(
    devices: Seq<DeviceRow>,
    flows: Seq<FlowRow>,
    publics: Seq<PublicRow>,
    kind: u32,
)
    ensures
        sorted_ids(kinds_of(flows)).no_duplicates(),
        stops_of(flows, kind).no_duplicates(),
        shared_cities(devices, publics).no_duplicates(),
        forall|k: u32| #[trigger]
            sorted_ids(kinds_of(flows)).contains(k) <==> exists|d: int|
                0 <= d < flows.len() && (#[trigger] flows[d]).kind == k,
        forall|city: Seq<char>| #[trigger]
            stops_of(flows, kind).contains(city) <==> exists|d: int|
                0 <= d < flows.len() && (#[trigger] flows[d]).kind == kind && flows[d].end == city,
        forall|city: Seq<char>| #[trigger]
            shared_cities(devices, publics).contains(city) <==> on_both(devices, publics, city),
{
    crate::statements::program::commodities_are_kinds(flows);
    let kinds = sorted_ids(kinds_of(flows));
    assert(kinds == crate::lp_builder::commodities_of(flows));
    let stops = stops_of(flows, kind);
    let cities = shared_cities(devices, publics);
    let f = |i: int|
        if flows[i].kind == kind {
            seq![flows[i].end]
        } else {
            Seq::empty()
        };
    sorted_list_exists(gather(flows.len() as int, f));
    let g = |i: int| shared_city(publics, devices[i].device);
    sorted_list_exists(gather(devices.len() as int, g));
    assert forall|i: int, j: int| 0 <= i < kinds.len() && 0 <= j < kinds.len() && i
        != j implies kinds[i] != kinds[j] by {
        if i < j {
            assert(kinds[i] < kinds[j]);
        } else {
            assert(kinds[j] < kinds[i]);
        }
    }
    sorted_apart(stops);
    sorted_apart(cities);
    assert forall|city: Seq<char>| #[trigger] stops.contains(city) <==> exists|d: int|
        0 <= d < flows.len() && (#[trigger] flows[d]).kind == kind && flows[d].end == city by {
        if stops.contains(city) {
            let s = choose|s: int| 0 <= s < stops.len() && stops[s] == city;
            let d = flow_of_stop(flows, kind, s);
            assert(flows[d].kind == kind);
        }
        if exists|d: int|
            0 <= d < flows.len() && (#[trigger] flows[d]).kind == kind && flows[d].end == city {
            let d = choose|d: int|
                0 <= d < flows.len() && (#[trigger] flows[d]).kind == kind && flows[d].end == city;
            let s = stop_place(flows, d);
        }
    }
    assert forall|city: Seq<char>| #[trigger] cities.contains(city) <==> on_both(
        devices,
        publics,
        city,
    ) by {
        if cities.contains(city) {
            let c = choose|c: int| 0 <= c < cities.len() && cities[c] == city;
            city_at(devices, publics, c);
        }
        if on_both(devices, publics, city) {
            let c = city_place(devices, publics, city);
        }
    }
}

proof fn sorted_apart(names: Seq<Seq<char>>)
    requires
        crate::text::strictly_sorted(names),
    ensures
        names.no_duplicates(),
{
    assert forall|i: int, j: int| 0 <= i < names.len() && 0 <= j < names.len() && i
        != j implies names[i] != names[j] by {
        if i < j {
            assert(crate::text::lex_less(names[i], names[j]));
            crate::text::lex_less_irreflexive(names[i]);
        } else {
            assert(crate::text::lex_less(names[j], names[i]));
            crate::text::lex_less_irreflexive(names[i]);
        }
    }
}

/// Where a bundle stands among the others: links ahead before links back, before what enters
/// at devices, before what leaves; given groups by their numbers, before links of their own
/// in their order; devices in theirs.
pub open spec fn stands_before(
    links: Seq<PrivateRow>,
    devices: Seq<DeviceRow>,
    a: Bundle,
    b: Bundle,
) -> bool {
    let part = |x: Bundle|
        match x {
            Bundle::Given { id, back } => if back {
                1int
            } else {
                0
            },
            Bundle::Own { link, back } => if back {
                1
            } else {
                0
            },
            Bundle::Into { device } => 2,
            Bundle::Out { device } => 3,
            Bundle::Open => 4,
        };
    ||| part(a) < part(b)
    ||| part(a) == part(b) && match (a, b) {
        (Bundle::Given { id: i, .. }, Bundle::Given { id: j, .. }) => i < j,
        (Bundle::Given { .. }, Bundle::Own { .. }) => true,
        (Bundle::Own { link: i, .. }, Bundle::Own { link: j, .. }) => i < j,
        (Bundle::Into { device: d }, Bundle::Into { device: e }) => exists|i: int, j: int|
            i < j && #[trigger] stands_last(devices, i, d) && #[trigger] stands_last(devices, j, e),
        (Bundle::Out { device: d }, Bundle::Out { device: e }) => exists|i: int, j: int|
            i < j && #[trigger] stands_last(devices, i, d) && #[trigger] stands_last(devices, j, e),
        _ => false,
    }
}

/// The groups are numbered in the order of their bundles.
pub proof fn groups_are_numbered_in_order(
    links: Seq<PrivateRow>,
    capacity: Seq<Real>,
    devices: Seq<DeviceRow>,
    flows: Seq<FlowRow>,
    publics: Seq<PublicRow>,
    bonus: Real,
    x: int,
    y: int,
) -> (r: (Reason, Reason))
    requires
        ids_fit(links, devices.len() as int),
        0 <= x < compacted(all_edges(links, capacity, devices, flows, publics, bonus)).len(),
        0 <= y < compacted(all_edges(links, capacity, devices, flows, publics, bonus)).len(),
    ensures
        ({
            let edges = compacted(all_edges(links, capacity, devices, flows, publics, bonus));
            let (a, b) = (bundle_of(r.0, links, devices), bundle_of(r.1, links, devices));
            &&& is_there_for(edges[x], r.0, links, devices, flows, publics, bonus)
            &&& is_there_for(edges[y], r.1, links, devices, flows, publics, bonus)
            &&& edges[x].shared > 0 && edges[y].shared > 0 && stands_before(links, devices, a, b)
                ==> edges[x].shared < edges[y].shared
        }),
{
    let all = all_edges(links, capacity, devices, flows, publics, bonus);
    let r = edge_bundle(links, capacity, devices, flows, publics, bonus, x);
    let q = edge_bundle(links, capacity, devices, flows, publics, bonus, y);
    let (a, b) = (bundle_of(r, links, devices), bundle_of(q, links, devices));
    edge_kept(all, x);
    edge_kept(all, y);
    given_within(links);
    assert(id_span(links) >= top_id(links));
    if compacted(all)[x].shared > 0 && compacted(all)[y].shared > 0 && stands_before(
        links,
        devices,
        a,
        b,
    ) {
        match a {
            Bundle::Own { link, back } => {
                link_id_within(links, link);
            },
            Bundle::Into { device } => {
                last_device_found(devices, device);
            },
            Bundle::Out { device } => {
                last_device_found(devices, device);
            },
            _ => {},
        }
        match b {
            Bundle::Own { link, back } => {
                link_id_within(links, link);
            },
            Bundle::Into { device } => {
                last_device_found(devices, device);
            },
            Bundle::Out { device } => {
                last_device_found(devices, device);
            },
            _ => {},
        }
        match (a, b) {
            (Bundle::Own { link: i, back: u }, Bundle::Own { link: j, back: v }) => {
                if u == v {
                    let p = |k: int| given_id(links[k]) == 0;
                    assert(p(i));
                    crate::lists::count_grows(i + 1, j, p, p);
                }
            },
            (Bundle::Into { device: d }, Bundle::Into { device: e }) => {
                let (i, j) = choose|i: int, j: int|
                    i < j && #[trigger] stands_last(devices, i, d) && #[trigger] stands_last(
                        devices,
                        j,
                        e,
                    );
                last_found(devices, i, d);
                last_found(devices, j, e);
            },
            (Bundle::Out { device: d }, Bundle::Out { device: e }) => {
                let (i, j) = choose|i: int, j: int|
                    i < j && #[trigger] stands_last(devices, i, d) && #[trigger] stands_last(
                        devices,
                        j,
                        e,
                    );
                last_found(devices, i, d);
                last_found(devices, j, e);
            },
            _ => {},
        }
        assert(all[x].shared < all[y].shared);
        renumbered_in_order(all, x, y);
    }
    (r, q)
}

/// Renumbering keeps the order of groups.
proof fn renumbered_in_order(all: Seq<EdgeRow>, x: int, y: int)
    requires
        0 <= x < all.len(),
        0 <= y < all.len(),
        0 < all[x].shared < all[y].shared,
        compacted(all)[x].shared > 0,
        compacted(all)[y].shared > 0,
    ensures
        compacted(all)[x].shared < compacted(all)[y].shared,
{
    let used = used_ids(all);
    let ids = sorted_ids(used);
    sorted_ids_exist(used);
    let f = |i: int|
        if all[i].shared > 0 {
            seq![all[i].shared]
        } else {
            Seq::empty()
        };
    let n = all.len() as int;
    assert(f(x) == seq![all[x].shared] && f(y) == seq![all[y].shared]);
    gather_holds(n, f, x, 0);
    gather_holds(n, f, y, 0);
    assert(used.contains(all[x].shared) && used.contains(all[y].shared));
    assert(ids.contains(all[x].shared) && ids.contains(all[y].shared));
    let (i, j) = (ids.index_of(all[x].shared), ids.index_of(all[y].shared));
    assert(ids[i] == all[x].shared && ids[j] == all[y].shared);
    if j <= i {
        if j < i {
            assert(crate::lists::below()(ids[j], ids[i]));
        }
    }
    crate::consolidation::links::used_listed(all);
    crate::consolidation::links::ordered_room(ids, i);
    crate::consolidation::links::ordered_room(ids, j);
}

/// Links become edges where each ends at devices that are listed. Of links that do not, the
/// first is at fault, and its first end that is not listed.
pub proof fn broken_links_are_named(
    links: Seq<PrivateRow>,
    devices: Seq<DeviceRow>,
    i: int,
)
    ensures
        ends_listed(links, devices) <==> forall|k: int|
            0 <= k < links.len() ==> is_named(devices, (#[trigger] links[k]).device1) && is_named(
                devices,
                links[k].device2,
            ),
        first_broken(links, devices, i) ==> 0 <= i < links.len() && (forall|k: int|
            0 <= k < i ==> is_named(devices, (#[trigger] links[k]).device1) && is_named(
                devices,
                links[k].device2,
            )) && !(is_named(devices, links[i].device1) && is_named(devices, links[i].device2))
            && missing_end(links[i], devices) == Some(
            if is_named(devices, links[i].device1) {
                links[i].device2
            } else {
                links[i].device1
            },
        ),
{
    assert forall|name: Seq<char>| #[trigger] is_listed(devices, name) == is_named(
        devices,
        name,
    ) by {
        listed_is_named(devices, name);
    }
    if ends_listed(links, devices) {
        assert forall|k: int| 0 <= k < links.len() implies is_named(
            devices,
            (#[trigger] links[k]).device1,
        ) && is_named(devices, links[k].device2) by {
            assert(missing_end(links[k], devices) is None);
            assert(is_listed(devices, links[k].device1) && is_listed(devices, links[k].device2));
        }
    }
    if forall|k: int|
        0 <= k < links.len() ==> is_named(devices, (#[trigger] links[k]).device1) && is_named(
            devices,
            links[k].device2,
        ) {
        assert forall|k: int| 0 <= k < links.len() implies missing_end(
            #[trigger] links[k],
            devices,
        ) is None by {
            assert(is_listed(devices, links[k].device1) && is_listed(devices, links[k].device2));
        }
    }
    if first_broken(links, devices, i) {
        assert(is_listed(devices, links[i].device1) == is_named(devices, links[i].device1));
        assert(is_listed(devices, links[i].device2) == is_named(devices, links[i].device2));
        assert forall|k: int| 0 <= k < i implies is_named(devices, (#[trigger] links[k]).device1)
            && is_named(devices, links[k].device2) by {
            assert(missing_end(links[k], devices) is None);
            assert(is_listed(devices, links[k].device1) && is_listed(devices, links[k].device2));
        }
    }
}

proof fn listed_is_named(devices: Seq<DeviceRow>, name: Seq<char>)
    ensures
        is_listed(devices, name) == is_named(devices, name),
{
    last_device_found(devices, name);
    if is_named(devices, name) {
        let k = choose|k: int| 0 <= k < devices.len() && (#[trigger] devices[k]).device == name;
        assert(devices[k].device == name);
    }
}

/// Bandwidth groups can be numbered just where the numbers that may be needed fit: two for
/// each number up to the greatest that is given, two for each link without one, two for each
/// device.
pub proof fn groups_fit_where_numbers_do(links: Seq<PrivateRow>, n: int, most: int)
    requires
        forall|i: int|
            0 <= i < links.len() ==> (match (#[trigger] links[i]).shared {
                Some(id) => id as int,
                None => 0,
            }) <= most,
        most == 0 || exists|i: int| 0 <= i < links.len() && (#[trigger] links[i]).shared == Some(
            most as u32,
        ),
        0 <= most <= u32::MAX,
    ensures
        ids_fit(links, n) <==> 2 * (most + count_where(
            links.len() as int,
            |i: int| links[i].shared is None || links[i].shared == Some(0u32),
        )) + 2 * n + 1 <= u32::MAX,
{
    given_within(links);
    top_within(links, most);
    if most > 0 {
        let i = choose|i: int| 0 <= i < links.len() && (#[trigger] links[i]).shared == Some(
            most as u32,
        );
        assert(given_id(links[i]) == most);
    }
    crate::lists::count_same(
        links.len() as int,
        |i: int| given_id(links[i]) == 0,
        |i: int| links[i].shared is None || links[i].shared == Some(0u32),
    );
}

proof fn top_within(links: Seq<PrivateRow>, most: int)
    requires
        0 <= most,
        forall|i: int|
            0 <= i < links.len() ==> (match (#[trigger] links[i]).shared {
                Some(id) => id as int,
                None => 0,
            }) <= most,
    ensures
        top_id(links) <= most,
    decreases links.len(),
{
    if links.len() > 0 {
        let front = links.drop_last();
        assert forall|i: int| 0 <= i < front.len() implies (match (#[trigger] front[i]).shared {
            Some(id) => id as int,
            None => 0,
        }) <= most by {
            assert(front[i] == links[i]);
        }
        top_within(front, most);
        assert(given_id(links[links.len() - 1]) <= most);
    }
}

} // verus!
