//! Which networks are accepted, and what is said of the others.
use crate::error::{report, Fault};
use crate::lists::{gather, gather_holds, gather_member};
use crate::quantity::Real;
use crate::shapley::{is_player, players_of};
use crate::text::{lex_less, numeral, sorted_list_exists};
use crate::types::{DemandRow, DeviceRow, PrivateRow, PublicRow};
use crate::validation::{
    at_odds, demand_ends, fault_of, first_clash, first_where, is_clash, link_ends, off_network,
    opens_kind, public_ends, unlisted, with_digit,
};
use vstd::prelude::*;

verus! {

/// A character of the name is a figure.
pub open spec fn has_figure(name: Seq<char>) -> bool {
    exists|i: int| 0 <= i < name.len() && 48 <= (#[trigger] name[i]) as int <= 57
}

/// A device has that name.
pub open spec fn is_named(devices: Seq<DeviceRow>, name: Seq<char>) -> bool {
    exists|i: int| 0 <= i < devices.len() && (#[trigger] devices[i]).device == name
}

/// A public link has that city at one end.
pub open spec fn is_reached(publics: Seq<PublicRow>, city: Seq<char>) -> bool {
    exists|p: int|
        0 <= p < publics.len() && ((#[trigger] publics[p]).city1 == city || publics[p].city2 == city)
}

/// Some operator of a device has the name of the public network.
pub open spec fn names_public(devices: Seq<DeviceRow>) -> bool {
    exists|i: int| 0 <= i < devices.len() && (#[trigger] devices[i]).operator == "Public"@
}

/// A city of a public link has a figure in its name.
pub open spec fn has_bad_road(publics: Seq<PublicRow>) -> bool {
    exists|p: int|
        0 <= p < publics.len() && (has_figure((#[trigger] publics[p]).city1) || has_figure(
            publics[p].city2,
        ))
}

/// A city of a public link or of a demand has a figure in its name.
pub open spec fn has_bad_city(publics: Seq<PublicRow>, demands: Seq<DemandRow>) -> bool {
    ||| has_bad_road(publics)
    ||| exists|d: int|
        0 <= d < demands.len() && (has_figure((#[trigger] demands[d]).start) || has_figure(
            demands[d].end,
        ))
}

/// Demand `d` differs from the first demand of its kind in where it starts, how much it
/// carries, or whether it is multicast.
pub open spec fn differs(demands: Seq<DemandRow>, d: int) -> bool {
    exists|f: int|
        0 <= f < d && (#[trigger] demands[f]).kind == demands[d].kind && (forall|k: int|
            0 <= k < f ==> (#[trigger] demands[k]).kind != demands[d].kind) && !(demands[f].start
            == demands[d].start && demands[f].traffic.equal_to(demands[d].traffic)
            && demands[f].multicast == demands[d].multicast)
}

/// Some demand differs from the first of its kind.
pub open spec fn has_odd_demand(demands: Seq<DemandRow>) -> bool {
    exists|d: int| 0 <= d < demands.len() && #[trigger] differs(demands, d)
}

/// Two devices have one name.
pub open spec fn has_twins(devices: Seq<DeviceRow>) -> bool {
    exists|i: int, j: int|
        0 <= i < j < devices.len() && (#[trigger] devices[i]).device == (
        #[trigger] devices[j]).device
}

/// An end of a link is no device.
pub open spec fn has_loose_link(links: Seq<PrivateRow>, devices: Seq<DeviceRow>) -> bool {
    exists|i: int|
        0 <= i < links.len() && (!is_named(devices, (#[trigger] links[i]).device1) || !is_named(
            devices,
            links[i].device2,
        ))
}

/// The public network does not reach an end of a demand.
pub open spec fn has_stray_demand(demands: Seq<DemandRow>, publics: Seq<PublicRow>) -> bool {
    exists|d: int|
        0 <= d < demands.len() && (!is_reached(publics, (#[trigger] demands[d]).start)
            || !is_reached(publics, demands[d].end))
}

/// The first name that is bad, in pairs one after the other.
pub open spec fn is_first_bad(
    n: int,
    pairs: spec_fn(int) -> (Seq<char>, Seq<char>),
    bad: spec_fn(Seq<char>) -> bool,
    name: Seq<char>,
) -> bool {
    exists|i: int|
        #![trigger pairs(i)]
        0 <= i < n && (bad(pairs(i).0) || bad(pairs(i).1)) && (forall|k: int|
            0 <= k < i ==> !bad((#[trigger] pairs(k)).0) && !bad(pairs(k).1)) && name == if bad(
            pairs(i).0,
        ) {
            pairs(i).0
        } else {
            pairs(i).1
        }
}

/// The cities of public links.
pub open spec fn road_pairs(publics: Seq<PublicRow>) -> spec_fn(int) -> (Seq<char>, Seq<char>) {
    |p: int| (publics[p].city1, publics[p].city2)
}

/// The cities of demands.
pub open spec fn demand_pairs(demands: Seq<DemandRow>) -> spec_fn(int) -> (Seq<char>, Seq<char>) {
    |d: int| (demands[d].start, demands[d].end)
}

/// The devices of links.
pub open spec fn link_pairs(links: Seq<PrivateRow>) -> spec_fn(int) -> (Seq<char>, Seq<char>) {
    |i: int| (links[i].device1, links[i].device2)
}

/// The first name of a list of pairs that is bad.
proof fn first_in_pairs(
    n: int,
    f: spec_fn(int) -> Seq<Seq<char>>,
    pairs: spec_fn(int) -> (Seq<char>, Seq<char>),
    bad: spec_fn(Seq<char>) -> bool,
    q: int,
)
    requires
        n >= 0,
        forall|i: int|
            0 <= i < n ==> (#[trigger] f(i)) == seq![pairs(i).0, pairs(i).1],
        0 <= q < gather(n, f).len(),
        bad(gather(n, f)[q]),
        forall|k: int| 0 <= k < q ==> !bad(#[trigger] gather(n, f)[k]),
    ensures
        is_first_bad(n, pairs, bad, gather(n, f)[q]),
{
    pairs_in_order(n, f);
    let list = gather(n, f);
    let i = q / 2;
    assert(f(i) == seq![pairs(i).0, pairs(i).1]);
    assert(list[2 * i] == f(i)[0] && list[2 * i + 1] == f(i)[1]);
    assert forall|k: int| 0 <= k < i implies !bad((#[trigger] pairs(k)).0) && !bad(
        pairs(k).1,
    ) by {
        assert(f(k) == seq![pairs(k).0, pairs(k).1]);
        assert(list[2 * k] == f(k)[0] && list[2 * k + 1] == f(k)[1]);
        assert(!bad(list[2 * k]) && !bad(list[2 * k + 1]));
    }
    if q == 2 * i + 1 {
        assert(!bad(list[2 * i]));
    }
}

/// The most operators there may be, twenty or, where they can be down, fifteen.
pub open spec fn most_operators(uptime: Real) -> int {
    if uptime.less_than(Real { bits: 0x3FF0_0000_0000_0000 }) {
        15
    } else {
        20
    }
}

/// The players are the operators of the devices but for those that are always there, each
/// once, in the order of their names.
pub proof fn players_are_operators(devices: Seq<DeviceRow>)
    ensures
        forall|a: int, b: int|
            0 <= a < b < players_of(devices).len() ==> lex_less(
                #[trigger] players_of(devices)[a],
                #[trigger] players_of(devices)[b],
            ),
        forall|name: Seq<char>| #[trigger]
            players_of(devices).contains(name) <==> name != "Private"@ && name != "Public"@
                && exists|i: int|
                0 <= i < devices.len() && (#[trigger] devices[i]).operator == name,
{
    let f = |i: int|
        if is_player(devices[i].operator) {
            seq![devices[i].operator]
        } else {
            Seq::empty()
        };
    let n = devices.len() as int;
    let names = gather(n, f);
    sorted_list_exists(names);
    assert forall|name: Seq<char>| #[trigger] players_of(devices).contains(name) <==> name
        != "Private"@ && name != "Public"@ && exists|i: int|
        0 <= i < devices.len() && (#[trigger] devices[i]).operator == name by {
        if players_of(devices).contains(name) {
            assert(names.contains(name));
            let k = choose|k: int| 0 <= k < names.len() && names[k] == name;
            let (i, z) = gather_member(n, f, k);
            assert(f(i)[z] == name);
            assert(devices[i].operator == name);
        }
        if name != "Private"@ && name != "Public"@ && exists|i: int|
            0 <= i < devices.len() && (#[trigger] devices[i]).operator == name {
            let i = choose|i: int|
                0 <= i < devices.len() && (#[trigger] devices[i]).operator == name;
            assert(f(i) == seq![name]);
            gather_holds(n, f, i, 0);
            assert(names.contains(name));
        }
    }
}

/// The first name that meets a condition: it does, and none before it.
proof fn first_is_first(names: Seq<Seq<char>>, p: spec_fn(Seq<char>) -> bool) -> (i: int)
    ensures
        first_where(names, p) is None <==> forall|k: int|
            0 <= k < names.len() ==> !p(#[trigger] names[k]),
        first_where(names, p) matches Some(name) ==> 0 <= i < names.len() && names[i] == name && p(
            name,
        ) && forall|k: int| 0 <= k < i ==> !p(#[trigger] names[k]),
    decreases names.len(),
{
    if names.len() == 0 {
        0
    } else if p(names[0]) {
        0
    } else {
        let rest = names.drop_first();
        let i = first_is_first(rest, p);
        assert forall|k: int| 0 < k < names.len() implies #[trigger] names[k] == rest[k - 1] by {}
        if first_where(names, p) is None {
            assert forall|k: int| 0 <= k < names.len() implies !p(#[trigger] names[k]) by {
                if k > 0 {
                    assert(!p(rest[k - 1]));
                }
            }
        } else {
            assert(names[i + 1] == rest[i]);
            assert forall|k: int| 0 <= k < i + 1 implies !p(#[trigger] names[k]) by {
                if k > 0 {
                    assert(!p(rest[k - 1]));
                }
            }
        }
        if forall|k: int| 0 <= k < names.len() ==> !p(#[trigger] names[k]) {
            assert forall|k: int| 0 <= k < rest.len() implies !p(#[trigger] rest[k]) by {
                assert(!p(names[k + 1]));
            }
        }
        i + 1
    }
}

/// Pairs one after the other.
proof fn pairs_in_order(n: int, f: spec_fn(int) -> Seq<Seq<char>>)
    requires
        n >= 0,
        forall|i: int| 0 <= i < n ==> (#[trigger] f(i)).len() == 2,
    ensures
        gather(n, f).len() == 2 * n,
        forall|i: int|
            0 <= i < n ==> gather(n, f)[2 * i] == #[trigger] f(i)[0] && gather(n, f)[2 * i + 1]
                == f(i)[1],
    decreases n,
{
    if n > 0 {
        pairs_in_order(n - 1, f);
        assert(f(n - 1).len() == 2);
        assert forall|i: int| 0 <= i < n implies gather(n, f)[2 * i] == #[trigger] f(i)[0]
            && gather(n, f)[2 * i + 1] == f(i)[1] by {
            if i < n - 1 {
                assert(gather(n - 1, f)[2 * i] == f(i)[0]);
            }
        }
    }
}

/// Some name of a list of pairs meets the condition.
proof fn some_pair(n: int, f: spec_fn(int) -> Seq<Seq<char>>, p: spec_fn(Seq<char>) -> bool)
    requires
        n >= 0,
        forall|i: int| 0 <= i < n ==> (#[trigger] f(i)).len() == 2,
    ensures
        (exists|k: int| 0 <= k < gather(n, f).len() && p(#[trigger] gather(n, f)[k])) <==> (exists|
            i: int,
        |
            0 <= i < n && (p((#[trigger] f(i))[0]) || p(f(i)[1]))),
{
    pairs_in_order(n, f);
    let list = gather(n, f);
    if exists|k: int| 0 <= k < list.len() && p(#[trigger] list[k]) {
        let k = choose|k: int| 0 <= k < list.len() && p(#[trigger] list[k]);
        let i = k / 2;
        assert(list[2 * i] == f(i)[0] && list[2 * i + 1] == f(i)[1]);
        assert(k == 2 * i || k == 2 * i + 1);
        assert(p(f(i)[0]) || p(f(i)[1]));
    }
    if exists|i: int| 0 <= i < n && (p((#[trigger] f(i))[0]) || p(f(i)[1])) {
        let i = choose|i: int| 0 <= i < n && (p((#[trigger] f(i))[0]) || p(f(i)[1]));
        assert(list[2 * i] == f(i)[0] && list[2 * i + 1] == f(i)[1]);
        if p(f(i)[0]) {
            assert(p(list[2 * i]));
        } else {
            assert(p(list[2 * i + 1]));
        }
    }
}

proof fn figures_are_digits(name: Seq<char>)
    ensures
        crate::text::holds_digit(name) == has_figure(name),
{
    if crate::text::holds_digit(name) {
        let i = choose|i: int| 0 <= i < name.len() && '0' <= #[trigger] name[i] <= '9';
        assert(48 <= name[i] as int <= 57);
    }
    if has_figure(name) {
        let i = choose|i: int| 0 <= i < name.len() && 48 <= (#[trigger] name[i]) as int <= 57;
        assert('0' <= name[i] <= '9');
    }
}

proof fn clashes_are_differences(demands: Seq<DemandRow>, d: int)
    requires
        0 <= d < demands.len(),
    ensures
        is_clash(demands, d) == differs(demands, d),
{
    if is_clash(demands, d) {
        let f = choose|f: int|
            0 <= f < d && #[trigger] opens_kind(demands, f, d) && at_odds(demands, f, d);
        assert(demands[f].kind == demands[d].kind);
    }
    if differs(demands, d) {
        let f = choose|f: int|
            0 <= f < d && (#[trigger] demands[f]).kind == demands[d].kind && (forall|k: int|
                0 <= k < f ==> (#[trigger] demands[k]).kind != demands[d].kind) && !(
            demands[f].start == demands[d].start && demands[f].traffic.equal_to(demands[d].traffic)
                && demands[f].multicast == demands[d].multicast);
        assert(opens_kind(demands, f, d));
    }
}

/// The first demand that differs.
proof fn first_difference(demands: Seq<DemandRow>, from: int)
    requires
        0 <= from <= demands.len(),
    ensures
        first_clash(demands, from) is None <==> forall|d: int|
            from <= d < demands.len() ==> !#[trigger] differs(demands, d),
        first_clash(demands, from) matches Some(d) ==> from <= d < demands.len() && differs(
            demands,
            d,
        ) && forall|k: int| from <= k < d ==> !#[trigger] differs(demands, k),
    decreases demands.len() - from,
{
    if from < demands.len() {
        clashes_are_differences(demands, from);
        if !is_clash(demands, from) {
            first_difference(demands, from + 1);
            assert forall|d: int| from <= d < demands.len() && first_clash(demands, from)
                is None implies !#[trigger] differs(demands, d) by {}
        }
    }
}

/// What is wrong with a network, in plain conditions: the first that holds, in this order,
/// is what is said; and where none does, the network is accepted.
pub proof fn faults_in_plain_terms(
    links: Seq<PrivateRow>,
    devices: Seq<DeviceRow>,
    demands: Seq<DemandRow>,
    publics: Seq<PublicRow>,
    uptime: Real,
)
    ensures
        ({
            let fault = fault_of(links, devices, demands, publics, uptime);
            let n = players_of(devices).len() as int;
            if names_public(devices) {
                fault == Some(
                    Fault::Validation(
                        "Public is a protected keyword for operator names; choose another."@,
                    ),
                )
            } else if n > most_operators(uptime) {
                fault == Some(Fault::TooManyOperators { count: n, limit: most_operators(uptime) })
            } else if links.len() == 0 {
                fault == Some(
                    Fault::Validation(
                        "There must be at least one private link for this simulation."@,
                    ),
                )
            } else if has_bad_city(publics, demands) {
                let figure = |name: Seq<char>| has_figure(name);
                exists|name: Seq<char>|
                    fault == Some(
                        Fault::InvalidCityLabel(
                            #[trigger] ("City "@ + name) + " should not contain a digit"@,
                        ),
                    ) && if has_bad_road(publics) {
                        is_first_bad(publics.len() as int, road_pairs(publics), figure, name)
                    } else {
                        is_first_bad(demands.len() as int, demand_pairs(demands), figure, name)
                    }
            } else if has_odd_demand(demands) {
                exists|d: int|
                    0 <= d < demands.len() && #[trigger] differs(demands, d) && (forall|k: int|
                        0 <= k < d ==> !#[trigger] differs(demands, k)) && fault == Some(
                        Fault::DataInconsistency(
                            "Demand type "@ + numeral(demands[d].kind as nat)
                                + " has inconsistent properties"@,
                        ),
                    )
            } else if has_twins(devices) {
                fault == Some(Fault::DataInconsistency("There are duplicated devices in the list."@))
            } else if has_loose_link(links, devices) {
                fault matches Some(Fault::MissingDevice(name)) && is_first_bad(
                    links.len() as int,
                    link_pairs(links),
                    |name: Seq<char>| !is_named(devices, name),
                    name,
                )
            } else if has_stray_demand(demands, publics) {
                fault matches Some(Fault::UnreachableDemandNode(name)) && is_first_bad(
                    demands.len() as int,
                    demand_pairs(demands),
                    |name: Seq<char>| !is_reached(publics, name),
                    name,
                )
            } else {
                fault is None
            }
        }),
{
    let roads = public_ends(publics);
    let cities = demand_ends(demands);
    let ends = link_ends(links);
    let f = |i: int| seq![publics[i].city1, publics[i].city2];
    let g = |i: int| seq![demands[i].start, demands[i].end];
    let h = |i: int| seq![links[i].device1, links[i].device2];
    let (np, nd, nl) = (publics.len() as int, demands.len() as int, links.len() as int);
    let digit = with_digit();
    let loose = unlisted(devices);
    let stray = off_network(publics);
    assert forall|name: Seq<char>| #[trigger] digit(name) == has_figure(name) by {
        figures_are_digits(name);
    }
    assert forall|name: Seq<char>| #[trigger] loose(name) == !is_named(devices, name) by {}
    assert forall|name: Seq<char>| #[trigger] stray(name) == !is_reached(publics, name) by {}
    some_pair(np, f, digit);
    some_pair(nd, g, digit);
    some_pair(nd, g, stray);
    some_pair(nl, h, loose);
    pairs_in_order(nd, g);
    pairs_in_order(nl, h);
    let all = roads + cities;
    let i1 = first_is_first(all, digit);
    let i2 = first_is_first(ends, loose);
    let i3 = first_is_first(cities, stray);
    first_difference(demands, 0);
    assert(has_bad_city(publics, demands) <==> exists|k: int|
        0 <= k < all.len() && digit(#[trigger] all[k])) by {
        bad_city_listed(publics, demands);
    }
    assert(has_loose_link(links, devices) <==> exists|k: int|
        0 <= k < ends.len() && loose(#[trigger] ends[k])) by {
        if has_loose_link(links, devices) {
            let i = choose|i: int|
                0 <= i < links.len() && (!is_named(devices, (#[trigger] links[i]).device1)
                    || !is_named(devices, links[i].device2));
            assert(loose(h(i)[0]) || loose(h(i)[1]));
        }
        if exists|i: int| 0 <= i < nl && (loose((#[trigger] h(i))[0]) || loose(h(i)[1])) {
            let i = choose|i: int| 0 <= i < nl && (loose((#[trigger] h(i))[0]) || loose(h(i)[1]));
            assert(!is_named(devices, links[i].device1) || !is_named(devices, links[i].device2));
        }
    }
    assert(has_stray_demand(demands, publics) <==> exists|k: int|
        0 <= k < cities.len() && stray(#[trigger] cities[k])) by {
        if has_stray_demand(demands, publics) {
            let d = choose|d: int|
                0 <= d < demands.len() && (!is_reached(publics, (#[trigger] demands[d]).start)
                    || !is_reached(publics, demands[d].end));
            assert(stray(g(d)[0]) || stray(g(d)[1]));
        }
        if exists|i: int| 0 <= i < nd && (stray((#[trigger] g(i))[0]) || stray(g(i)[1])) {
            let i = choose|i: int| 0 <= i < nd && (stray((#[trigger] g(i))[0]) || stray(g(i)[1]));
            assert(!is_reached(publics, demands[i].start) || !is_reached(publics, demands[i].end));
        }
    }
    if first_where(all, digit) is Some {
        let name = first_where(all, digit)->0;
        let msg = ("City "@ + name) + " should not contain a digit"@;
        let figure = |name: Seq<char>| has_figure(name);
        assert(digit(name) == has_figure(name));
        assert forall|k: int| 0 <= k < i1 implies !figure(#[trigger] all[k]) by {
            assert(!digit(all[k]));
        }
        if i1 < roads.len() {
            assert forall|k: int| 0 <= k < i1 implies !figure(#[trigger] roads[k]) by {
                assert(all[k] == roads[k]);
            }
            first_in_pairs(np, f, road_pairs(publics), figure, i1);
            assert(roads[i1] == name);
            assert(digit(roads[i1]));
            let p = choose|i: int| 0 <= i < np && (digit((#[trigger] f(i))[0]) || digit(f(i)[1]));
            assert(has_figure(publics[p].city1) || has_figure(publics[p].city2));
            assert(has_bad_road(publics));
        } else {
            let q = i1 - roads.len();
            assert forall|k: int| 0 <= k < q implies !figure(#[trigger] cities[k]) by {
                assert(all[roads.len() + k] == cities[k]);
            }
            assert(cities[q] == name);
            first_in_pairs(nd, g, demand_pairs(demands), figure, q);
            if has_bad_road(publics) {
                let p = choose|p: int|
                    0 <= p < publics.len() && (has_figure((#[trigger] publics[p]).city1)
                        || has_figure(publics[p].city2));
                assert(digit(f(p)[0]) || digit(f(p)[1]));
                let k = choose|k: int| 0 <= k < roads.len() && digit(#[trigger] roads[k]);
                assert(all[k] == roads[k]);
                assert(!digit(all[k]));
            }
        }
    }
    if first_clash(demands, 0) is Some {
        let d = first_clash(demands, 0)->0;
        assert(differs(demands, d));
    }
    if first_where(ends, loose) is Some {
        let bad = |name: Seq<char>| !is_named(devices, name);
        assert forall|k: int| 0 <= k < i2 implies !bad(#[trigger] ends[k]) by {
            assert(!loose(ends[k]));
        }
        assert(loose(ends[i2]));
        first_in_pairs(nl, h, link_pairs(links), bad, i2);
    }
    if first_where(cities, stray) is Some {
        let bad = |name: Seq<char>| !is_reached(publics, name);
        assert forall|k: int| 0 <= k < i3 implies !bad(#[trigger] cities[k]) by {
            assert(!stray(cities[k]));
        }
        assert(stray(cities[i3]));
        first_in_pairs(nd, g, demand_pairs(demands), bad, i3);
    }
}

proof fn bad_city_listed(publics: Seq<PublicRow>, demands: Seq<DemandRow>)
    ensures
        has_bad_city(publics, demands) <==> exists|k: int|
            0 <= k < (public_ends(publics) + demand_ends(demands)).len() && with_digit()(
                #[trigger] (public_ends(publics) + demand_ends(demands))[k],
            ),
{
    let roads = public_ends(publics);
    let cities = demand_ends(demands);
    let all = roads + cities;
    let f = |i: int| seq![publics[i].city1, publics[i].city2];
    let g = |i: int| seq![demands[i].start, demands[i].end];
    let (np, nd) = (publics.len() as int, demands.len() as int);
    let digit = with_digit();
    assert forall|name: Seq<char>| #[trigger] digit(name) == has_figure(name) by {
        figures_are_digits(name);
    }
    some_pair(np, f, digit);
    some_pair(nd, g, digit);
    if exists|p: int|
        0 <= p < publics.len() && (has_figure((#[trigger] publics[p]).city1) || has_figure(
            publics[p].city2,
        )) {
        let p = choose|p: int|
            0 <= p < publics.len() && (has_figure((#[trigger] publics[p]).city1) || has_figure(
                publics[p].city2,
            ));
        assert(digit(f(p)[0]) || digit(f(p)[1]));
        let k = choose|k: int| 0 <= k < roads.len() && digit(#[trigger] roads[k]);
        assert(all[k] == roads[k]);
    }
    if exists|d: int|
        0 <= d < demands.len() && (has_figure((#[trigger] demands[d]).start) || has_figure(
            demands[d].end,
        )) {
        let d = choose|d: int|
            0 <= d < demands.len() && (has_figure((#[trigger] demands[d]).start) || has_figure(
                demands[d].end,
            ));
        assert(digit(g(d)[0]) || digit(g(d)[1]));
        let k = choose|k: int| 0 <= k < cities.len() && digit(#[trigger] cities[k]);
        assert(all[roads.len() + k] == cities[k]);
    }
    if exists|k: int| 0 <= k < all.len() && digit(#[trigger] all[k]) {
        let k = choose|k: int| 0 <= k < all.len() && digit(#[trigger] all[k]);
        if k < roads.len() {
            assert(digit(roads[k]));
            let p = choose|i: int| 0 <= i < np && (digit((#[trigger] f(i))[0]) || digit(f(i)[1]));
            assert(has_figure(publics[p].city1) || has_figure(publics[p].city2));
        } else {
            assert(digit(cities[k - roads.len()]));
            let d = choose|i: int| 0 <= i < nd && (digit((#[trigger] g(i))[0]) || digit(g(i)[1]));
            assert(has_figure(demands[d].start) || has_figure(demands[d].end));
        }
    }
}

/// What is wrong with a network that is handed over whole is what is wrong with its tables at
/// the uptime of its operators; and coalitions of twenty players and no more are enumerated.
pub proof fn networks_are_judged_by_their_tables(input: crate::types::ShapleyInput)
    ensures
        input.fault() == fault_of(
            crate::text::views(input.private_links@),
            crate::text::views(input.devices@),
            crate::text::views(input.demands@),
            crate::text::views(input.public_links@),
            input.operator_uptime,
        ),
        crate::constants::MAX_OPERATORS == 20,
{
}

/// A report says which kind of fault it is of, and ends in the words of the fault.
pub proof fn reports_end_in_their_words(words: Seq<char>, count: int, limit: int)
    ensures
        report(Fault::Validation(words)) == "Validation error: "@ + words,
        report(Fault::LpSolver(words)) == "LP solver error: "@ + words,
        report(Fault::DataInconsistency(words)) == "Data inconsistency: "@ + words,
        report(Fault::InvalidCityLabel(words)) == "Invalid city label: "@ + words,
        report(Fault::MissingDevice(words)) == "Missing device: "@ + words,
        report(Fault::UnreachableDemandNode(words)) == "Unreachable demand node: "@ + words,
        report(Fault::NumericalError(words)) == "Numerical computation error: "@ + words,
        report(Fault::MatrixConstructionError(words)) == "Matrix construction error: "@ + words,
        report(Fault::TooManyOperators { count, limit }) == "Too many operators: "@ + numeral(
            count as nat,
        ) + " (limit is "@ + numeral(limit as nat) + ")"@,
        report(Fault::Cancelled) == "computation cancelled"@,
{
}

} // verus!
