//! How the tables of two networks decide which edges they have in common.
use crate::consolidation::links::{
    all_edges, compacted, crossings, dense_id, ends_listed, entry_edge, entry_id, exit_edge,
    exit_id, forward_edge, forward_edges, given_id, given_within, groups_are_kept, id_span, ids_fit,
    is_listed, is_public_city, kinds_of, last_device, last_device_found, link_id, link_id_within,
    missing_end, naught, off_ramps, on_ramps, operator_of, private_ramps, public_edge, public_pair,
    public_pairs, public_ramps, regrouped, reverse_edges, serves, shared_cities, shared_city,
    source_of, stops_of, switch_of, top_id, turned, ungrouped, used_ids,
};
use crate::constants::{city_code, OP_PUBLIC};
use crate::lists::{
    count_grows, count_where, gather, gather_chosen, gather_holds, gather_member, gather_same,
    nth_place, sorted_ids,
};
use crate::quantity::{whole, Real};
use crate::lp_builder::opens_group;
use crate::reuse::{first_with, has_bit, opener_once};
use crate::routing::all_limits;
use crate::soundness::{
    alike, first_limits_alike, is_touched, leads_alike, leads_untouched, same_but_group, untouched,
};
use crate::text::{sorted_list, sorted_list_exists, sorted_list_once, sorted_names};
use crate::types::{DeviceRow, EdgeRow, FlowRow, PrivateRow, PublicRow};
use crate::validation::has_duplicates;
use crate::warm::{groups_by_place, hosted_alike, leads_given, one_link_or_given};
use vstd::prelude::*;

verus! {

/// The private tables of a network: its links, what each can carry, and its devices.
pub struct Tables {
    pub links: Seq<PrivateRow>,
    pub capacity: Seq<Real>,
    pub devices: Seq<DeviceRow>,
}

/// The players of a network, and those of them that are named as changed.
pub struct Roll {
    pub players: Seq<Seq<char>>,
    pub changed: Seq<Seq<char>>,
}

impl Roll {
    /// The operator is a player that is named as changed.
    pub open spec fn names(self, operator: Seq<char>) -> bool {
        self.changed.contains(operator) && has_bit(operator, self.players)
    }

    /// The edges of operators that did not change.
    pub open spec fn sifted(self, edges: Seq<EdgeRow>) -> Seq<EdgeRow> {
        untouched(edges, self.changed, self.players)
    }
}

impl Tables {
    /// Every link can carry something, both ends of every link are listed, no two devices
    /// have one name, and the groups can be numbered.
    pub open spec fn wf(self) -> bool {
        &&& self.capacity.len() == self.links.len()
        &&& ends_listed(self.links, self.devices)
        &&& !has_duplicates(self.devices)
        &&& ids_fit(self.links, self.devices.len() as int)
    }

    /// Neither end of a link belongs to an operator that changed.
    pub open spec fn is_spared(self, roll: Roll, i: int) -> bool {
        &&& !roll.names(operator_of(self.devices, self.links[i].device1))
        &&& !roll.names(operator_of(self.devices, self.links[i].device2))
    }

    /// The links between devices of operators that did not change, in order, each with
    /// what it can carry.
    pub open spec fn spared_links(self, roll: Roll) -> Seq<(PrivateRow, Real)> {
        gather(
            self.links.len() as int,
            |i: int|
                if self.is_spared(roll, i) {
                    seq![(self.links[i], self.capacity[i])]
                } else {
                    Seq::empty()
                },
        )
    }

    /// The devices of operators that did not change, in order.
    pub open spec fn spared_devices(self, roll: Roll) -> Seq<DeviceRow> {
        gather(
            self.devices.len() as int,
            |i: int|
                if !roll.names(self.devices[i].operator) {
                    seq![self.devices[i]]
                } else {
                    Seq::empty()
                },
        )
    }

    /// The consolidated edges.
    pub open spec fn edges(self, flows: Seq<FlowRow>, publics: Seq<PublicRow>, bonus: Real) -> Seq<
        EdgeRow,
    > {
        compacted(all_edges(self.links, self.capacity, self.devices, flows, publics, bonus))
    }

    /// The position of the link that stands at `place` among the links spared.
    spec fn spared_at(self, roll: Roll, place: int) -> int {
        choose|i: int|
            #![trigger self.is_spared(roll, i)]
            0 <= i < self.links.len() && self.is_spared(roll, i) && count_where(
                i,
                |k: int| self.is_spared(roll, k),
            ) == place
    }
}

/// Two networks have the links and devices of operators that did not change in common,
/// in the same order.
pub open spec fn tables_agree(a: Tables, b: Tables, roll: Roll) -> bool {
    &&& a.spared_links(roll) == b.spared_links(roll)
    &&& a.spared_devices(roll) == b.spared_devices(roll)
}

/// A group that links were given is led by a link of operators that did not change.
pub open spec fn led_by_spared(t: Tables, roll: Roll, id: int) -> bool {
    exists|i: int| #[trigger]
        leads_given(t.links, i) && given_id(t.links[i]) == id && t.is_spared(roll, i)
}

/// Of the groups that links of operators that did not change were given, the same are led
/// by such a link in both networks.
pub open spec fn leads_agree(a: Tables, b: Tables, roll: Roll) -> bool {
    forall|j: int|
        0 <= j < a.spared_links(roll).len() && given_id((#[trigger] a.spared_links(roll)[j]).0) != 0
            ==> led_by_spared(a, roll, given_id(a.spared_links(roll)[j].0)) == led_by_spared(
            b,
            roll,
            given_id(a.spared_links(roll)[j].0),
        )
}

/// What the first link that was given a group can carry.
pub open spec fn lead_capacity(t: Tables, id: int) -> Real {
    t.capacity[choose|i: int| #[trigger] leads_given(t.links, i) && given_id(t.links[i]) == id]
}

/// Of the groups that links of operators that did not change were given, the first links
/// can carry the same in both networks.
pub open spec fn limits_agree(a: Tables, b: Tables, roll: Roll) -> bool {
    forall|j: int|
        0 <= j < a.spared_links(roll).len() && given_id((#[trigger] a.spared_links(roll)[j]).0) != 0
            ==> lead_capacity(a, given_id(a.spared_links(roll)[j].0)) == lead_capacity(
            b,
            given_id(a.spared_links(roll)[j].0),
        )
}

/// A group has one first link.
proof fn lead_once(t: Tables, i: int)
    requires
        leads_given(t.links, i),
    ensures
        lead_capacity(t, given_id(t.links[i])) == t.capacity[i],
        forall|k: int| #[trigger]
            leads_given(t.links, k) && given_id(t.links[k]) == given_id(t.links[i]) ==> k == i,
{
    assert forall|k: int| #[trigger] leads_given(t.links, k) && given_id(t.links[k]) == given_id(
        t.links[i],
    ) implies k == i by {
        if k < i {
            assert(given_id(t.links[k]) != given_id(t.links[i]));
        } else if i < k {
            assert(given_id(t.links[i]) != given_id(t.links[k]));
        }
    }
}

/// No group was given to links of operators that changed and to others.
pub open spec fn groups_apart(t: Tables, roll: Roll) -> bool {
    forall|i: int, j: int|
        0 <= i < t.links.len() && 0 <= j < t.links.len() && given_id(#[trigger] t.links[i]) != 0
            && given_id(t.links[i]) == given_id(#[trigger] t.links[j]) ==> t.is_spared(roll, i)
            == t.is_spared(roll, j)
}

/// What the bandwidth group of an edge goes by, whatever number it has: none, a group that
/// links were given, a link of its own, or what enters or leaves at a device.
enum Label {
    Free,
    Given { id: int, back: bool },
    Own { place: int, back: bool },
    Entry { device: Seq<char> },
    Exit { device: Seq<char> },
}

/// The number of a group.
spec fn number_of(t: Tables, roll: Roll, label: Label) -> int {
    let span = id_span(t.links);
    match label {
        Label::Free => 0,
        Label::Given { id, back } => if back {
            id + span
        } else {
            id
        },
        Label::Own { place, back } => {
            let id = top_id(t.links) + 1 + ungrouped(t.links, t.spared_at(roll, place));
            if back {
                id + span
            } else {
                id
            }
        },
        Label::Entry { device } => entry_id(t.devices, span, device),
        Label::Exit { device } => exit_id(t.devices, span, device),
    }
}

/// The edge with the number of its group.
spec fn written(t: Tables, roll: Roll, x: (EdgeRow, Label)) -> EdgeRow {
    EdgeRow { shared: number_of(t, roll, x.1) as u32, ..x.0 }
}

/// The edges with the numbers of their groups.
spec fn all_written(t: Tables, roll: Roll, list: Seq<(EdgeRow, Label)>) -> Seq<EdgeRow> {
    Seq::new(list.len(), |k: int| written(t, roll, list[k]))
}

/// Keeping what is untouched goes through lists put end to end.
proof fn sifted_sum(roll: Roll, a: Seq<EdgeRow>, b: Seq<EdgeRow>)
    ensures
        roll.sifted(a + b) == roll.sifted(a) + roll.sifted(b),
    decreases b.len(),
{
    if b.len() == 0 {
        assert(a + b =~= a);
        assert(roll.sifted(b) =~= Seq::empty());
        assert(roll.sifted(a) + roll.sifted(b) =~= roll.sifted(a));
    } else {
        let front = b.drop_last();
        sifted_sum(roll, a, front);
        let all = a + b;
        let most = a + front;
        let f = |i: int|
            if is_touched(all[i], roll.changed, roll.players) {
                Seq::empty()
            } else {
                seq![all[i]]
            };
        let g = |i: int|
            if is_touched(most[i], roll.changed, roll.players) {
                Seq::empty()
            } else {
                seq![most[i]]
            };
        gather_same(most.len() as int, f, g);
        let x = |i: int|
            if is_touched(b[i], roll.changed, roll.players) {
                Seq::empty()
            } else {
                seq![b[i]]
            };
        let y = |i: int|
            if is_touched(front[i], roll.changed, roll.players) {
                Seq::empty()
            } else {
                seq![front[i]]
            };
        gather_same(front.len() as int, x, y);
        assert(all[all.len() - 1] == b[b.len() - 1]);
        assert(f(all.len() - 1) =~= x(b.len() - 1));
        assert(roll.sifted(all) == gather(most.len() as int, f) + f(all.len() - 1));
        assert(roll.sifted(b) == gather(front.len() as int, x) + x(b.len() - 1));
        assert(roll.sifted(all) =~= roll.sifted(a) + roll.sifted(b));
    }
}

/// Keeping what is untouched goes through pieces.
proof fn sifted_pieces(roll: Roll, n: int, f: spec_fn(int) -> Seq<EdgeRow>)
    ensures
        roll.sifted(gather(n, f)) == gather(n, |i: int| roll.sifted(f(i))),
    decreases n,
{
    if n > 0 {
        sifted_pieces(roll, n - 1, f);
        sifted_sum(roll, gather(n - 1, f), f(n - 1));
    } else {
        assert(roll.sifted(gather(n, f)) =~= Seq::empty());
    }
}

/// Writing goes through lists put end to end.
proof fn written_sum(t: Tables, roll: Roll, a: Seq<(EdgeRow, Label)>, b: Seq<(EdgeRow, Label)>)
    ensures
        all_written(t, roll, a + b) == all_written(t, roll, a) + all_written(t, roll, b),
{
    assert(all_written(t, roll, a + b) =~= all_written(t, roll, a) + all_written(t, roll, b));
}

/// Writing goes through pieces.
proof fn written_pieces(t: Tables, roll: Roll, n: int, f: spec_fn(int) -> Seq<(EdgeRow, Label)>)
    ensures
        all_written(t, roll, gather(n, f)) == gather(n, |i: int| all_written(t, roll, f(i))),
    decreases n,
{
    if n > 0 {
        written_pieces(t, roll, n - 1, f);
        written_sum(t, roll, gather(n - 1, f), f(n - 1));
    } else {
        assert(all_written(t, roll, gather(n, f)) =~= Seq::empty());
    }
}

/// Keeping what is untouched of a list of links: those that are spared.
proof fn sifted_choice(roll: Roll, n: int, p: spec_fn(int) -> bool, e: spec_fn(int) -> EdgeRow)
    requires
        n >= 0,
        forall|i: int|
            0 <= i < n ==> (#[trigger] p(i) <==> !is_touched(e(i), roll.changed, roll.players)),
    ensures
        roll.sifted(Seq::new(n as nat, e)) == gather(
            n,
            |i: int|
                if p(i) {
                    seq![e(i)]
                } else {
                    Seq::empty()
                },
        ),
{
    let s = Seq::new(n as nat, e);
    let f = |i: int|
        if is_touched(s[i], roll.changed, roll.players) {
            Seq::empty()
        } else {
            seq![s[i]]
        };
    let g = |i: int|
        if p(i) {
            seq![e(i)]
        } else {
            Seq::empty()
        };
    assert forall|i: int| 0 <= i < n implies #[trigger] f(i) == g(i) by {
        assert(p(i) <==> !is_touched(e(i), roll.changed, roll.players));
    }
    gather_same(n, f, g);
}

/// What the group of a link goes by.
spec fn link_label(link: PrivateRow, place: int, back: bool) -> Label {
    if given_id(link) != 0 {
        Label::Given { id: given_id(link), back }
    } else {
        Label::Own { place, back }
    }
}

/// One direction of a link that is spared.
spec fn lane_of(x: (PrivateRow, Real), devices: Seq<DeviceRow>, place: int, back: bool) -> (
    EdgeRow,
    Label,
) {
    let (from, to) = if back {
        (x.0.device2, x.0.device1)
    } else {
        (x.0.device1, x.0.device2)
    };
    (
        EdgeRow {
            device1: from,
            device2: to,
            latency: x.0.latency,
            bandwidth: x.1,
            operator1: operator_of(devices, from),
            operator2: operator_of(devices, to),
            shared: 0,
            link_type: 0,
        },
        link_label(x.0, place, back),
    )
}

/// One direction of the links that are spared.
spec fn lanes(rest: Seq<(PrivateRow, Real)>, devices: Seq<DeviceRow>, back: bool) -> Seq<
    (EdgeRow, Label),
> {
    Seq::new(rest.len(), |j: int| lane_of(rest[j], devices, j, back))
}

/// A device of an operator that did not change is among those spared, with its operator.
proof fn spared_operator(t: Tables, roll: Roll, name: Seq<char>)
    requires
        !has_duplicates(t.devices),
        is_listed(t.devices, name),
        !roll.names(operator_of(t.devices, name)),
    ensures
        operator_of(t.spared_devices(roll), name) == operator_of(t.devices, name),
{
    let devices = t.devices;
    let rest = t.spared_devices(roll);
    let f = |i: int|
        if !roll.names(devices[i].operator) {
            seq![devices[i]]
        } else {
            Seq::empty()
        };
    let n = devices.len() as int;
    last_device_found(devices, name);
    last_device_found(rest, name);
    let i = last_device(devices, name);
    assert(f(i) == seq![devices[i]]);
    gather_holds(n, f, i, 0);
    let at = gather(i, f).len() as int;
    assert(rest[at] == devices[i]);
    assert(is_listed(rest, name));
    let k = last_device(rest, name);
    let (m, z) = gather_member(n, f, k);
    assert(rest[k] == devices[m]);
    if m < i {
        assert(devices[m].device == devices[i].device);
    } else if i < m {
        assert(devices[i].device == devices[m].device);
    }
}

/// The link that stands at a place among those spared.
proof fn spared_found(t: Tables, roll: Roll, i: int)
    requires
        0 <= i < t.links.len(),
        t.is_spared(roll, i),
    ensures
        t.spared_at(roll, count_where(i, |k: int| t.is_spared(roll, k)) as int) == i,
{
    let p = |k: int| t.is_spared(roll, k);
    let place = count_where(i, p) as int;
    let c = t.spared_at(roll, place);
    assert(0 <= c < t.links.len() && t.is_spared(roll, c) && count_where(c, p) == place);
    if c < i {
        assert(p(c));
        count_grows(c + 1, i, p, p);
    } else if i < c {
        assert(p(i));
        count_grows(i + 1, c, p, p);
    }
}

/// The links that are spared, in one direction, are the edges of links that are
/// untouched.
proof fn links_outlined(t: Tables, roll: Roll, back: bool)
    requires
        t.wf(),
    ensures
        roll.sifted(
            if back {
                reverse_edges(t.links, t.capacity, t.devices)
            } else {
                forward_edges(t.links, t.capacity, t.devices)
            },
        ) == all_written(
            t,
            roll,
            lanes(t.spared_links(roll), t.spared_devices(roll), back),
        ),
{
    let n = t.links.len() as int;
    let rest = t.spared_links(roll);
    let devices = t.spared_devices(roll);
    let span = id_span(t.links);
    let p = |i: int| t.is_spared(roll, i);
    let e = |i: int|
        if back {
            turned(forward_edge(t.links, t.capacity, t.devices, i), span)
        } else {
            forward_edge(t.links, t.capacity, t.devices, i)
        };
    if back {
        assert(reverse_edges(t.links, t.capacity, t.devices) =~= Seq::new(n as nat, e));
    } else {
        assert(forward_edges(t.links, t.capacity, t.devices) =~= Seq::new(n as nat, e));
    }
    sifted_choice(roll, n, p, e);
    let items = Seq::new(n as nat, |i: int| (t.links[i], t.capacity[i]));
    let given = |i: int|
        if t.is_spared(roll, i) {
            seq![(t.links[i], t.capacity[i])]
        } else {
            Seq::empty()
        };
    let chosen = |i: int|
        if p(i) {
            seq![items[i]]
        } else {
            Seq::empty()
        };
    gather_same(n, given, chosen);
    let h = |j: int, x: (PrivateRow, Real)| seq![written(t, roll, lane_of(x, devices, j, back))];
    gather_chosen(items, n, p, h);
    let over = |i: int|
        if p(i) {
            h(count_where(i, p) as int, items[i])
        } else {
            Seq::empty()
        };
    let own = |i: int|
        if p(i) {
            seq![e(i)]
        } else {
            Seq::empty()
        };
    assert forall|i: int| 0 <= i < n implies #[trigger] over(i) == own(i) by {
        if p(i) {
            let link = t.links[i];
            assert(missing_end(link, t.devices) is None);
            spared_operator(t, roll, link.device1);
            spared_operator(t, roll, link.device2);
            spared_found(t, roll, i);
            link_id_within(t.links, i);
            let id = link_id(t.links, i);
            assert(items[i] == (link, t.capacity[i]));
            assert(number_of(t, roll, link_label(link, count_where(i, p) as int, false)) == id);
            assert(number_of(t, roll, link_label(link, count_where(i, p) as int, true)) == id
                + span);
            assert(over(i) =~= own(i));
        }
    }
    gather_same(n, over, own);
    let by_place = |j: int| h(j, rest[j]);
    crate::lists::gather_singles(rest.len() as int, by_place);
    let list = lanes(rest, devices, back);
    assert forall|j: int| 0 <= j < rest.len() implies #[trigger] gather(
        rest.len() as int,
        by_place,
    )[j] == all_written(t, roll, list)[j] by {
        assert(by_place(j)[0] == written(t, roll, list[j]));
    }
    assert(gather(rest.len() as int, by_place) =~= all_written(t, roll, list));
}

/// A list of edges of one operator is kept whole or not at all.
proof fn sifted_whole(roll: Roll, edges: Seq<EdgeRow>, operator: Seq<char>)
    requires
        forall|k: int|
            0 <= k < edges.len() ==> (#[trigger] edges[k]).operator1 == operator
                && edges[k].operator2 == operator,
    ensures
        roll.sifted(edges) == if roll.names(operator) {
            Seq::empty()
        } else {
            edges
        },
    decreases edges.len(),
{
    if edges.len() > 0 {
        let front = edges.drop_last();
        let last = seq![edges.last()];
        sifted_whole(roll, front, operator);
        assert(edges =~= front + last);
        sifted_sum(roll, front, last);
        assert(edges[edges.len() - 1].operator1 == operator);
        reveal_with_fuel(gather, 2);
        assert(roll.sifted(last) =~= if roll.names(operator) {
            Seq::empty()
        } else {
            last
        });
        assert(roll.sifted(edges) =~= if roll.names(operator) {
            Seq::empty()
        } else {
            edges
        });
    } else {
        assert(roll.sifted(edges) =~= Seq::empty());
        assert(edges =~= Seq::empty());
    }
}

/// What each device gives rise to, of its operator, is kept for the devices spared.
proof fn devices_outlined(t: Tables, roll: Roll, h: spec_fn(DeviceRow) -> Seq<(EdgeRow, Label)>)
    requires
        forall|d: DeviceRow, k: int|
            0 <= k < h(d).len() ==> (#[trigger] h(d)[k]).0.operator1 == d.operator
                && h(d)[k].0.operator2 == d.operator,
    ensures
        ({
            let rest = t.spared_devices(roll);
            roll.sifted(
                gather(t.devices.len() as int, |i: int| all_written(t, roll, h(t.devices[i]))),
            ) == all_written(t, roll, gather(rest.len() as int, |j: int| h(rest[j])))
        }),
{
    let n = t.devices.len() as int;
    let rest = t.spared_devices(roll);
    let f = |i: int| all_written(t, roll, h(t.devices[i]));
    sifted_pieces(roll, n, f);
    let p = |i: int| !roll.names(t.devices[i].operator);
    let g = |j: int, d: DeviceRow| all_written(t, roll, h(d));
    gather_chosen(t.devices, n, p, g);
    let given = |i: int|
        if !roll.names(t.devices[i].operator) {
            seq![t.devices[i]]
        } else {
            Seq::empty()
        };
    let chosen = |i: int|
        if p(i) {
            seq![t.devices[i]]
        } else {
            Seq::empty()
        };
    gather_same(n, given, chosen);
    let over = |i: int|
        if p(i) {
            g(count_where(i, p) as int, t.devices[i])
        } else {
            Seq::empty()
        };
    let kept = |i: int| roll.sifted(f(i));
    assert forall|i: int| 0 <= i < n implies #[trigger] kept(i) == over(i) by {
        let d = t.devices[i];
        assert forall|k: int| 0 <= k < f(i).len() implies (#[trigger] f(i)[k]).operator1
            == d.operator && f(i)[k].operator2 == d.operator by {
            assert(h(d)[k].0.operator1 == d.operator);
        }
        sifted_whole(roll, f(i), d.operator);
    }
    gather_same(n, kept, over);
    let hh = |j: int| h(rest[j]);
    written_pieces(t, roll, rest.len() as int, hh);
    gather_same(
        rest.len() as int,
        |j: int| g(j, rest[j]),
        |j: int| all_written(t, roll, hh(j)),
    );
}

/// What enters at a device.
spec fn entry_of(d: DeviceRow, city: Seq<char>, latency: Real, kind: u32) -> (EdgeRow, Label) {
    (
        EdgeRow {
            device1: city,
            device2: d.device,
            latency,
            bandwidth: whole(d.edge as int),
            operator1: d.operator,
            operator2: d.operator,
            shared: 0,
            link_type: kind,
        },
        Label::Entry { device: d.device },
    )
}

/// What leaves at a device.
spec fn exit_of(d: DeviceRow, city: Seq<char>, latency: Real, kind: u32) -> (EdgeRow, Label) {
    (
        EdgeRow {
            device1: d.device,
            device2: city,
            latency,
            bandwidth: whole(d.edge as int),
            operator1: d.operator,
            operator2: d.operator,
            shared: 0,
            link_type: kind,
        },
        Label::Exit { device: d.device },
    )
}

/// The way of one kind of traffic from a city into a device.
spec fn way_in(city: Seq<char>, kind: u32) -> spec_fn(DeviceRow) -> Seq<(EdgeRow, Label)> {
    |d: DeviceRow|
        if serves(d.device, city) {
            seq![entry_of(d, city, naught(), kind)]
        } else {
            Seq::empty()
        }
}

/// The way of one kind of traffic from a device out to a city.
spec fn way_out(city: Seq<char>, kind: u32) -> spec_fn(DeviceRow) -> Seq<(EdgeRow, Label)> {
    |d: DeviceRow|
        if serves(d.device, city) {
            seq![exit_of(d, city, naught(), kind)]
        } else {
            Seq::empty()
        }
}

/// The ways between a device and the public switch of a city.
spec fn way_across(city: Seq<char>, bonus: Real) -> spec_fn(DeviceRow) -> Seq<(EdgeRow, Label)> {
    |d: DeviceRow|
        if serves(d.device, city) {
            seq![exit_of(d, switch_of(city), bonus, 0), entry_of(d, switch_of(city), bonus, 0)]
        } else {
            Seq::empty()
        }
}

/// What devices give rise to.
spec fn ways(
    devices: Seq<DeviceRow>,
    h: spec_fn(DeviceRow) -> Seq<(EdgeRow, Label)>,
) -> Seq<(EdgeRow, Label)> {
    gather(devices.len() as int, |j: int| h(devices[j]))
}

/// The ways in that are untouched are those of the devices spared.
proof fn on_ramps_outlined(t: Tables, roll: Roll, city: Seq<char>, kind: u32)
    ensures
        roll.sifted(on_ramps(t.devices, id_span(t.links), city, kind)) == all_written(
            t,
            roll,
            ways(t.spared_devices(roll), way_in(city, kind)),
        ),
{
    let span = id_span(t.links);
    let h = way_in(city, kind);
    devices_outlined(t, roll, h);
    let f = |i: int| all_written(t, roll, h(t.devices[i]));
    let g = |i: int|
        if serves(t.devices[i].device, city) {
            seq![entry_edge(t.devices, span, i, city, naught(), kind)]
        } else {
            Seq::empty()
        };
    assert forall|i: int| 0 <= i < t.devices.len() implies #[trigger] f(i) == g(i) by {
        assert(f(i) =~= g(i));
    }
    gather_same(t.devices.len() as int, f, g);
}

/// The ways out that are untouched are those of the devices spared.
proof fn off_ramps_outlined(t: Tables, roll: Roll, city: Seq<char>, kind: u32)
    ensures
        roll.sifted(off_ramps(t.devices, id_span(t.links), city, kind)) == all_written(
            t,
            roll,
            ways(t.spared_devices(roll), way_out(city, kind)),
        ),
{
    let span = id_span(t.links);
    let h = way_out(city, kind);
    devices_outlined(t, roll, h);
    let f = |i: int| all_written(t, roll, h(t.devices[i]));
    let g = |i: int|
        if serves(t.devices[i].device, city) {
            seq![exit_edge(t.devices, span, i, city, naught(), kind)]
        } else {
            Seq::empty()
        };
    assert forall|i: int| 0 <= i < t.devices.len() implies #[trigger] f(i) == g(i) by {
        assert(f(i) =~= g(i));
    }
    gather_same(t.devices.len() as int, f, g);
}

/// The crossings that are untouched are those of the devices spared.
proof fn crossings_outlined(t: Tables, roll: Roll, city: Seq<char>, bonus: Real)
    ensures
        roll.sifted(crossings(t.devices, id_span(t.links), city, bonus)) == all_written(
            t,
            roll,
            ways(t.spared_devices(roll), way_across(city, bonus)),
        ),
{
    let span = id_span(t.links);
    let h = way_across(city, bonus);
    devices_outlined(t, roll, h);
    let f = |i: int| all_written(t, roll, h(t.devices[i]));
    let g = |i: int|
        if serves(t.devices[i].device, city) {
            seq![
                exit_edge(t.devices, span, i, switch_of(city), bonus, 0),
                entry_edge(t.devices, span, i, switch_of(city), bonus, 0),
            ]
        } else {
            Seq::empty()
        };
    assert forall|i: int| 0 <= i < t.devices.len() implies #[trigger] f(i) == g(i) by {
        assert(f(i) =~= g(i));
    }
    gather_same(t.devices.len() as int, f, g);
}

/// Gathering over the names of a sorted list that stand in another one is gathering over
/// the other one, where that holds no more names.
proof fn gather_fewer<T>(
    more: Seq<Seq<char>>,
    fewer: Seq<Seq<char>>,
    g: spec_fn(Seq<char>) -> Seq<T>,
)
    requires
        forall|x: Seq<char>| #[trigger] fewer.contains(x) ==> more.contains(x),
    ensures
        ({
            let (a, b) = (sorted_list(more), sorted_list(fewer));
            gather(
                a.len() as int,
                |c: int|
                    if b.contains(a[c]) {
                        g(a[c])
                    } else {
                        Seq::empty()
                    },
            ) == gather(b.len() as int, |c: int| g(b[c]))
        }),
{
    let (a, b) = (sorted_list(more), sorted_list(fewer));
    sorted_list_exists(more);
    sorted_list_exists(fewer);
    let n = a.len() as int;
    let p = |c: int| b.contains(a[c]);
    let h = |j: int, x: Seq<char>| g(x);
    gather_chosen(a, n, p, h);
    let f = |c: int|
        if p(c) {
            seq![a[c]]
        } else {
            Seq::empty()
        };
    let list = gather(n, f);
    assert forall|i: int, j: int| 0 <= i < j < list.len() implies crate::text::lex_less(
        #[trigger] list[i],
        #[trigger] list[j],
    ) by {
        let (x, y) = (nth_place(n, p, i), nth_place(n, p, j));
        assert(p(x) && p(y));
        assert(list[i] == a[x] && list[j] == a[y]);
        if y <= x {
            count_grows(y, x, p, p);
        }
    }
    assert forall|x: Seq<char>| #[trigger] list.contains(x) <==> fewer.contains(x) by {
        if list.contains(x) {
            let k = choose|k: int| 0 <= k < list.len() && list[k] == x;
            let c = nth_place(n, p, k);
            assert(p(c) && list[k] == a[c]);
            assert(b.contains(x));
        }
        if fewer.contains(x) {
            assert(more.contains(x));
            assert(a.contains(x) && b.contains(x));
            let c = choose|c: int| 0 <= c < a.len() && a[c] == x;
            assert(p(c));
            assert(list[count_where(c, p) as int] == x);
        }
    }
    assert(sorted_names(list, fewer));
    sorted_list_once(list, fewer);
    gather_same(
        n,
        |c: int|
            if b.contains(a[c]) {
                g(a[c])
            } else {
                Seq::empty()
            },
        |i: int|
            if p(i) {
                h(count_where(i, p) as int, a[i])
            } else {
                Seq::empty()
            },
    );
    gather_same(list.len() as int, |j: int| h(j, list[j]), |c: int| g(b[c]));
}

/// The cities of devices, before they are sorted.
spec fn city_names(devices: Seq<DeviceRow>, publics: Seq<PublicRow>) -> Seq<Seq<char>> {
    gather(devices.len() as int, |i: int| shared_city(publics, devices[i].device))
}

/// The city of a device is listed if both networks reach it.
proof fn city_listed(devices: Seq<DeviceRow>, publics: Seq<PublicRow>, city: Seq<char>)
    ensures
        city_names(devices, publics).contains(city) <==> exists|i: int|
            0 <= i < devices.len() && shared_city(publics, (#[trigger] devices[i]).device)
                == seq![city],
{
    let names = city_names(devices, publics);
    let n = devices.len() as int;
    let f = |i: int| shared_city(publics, devices[i].device);
    if names.contains(city) {
        let k = choose|k: int| 0 <= k < names.len() && names[k] == city;
        let (i, j) = gather_member(n, f, k);
        assert(f(i) =~= seq![city]);
        assert(shared_city(publics, devices[i].device) == seq![city]);
    }
    if exists|i: int|
        0 <= i < devices.len() && shared_city(publics, (#[trigger] devices[i]).device) == seq![
            city,
        ] {
        let i = choose|i: int|
            0 <= i < devices.len() && shared_city(publics, (#[trigger] devices[i]).device) == seq![
                city,
            ];
        assert(f(i) == seq![city]);
        gather_holds(n, f, i, 0);
    }
}

/// A device that is spared is a device.
proof fn spared_is_device(t: Tables, roll: Roll, j: int) -> (i: int)
    requires
        0 <= j < t.spared_devices(roll).len(),
    ensures
        0 <= i < t.devices.len(),
        t.devices[i] == t.spared_devices(roll)[j],
{
    let f = |i: int|
        if !roll.names(t.devices[i].operator) {
            seq![t.devices[i]]
        } else {
            Seq::empty()
        };
    let (i, z) = gather_member(t.devices.len() as int, f, j);
    i
}

/// The crossings that are untouched are those in the cities of the devices spared.
proof fn all_crossings_outlined(t: Tables, roll: Roll, publics: Seq<PublicRow>, bonus: Real)
    ensures
        ({
            let cities = shared_cities(t.devices, publics);
            let rest = t.spared_devices(roll);
            let fewer = shared_cities(rest, publics);
            roll.sifted(
                gather(
                    cities.len() as int,
                    |c: int| crossings(t.devices, id_span(t.links), cities[c], bonus),
                ),
            ) == all_written(
                t,
                roll,
                gather(fewer.len() as int, |c: int| ways(rest, way_across(fewer[c], bonus))),
            )
        }),
{
    let cities = shared_cities(t.devices, publics);
    let rest = t.spared_devices(roll);
    let fewer = shared_cities(rest, publics);
    let (all_names, few_names) = (city_names(t.devices, publics), city_names(rest, publics));
    let n = cities.len() as int;
    let f = |c: int| crossings(t.devices, id_span(t.links), cities[c], bonus);
    sifted_pieces(roll, n, f);
    let g = |city: Seq<char>| all_written(t, roll, ways(rest, way_across(city, bonus)));
    assert forall|x: Seq<char>| #[trigger] few_names.contains(x) implies all_names.contains(x) by {
        city_listed(rest, publics, x);
        city_listed(t.devices, publics, x);
        let j = choose|j: int|
            0 <= j < rest.len() && shared_city(publics, (#[trigger] rest[j]).device) == seq![x];
        let i = spared_is_device(t, roll, j);
        assert(shared_city(publics, t.devices[i].device) == seq![x]);
    }
    gather_fewer(all_names, few_names, g);
    sorted_list_exists(all_names);
    sorted_list_exists(few_names);
    let kept = |c: int| roll.sifted(f(c));
    let over = |c: int|
        if fewer.contains(cities[c]) {
            g(cities[c])
        } else {
            Seq::empty()
        };
    assert forall|c: int| 0 <= c < n implies #[trigger] kept(c) == over(c) by {
        let city = cities[c];
        crossings_outlined(t, roll, city, bonus);
        if !fewer.contains(city) {
            nobody_serves(t, roll, publics, city, bonus);
            assert(kept(c) =~= Seq::empty());
        }
    }
    gather_same(n, kept, over);
    let pieces = |c: int| ways(rest, way_across(fewer[c], bonus));
    written_pieces(t, roll, fewer.len() as int, pieces);
    gather_same(
        fewer.len() as int,
        |c: int| g(fewer[c]),
        |c: int| all_written(t, roll, pieces(c)),
    );
}

/// A shared city that is none of the devices spared is served by none of them.
proof fn nobody_serves(
    t: Tables,
    roll: Roll,
    publics: Seq<PublicRow>,
    city: Seq<char>,
    bonus: Real,
)
    requires
        shared_cities(t.devices, publics).contains(city),
        !shared_cities(t.spared_devices(roll), publics).contains(city),
    ensures
        ways(t.spared_devices(roll), way_across(city, bonus)).len() == 0,
{
    let rest = t.spared_devices(roll);
    let (all_names, few_names) = (city_names(t.devices, publics), city_names(rest, publics));
    sorted_list_exists(all_names);
    sorted_list_exists(few_names);
    assert(all_names.contains(city) && !few_names.contains(city));
    city_listed(t.devices, publics, city);
    city_listed(rest, publics, city);
    let i = choose|i: int|
        0 <= i < t.devices.len() && shared_city(publics, (#[trigger] t.devices[i]).device) == seq![
            city,
        ];
    assert(shared_city(publics, t.devices[i].device)[0] == city);
    assert(city.len() == 3 && is_public_city(publics, city));
    let h = |j: int| way_across(city, bonus)(rest[j]);
    assert forall|j: int| 0 <= j < rest.len() implies (#[trigger] h(j)).len() == 0 by {
        let d = rest[j];
        if serves(d.device, city) {
            assert(city_code(d.device) == Some(city));
            assert(shared_city(publics, d.device) == seq![city]);
        }
    }
    crate::lists::gather_skips(0, rest.len() as int, h);
}

/// The ways of one kind of traffic into and out of the private network.
spec fn kind_ways(devices: Seq<DeviceRow>, flows: Seq<FlowRow>, kind: u32) -> Seq<
    (EdgeRow, Label),
> {
    let stops = stops_of(flows, kind);
    ways(devices, way_in(source_of(flows, kind), kind)) + gather(
        stops.len() as int,
        |d: int| ways(devices, way_out(stops[d], kind)),
    )
}

/// The ramps of one kind of traffic that are untouched are those of the devices spared.
proof fn ramps_outlined(t: Tables, roll: Roll, flows: Seq<FlowRow>, kind: u32)
    ensures
        roll.sifted(private_ramps(t.devices, id_span(t.links), flows, kind)) == all_written(
            t,
            roll,
            kind_ways(t.spared_devices(roll), flows, kind),
        ),
{
    let span = id_span(t.links);
    let rest = t.spared_devices(roll);
    let stops = stops_of(flows, kind);
    let n = stops.len() as int;
    let source = source_of(flows, kind);
    let f = |d: int| off_ramps(t.devices, span, stops[d], kind);
    let g = |d: int| ways(rest, way_out(stops[d], kind));
    on_ramps_outlined(t, roll, source, kind);
    sifted_sum(roll, on_ramps(t.devices, span, source, kind), gather(n, f));
    sifted_pieces(roll, n, f);
    written_sum(t, roll, ways(rest, way_in(source, kind)), gather(n, g));
    written_pieces(t, roll, n, g);
    let kept = |d: int| roll.sifted(f(d));
    let over = |d: int| all_written(t, roll, g(d));
    assert forall|d: int| 0 <= d < n implies #[trigger] kept(d) == over(d) by {
        off_ramps_outlined(t, roll, stops[d], kind);
    }
    gather_same(n, kept, over);
}

/// The public network and the ways onto it.
spec fn public_part(flows: Seq<FlowRow>, publics: Seq<PublicRow>) -> Seq<EdgeRow> {
    let types = sorted_ids(kinds_of(flows));
    public_pairs(publics) + gather(types.len() as int, |t: int| public_ramps(flows, types[t]))
}

/// The edges without numbers for their groups: what two networks have in common.
spec fn outline(
    rest: Seq<(PrivateRow, Real)>,
    devices: Seq<DeviceRow>,
    flows: Seq<FlowRow>,
    publics: Seq<PublicRow>,
    bonus: Real,
) -> Seq<(EdgeRow, Label)> {
    let types = sorted_ids(kinds_of(flows));
    let cities = shared_cities(devices, publics);
    lanes(rest, devices, false) + lanes(rest, devices, true) + gather(
        types.len() as int,
        |k: int| kind_ways(devices, flows, types[k]),
    ) + gather(cities.len() as int, |c: int| ways(devices, way_across(cities[c], bonus)))
        + public_part(flows, publics).map_values(|e: EdgeRow| (e, Label::Free))
}

/// The public part belongs to the public network and is not limited.
proof fn public_part_is_open(flows: Seq<FlowRow>, publics: Seq<PublicRow>)
    ensures
        forall|k: int|
            0 <= k < public_part(flows, publics).len() ==> (#[trigger] public_part(
                flows,
                publics,
            )[k]).operator1 == OP_PUBLIC@ && public_part(flows, publics)[k].operator2 == OP_PUBLIC@
                && public_part(flows, publics)[k].shared == 0,
{
    let q = |e: EdgeRow|
        e.operator1 == OP_PUBLIC@ && e.operator2 == OP_PUBLIC@ && e.shared == 0;
    let types = sorted_ids(kinds_of(flows));
    let f = |i: int| public_pair(publics[i]);
    crate::lists::gather_all(publics.len() as int, f, q);
    let g = |t: int| public_ramps(flows, types[t]);
    assert forall|i: int, j: int| 0 <= i < types.len() && 0 <= j < g(i).len() implies q(
        #[trigger] g(i)[j],
    ) by {
        let stops = stops_of(flows, types[i]);
        let h = |d: int|
            seq![public_edge(switch_of(stops[d]), stops[d], naught(), types[i])];
        crate::lists::gather_all(stops.len() as int, h, q);
        if j > 0 {
            assert(g(i)[j] == gather(stops.len() as int, h)[j - 1]);
        }
    }
    crate::lists::gather_all(types.len() as int, g, q);
    let (a, b) = (public_pairs(publics), gather(types.len() as int, g));
    assert forall|k: int| 0 <= k < public_part(flows, publics).len() implies q(
        #[trigger] public_part(flows, publics)[k],
    ) by {
        if k < a.len() {
            assert(q(a[k]));
        } else {
            assert(q(b[k - a.len()]));
        }
    }
}

/// The edges that are untouched are the outline of the tables without what changed, with
/// the numbers of the groups written in.
proof fn edges_outlined(
    t: Tables,
    roll: Roll,
    flows: Seq<FlowRow>,
    publics: Seq<PublicRow>,
    bonus: Real,
)
    requires
        t.wf(),
    ensures
        roll.sifted(all_edges(t.links, t.capacity, t.devices, flows, publics, bonus))
            == all_written(
            t,
            roll,
            outline(t.spared_links(roll), t.spared_devices(roll), flows, publics, bonus),
        ),
{
    let (rest, devices) = (t.spared_links(roll), t.spared_devices(roll));
    let span = id_span(t.links);
    let types = sorted_ids(kinds_of(flows));
    let n = types.len() as int;
    let cities = shared_cities(t.devices, publics);
    let fewer = shared_cities(devices, publics);
    let ahead = forward_edges(t.links, t.capacity, t.devices);
    let back = reverse_edges(t.links, t.capacity, t.devices);
    let f = |k: int| private_ramps(t.devices, span, flows, types[k]);
    let ramps = gather(n, f);
    let across = gather(
        cities.len() as int,
        |c: int| crossings(t.devices, span, cities[c], bonus),
    );
    let open = public_part(flows, publics);
    let x1 = lanes(rest, devices, false);
    let x2 = lanes(rest, devices, true);
    let g = |k: int| kind_ways(devices, flows, types[k]);
    let x3 = gather(n, g);
    let x4 = gather(fewer.len() as int, |c: int| ways(devices, way_across(fewer[c], bonus)));
    let x5 = open.map_values(|e: EdgeRow| (e, Label::Free));
    links_outlined(t, roll, false);
    links_outlined(t, roll, true);
    sifted_pieces(roll, n, f);
    written_pieces(t, roll, n, g);
    let kept = |k: int| roll.sifted(f(k));
    let over = |k: int| all_written(t, roll, g(k));
    assert forall|k: int| 0 <= k < n implies #[trigger] kept(k) == over(k) by {
        ramps_outlined(t, roll, flows, types[k]);
    }
    gather_same(n, kept, over);
    all_crossings_outlined(t, roll, publics, bonus);
    public_part_is_open(flows, publics);
    sifted_whole(roll, open, OP_PUBLIC@);
    assert(all_written(t, roll, x5) =~= open);
    let all = all_edges(t.links, t.capacity, t.devices, flows, publics, bonus);
    assert(all =~= ahead + back + ramps + across + open);
    sifted_sum(roll, ahead, back);
    sifted_sum(roll, ahead + back, ramps);
    sifted_sum(roll, ahead + back + ramps, across);
    sifted_sum(roll, ahead + back + ramps + across, open);
    written_sum(t, roll, x1, x2);
    written_sum(t, roll, x1 + x2, x3);
    written_sum(t, roll, x1 + x2 + x3, x4);
    written_sum(t, roll, x1 + x2 + x3 + x4, x5);
}

/// The label stands for a group of the network.
spec fn is_known(t: Tables, roll: Roll, label: Label) -> bool {
    match label {
        Label::Free => true,
        Label::Given { id, back } => {
            &&& 0 < id <= top_id(t.links)
            &&& exists|k: int|
                0 <= k < t.spared_links(roll).len() && given_id(
                    (#[trigger] t.spared_links(roll)[k]).0,
                ) == id
        },
        Label::Own { place, back } => {
            let i = t.spared_at(roll, place);
            &&& 0 <= i < t.links.len()
            &&& t.is_spared(roll, i)
            &&& count_where(i, |k: int| t.is_spared(roll, k)) == place
            &&& given_id(t.links[i]) == 0
        },
        Label::Entry { device } => is_listed(t.devices, device),
        Label::Exit { device } => is_listed(t.devices, device),
    }
}

/// All labels of a list are known.
spec fn all_known(t: Tables, roll: Roll, list: Seq<(EdgeRow, Label)>) -> bool {
    forall|k: int| 0 <= k < list.len() ==> is_known(t, roll, (#[trigger] list[k]).1)
}

/// How many links before one that was given no group were given none.
proof fn ungrouped_within(links: Seq<PrivateRow>, i: int, j: int)
    requires
        0 <= i < j <= links.len(),
        given_id(links[i]) == 0,
    ensures
        ungrouped(links, i) < ungrouped(links, j),
{
    let p = |k: int| given_id(links[k]) == 0;
    assert(p(i));
    count_grows(i + 1, j, p, p);
}

/// The number of a group can be written, and is zero only where there is no group.
proof fn number_within(t: Tables, roll: Roll, label: Label)
    requires
        t.wf(),
        is_known(t, roll, label),
    ensures
        0 <= number_of(t, roll, label) <= u32::MAX,
        number_of(t, roll, label) == 0 <==> label is Free,
{
    given_within(t.links);
    match label {
        Label::Free => {},
        Label::Given { id, back } => {},
        Label::Own { place, back } => {
            ungrouped_within(t.links, t.spared_at(roll, place), t.links.len() as int);
        },
        Label::Entry { device } => {
            last_device_found(t.devices, device);
        },
        Label::Exit { device } => {
            last_device_found(t.devices, device);
        },
    }
}

/// Different groups have different numbers.
proof fn numbers_tell_groups_apart(t: Tables, roll: Roll, a: Label, b: Label)
    requires
        t.wf(),
        is_known(t, roll, a),
        is_known(t, roll, b),
        number_of(t, roll, a) == number_of(t, roll, b),
    ensures
        a == b,
{
    let links = t.links;
    let n = links.len() as int;
    given_within(links);
    match a {
        Label::Own { place, back } => {
            ungrouped_within(links, t.spared_at(roll, place), n);
        },
        Label::Entry { device } => {
            last_device_found(t.devices, device);
        },
        Label::Exit { device } => {
            last_device_found(t.devices, device);
        },
        _ => {},
    }
    match b {
        Label::Own { place, back } => {
            ungrouped_within(links, t.spared_at(roll, place), n);
        },
        Label::Entry { device } => {
            last_device_found(t.devices, device);
        },
        Label::Exit { device } => {
            last_device_found(t.devices, device);
        },
        _ => {},
    }
    if let (Label::Own { place: x, back: u }, Label::Own { place: y, back: v }) = (a, b) {
        let (i, j) = (t.spared_at(roll, x), t.spared_at(roll, y));
        if i < j {
            ungrouped_within(links, i, j);
        } else if j < i {
            ungrouped_within(links, j, i);
        }
    }
}

/// The groups of links that are spared are known.
proof fn lanes_known(t: Tables, roll: Roll, back: bool)
    ensures
        all_known(t, roll, lanes(t.spared_links(roll), t.spared_devices(roll), back)),
{
    let rest = t.spared_links(roll);
    let devices = t.spared_devices(roll);
    let n = t.links.len() as int;
    let p = |i: int| t.is_spared(roll, i);
    let items = Seq::new(n as nat, |i: int| (t.links[i], t.capacity[i]));
    gather_chosen(items, n, p, |j: int, x: (PrivateRow, Real)| seq![x]);
    gather_same(
        n,
        |i: int|
            if t.is_spared(roll, i) {
                seq![(t.links[i], t.capacity[i])]
            } else {
                Seq::empty()
            },
        |i: int|
            if p(i) {
                seq![items[i]]
            } else {
                Seq::empty()
            },
    );
    given_within(t.links);
    let list = lanes(rest, devices, back);
    assert forall|j: int| 0 <= j < list.len() implies is_known(t, roll, (#[trigger] list[j]).1) by {
        let i = nth_place(n, p, j);
        assert(p(i));
        assert(rest[j] == items[i]);
        spared_found(t, roll, i);
        assert(given_id(t.links[i]) <= top_id(t.links));
        assert(given_id(t.spared_links(roll)[j].0) == given_id(t.links[i]));
    }
}

/// The groups at devices that are spared are known.
proof fn ways_known(t: Tables, roll: Roll, h: spec_fn(DeviceRow) -> Seq<(EdgeRow, Label)>)
    requires
        forall|d: DeviceRow, k: int|
            0 <= k < h(d).len() ==> (#[trigger] h(d)[k]).1 == (Label::Entry { device: d.device })
                || h(d)[k].1 == (Label::Exit { device: d.device }),
    ensures
        all_known(t, roll, ways(t.spared_devices(roll), h)),
{
    let rest = t.spared_devices(roll);
    let f = |j: int| h(rest[j]);
    let q = |x: (EdgeRow, Label)| is_known(t, roll, x.1);
    assert forall|j: int, k: int| 0 <= j < rest.len() && 0 <= k < f(j).len() implies q(
        #[trigger] f(j)[k],
    ) by {
        let i = spared_is_device(t, roll, j);
        last_device_found(t.devices, rest[j].device);
        assert(h(rest[j])[k] == f(j)[k]);
    }
    crate::lists::gather_all(rest.len() as int, f, q);
    let list = ways(rest, h);
    assert forall|k: int| 0 <= k < list.len() implies is_known(t, roll, (#[trigger] list[k]).1) by {
        assert(q(list[k]));
    }
}

/// What is known of pieces is known of all.
proof fn pieces_known(t: Tables, roll: Roll, n: int, f: spec_fn(int) -> Seq<(EdgeRow, Label)>)
    requires
        forall|i: int| 0 <= i < n ==> all_known(t, roll, #[trigger] f(i)),
    ensures
        all_known(t, roll, gather(n, f)),
{
    let list = gather(n, f);
    assert forall|k: int| 0 <= k < list.len() implies is_known(t, roll, (#[trigger] list[k]).1) by {
        let (i, j) = gather_member(n, f, k);
        assert(all_known(t, roll, f(i)));
        assert(is_known(t, roll, f(i)[j].1));
    }
}

/// All groups of the outline are known.
proof fn outline_known(
    t: Tables,
    roll: Roll,
    flows: Seq<FlowRow>,
    publics: Seq<PublicRow>,
    bonus: Real,
)
    ensures
        all_known(
            t,
            roll,
            outline(t.spared_links(roll), t.spared_devices(roll), flows, publics, bonus),
        ),
{
    let (rest, devices) = (t.spared_links(roll), t.spared_devices(roll));
    let types = sorted_ids(kinds_of(flows));
    let cities = shared_cities(devices, publics);
    lanes_known(t, roll, false);
    lanes_known(t, roll, true);
    let f = |k: int| kind_ways(devices, flows, types[k]);
    assert forall|k: int| 0 <= k < types.len() implies all_known(t, roll, #[trigger] f(k)) by {
        let kind = types[k];
        let stops = stops_of(flows, kind);
        let g = |d: int| ways(devices, way_out(stops[d], kind));
        ways_known(t, roll, way_in(source_of(flows, kind), kind));
        assert forall|d: int| 0 <= d < stops.len() implies all_known(t, roll, #[trigger] g(d)) by {
            ways_known(t, roll, way_out(stops[d], kind));
        }
        pieces_known(t, roll, stops.len() as int, g);
    }
    pieces_known(t, roll, types.len() as int, f);
    let g = |c: int| ways(devices, way_across(cities[c], bonus));
    assert forall|c: int| 0 <= c < cities.len() implies all_known(t, roll, #[trigger] g(c)) by {
        ways_known(t, roll, way_across(cities[c], bonus));
    }
    pieces_known(t, roll, cities.len() as int, g);
}

/// Keeping what is untouched of consolidated edges: each is an edge that is untouched,
/// with its group renumbered.
proof fn sifted_compacted(roll: Roll, all: Seq<EdgeRow>)
    ensures
        roll.sifted(compacted(all)).len() == roll.sifted(all).len(),
        forall|j: int|
            0 <= j < roll.sifted(all).len() ==> #[trigger] roll.sifted(compacted(all))[j]
                == regrouped(roll.sifted(all)[j], used_ids(all)),
{
    let n = all.len() as int;
    let edges = compacted(all);
    let p = |i: int| !is_touched(all[i], roll.changed, roll.players);
    let (f, g) = (
        |i: int|
            if is_touched(all[i], roll.changed, roll.players) {
                Seq::empty()
            } else {
                seq![all[i]]
            },
        |i: int|
            if p(i) {
                seq![all[i]]
            } else {
                Seq::empty()
            },
    );
    gather_same(n, f, g);
    let (x, y) = (
        |i: int|
            if is_touched(edges[i], roll.changed, roll.players) {
                Seq::empty()
            } else {
                seq![edges[i]]
            },
        |i: int|
            if p(i) {
                seq![edges[i]]
            } else {
                Seq::empty()
            },
    );
    gather_same(n, x, y);
    gather_chosen(all, n, p, |j: int, e: EdgeRow| seq![e]);
    gather_chosen(edges, n, p, |j: int, e: EdgeRow| seq![e]);
    assert forall|j: int| 0 <= j < roll.sifted(all).len() implies #[trigger] roll.sifted(edges)[j]
        == regrouped(roll.sifted(all)[j], used_ids(all)) by {
        let i = nth_place(n, p, j);
        assert(p(i));
    }
}

/// Two edges that are untouched share their bandwidth after consolidation if and only if
/// their groups go by the same.
proof fn groups_by_label(
    t: Tables,
    roll: Roll,
    flows: Seq<FlowRow>,
    publics: Seq<PublicRow>,
    bonus: Real,
    j: int,
    k: int,
)
    requires
        t.wf(),
        0 <= j < outline(
            t.spared_links(roll),
            t.spared_devices(roll),
            flows,
            publics,
            bonus,
        ).len(),
        0 <= k < outline(
            t.spared_links(roll),
            t.spared_devices(roll),
            flows,
            publics,
            bonus,
        ).len(),
    ensures
        ({
            let list = outline(
                t.spared_links(roll),
                t.spared_devices(roll),
                flows,
                publics,
                bonus,
            );
            let left = roll.sifted(t.edges(flows, publics, bonus));
            &&& left.len() == list.len()
            &&& same_but_group(left[j], list[j].0)
            &&& left[j].shared == 0 <==> list[j].1 is Free
            &&& left[j].shared == left[k].shared <==> list[j].1 == list[k].1
        }),
{
    let all = all_edges(t.links, t.capacity, t.devices, flows, publics, bonus);
    let list = outline(t.spared_links(roll), t.spared_devices(roll), flows, publics, bonus);
    edges_outlined(t, roll, flows, publics, bonus);
    outline_known(t, roll, flows, publics, bonus);
    sifted_compacted(roll, all);
    let f = |i: int|
        if is_touched(all[i], roll.changed, roll.players) {
            Seq::empty()
        } else {
            seq![all[i]]
        };
    let n = all.len() as int;
    let (a, z) = gather_member(n, f, j);
    let (b, y) = gather_member(n, f, k);
    let kept = roll.sifted(all);
    assert(kept[j] == all[a] && kept[k] == all[b]);
    groups_are_kept(all, a, b);
    assert(kept[j] == written(t, roll, list[j]));
    assert(kept[k] == written(t, roll, list[k]));
    assert(is_known(t, roll, list[j].1) && is_known(t, roll, list[k].1));
    number_within(t, roll, list[j].1);
    number_within(t, roll, list[k].1);
    if number_of(t, roll, list[j].1) == number_of(t, roll, list[k].1) {
        numbers_tell_groups_apart(t, roll, list[j].1, list[k].1);
    }
    let left = roll.sifted(t.edges(flows, publics, bonus));
    assert(left[j] == regrouped(kept[j], used_ids(all)));
    assert(left[k] == regrouped(kept[k], used_ids(all)));
    assert(compacted(all)[a].shared == dense_id(used_ids(all), all[a].shared));
    assert(compacted(all)[b].shared == dense_id(used_ids(all), all[b].shared));
}

/// The group of an edge that is untouched is led by such an edge, unless links were given
/// the group and the first of them belongs to an operator that changed. Its first edge has
/// the bandwidth of the edge itself, or that of the first link that was given the group.
proof fn led_by_label(
    t: Tables,
    roll: Roll,
    flows: Seq<FlowRow>,
    publics: Seq<PublicRow>,
    bonus: Real,
    j: int,
)
    requires
        t.wf(),
        0 <= j < outline(
            t.spared_links(roll),
            t.spared_devices(roll),
            flows,
            publics,
            bonus,
        ).len(),
        roll.sifted(t.edges(flows, publics, bonus))[j].shared > 0,
    ensures
        leads_untouched(
            t.edges(flows, publics, bonus),
            roll.changed,
            roll.players,
            roll.sifted(t.edges(flows, publics, bonus))[j].shared,
        ) == match outline(
            t.spared_links(roll),
            t.spared_devices(roll),
            flows,
            publics,
            bonus,
        )[j].1 {
            Label::Given { id, back } => led_by_spared(t, roll, id),
            _ => true,
        },
        all_limits(t.edges(flows, publics, bonus))(
            roll.sifted(t.edges(flows, publics, bonus))[j].shared,
        ) == Some(
            match outline(
                t.spared_links(roll),
                t.spared_devices(roll),
                flows,
                publics,
                bonus,
            )[j].1 {
                Label::Given { id, back } => lead_capacity(t, id),
                _ => roll.sifted(t.edges(flows, publics, bonus))[j].bandwidth,
            },
        ),
{
    let all = all_edges(t.links, t.capacity, t.devices, flows, publics, bonus);
    let edges = t.edges(flows, publics, bonus);
    let list = outline(t.spared_links(roll), t.spared_devices(roll), flows, publics, bonus);
    let label = list[j].1;
    let links = t.links;
    let (n, span) = (links.len() as int, id_span(links));
    edges_outlined(t, roll, flows, publics, bonus);
    outline_known(t, roll, flows, publics, bonus);
    sifted_compacted(roll, all);
    groups_by_label(t, roll, flows, publics, bonus, j, j);
    let f = |i: int|
        if is_touched(all[i], roll.changed, roll.players) {
            Seq::empty()
        } else {
            seq![all[i]]
        };
    let (a, z) = gather_member(all.len() as int, f, j);
    let kept = roll.sifted(all);
    assert(kept[j] == all[a] && !is_touched(all[a], roll.changed, roll.players));
    assert(kept[j] == written(t, roll, list[j]));
    assert(edges[a] == roll.sifted(edges)[j]);
    assert(is_known(t, roll, label));
    number_within(t, roll, label);
    let id = edges[a].shared;
    let x = first_with(edges, id, a);
    assert(forall|i: int| #[trigger] opens_group(edges, id, i) ==> i == x) by {
        assert forall|i: int| #[trigger] opens_group(edges, id, i) implies i == x by {
            if i < x {
                assert(edges[i].shared != id);
            } else if x < i {
                assert(edges[x].shared != id);
            }
        }
    }
    opener_once(edges, id, x);
    groups_are_kept(all, x, a);
    groups_by_place(links, t.capacity, t.devices, flows, publics, bonus, x);
    groups_by_place(links, t.capacity, t.devices, flows, publics, bonus, a);
    given_within(links);
    assert(all[a].shared == number_of(t, roll, label));
    match label {
        Label::Free => {},
        Label::Given { id: given, back } => {
            let shift = if back {
                n
            } else {
                0
            };
            let (p, q) = (x - shift, a - shift);
            assert(0 <= p < n && 0 <= q < n);
            assert(link_id(links, p) == given && link_id(links, q) == given);
            assert(given_id(links[p]) == given);
            assert(leads_given(links, p)) by {
                assert forall|k: int| 0 <= k < p implies given_id(#[trigger] links[k])
                    != given_id(links[p]) by {
                    groups_by_place(
                        links,
                        t.capacity,
                        t.devices,
                        flows,
                        publics,
                        bonus,
                        shift + k,
                    );
                    groups_are_kept(all, shift + k, x);
                    assert(edges[shift + k].shared != id);
                }
            }
            assert(t.is_spared(roll, p) <==> !is_touched(edges[x], roll.changed, roll.players));
            lead_once(t, p);
        },
        Label::Own { place, back } => {
            ungrouped_within(links, t.spared_at(roll, place), n);
            let shift = if back {
                n
            } else {
                0
            };
            one_link_or_given(links, x - shift, a - shift);
            assert(x == a) by {
                assert(given_id(links[a - shift]) <= top_id(links));
            }
        },
        Label::Entry { device } => {
            last_device_found(t.devices, device);
            hosted_alike(links, t.devices, all[x], all[a]);
        },
        Label::Exit { device } => {
            last_device_found(t.devices, device);
            hosted_alike(links, t.devices, all[x], all[a]);
        },
    }
}

/// Where no group was given to links of operators that changed and to others, the groups
/// of the latter are led alike, by links that can carry the same, whatever else differs.
pub proof fn groups_apart_are_led_alike(a: Tables, b: Tables, roll: Roll)
    requires
        tables_agree(a, b, roll),
        groups_apart(a, roll),
        groups_apart(b, roll),
    ensures
        leads_agree(a, b, roll),
        limits_agree(a, b, roll),
{
    assert forall|j: int|
        0 <= j < a.spared_links(roll).len() && given_id(
            (#[trigger] a.spared_links(roll)[j]).0,
        ) != 0 implies led_by_spared(a, roll, given_id(a.spared_links(roll)[j].0))
        == led_by_spared(b, roll, given_id(a.spared_links(roll)[j].0)) && lead_capacity(
        a,
        given_id(a.spared_links(roll)[j].0),
    ) == lead_capacity(b, given_id(a.spared_links(roll)[j].0)) by {
        let p = apart_is_led(a, roll, j);
        let q = apart_is_led(b, roll, j);
        let rest = a.spared_links(roll);
        if p < q {
            assert(given_id(rest[p].0) != given_id(rest[j].0));
        } else if q < p {
            assert(given_id(rest[q].0) != given_id(rest[j].0));
        }
    }
}

/// A group that no link of an operator that changed was given is led by one that is
/// spared, the first of the group among those.
proof fn apart_is_led(t: Tables, roll: Roll, j: int) -> (first: int)
    requires
        groups_apart(t, roll),
        0 <= j < t.spared_links(roll).len(),
        given_id(t.spared_links(roll)[j].0) != 0,
    ensures
        led_by_spared(t, roll, given_id(t.spared_links(roll)[j].0)),
        0 <= first < t.spared_links(roll).len(),
        given_id(t.spared_links(roll)[first].0) == given_id(t.spared_links(roll)[j].0),
        forall|k: int|
            0 <= k < first ==> given_id((#[trigger] t.spared_links(roll)[k]).0) != given_id(
                t.spared_links(roll)[j].0,
            ),
        lead_capacity(t, given_id(t.spared_links(roll)[j].0)) == t.spared_links(roll)[first].1,
{
    let n = t.links.len() as int;
    let rest = t.spared_links(roll);
    let p = |i: int| t.is_spared(roll, i);
    let items = Seq::new(n as nat, |i: int| (t.links[i], t.capacity[i]));
    gather_chosen(items, n, p, |j: int, x: (PrivateRow, Real)| seq![x]);
    gather_same(
        n,
        |i: int|
            if t.is_spared(roll, i) {
                seq![(t.links[i], t.capacity[i])]
            } else {
                Seq::empty()
            },
        |i: int|
            if p(i) {
                seq![items[i]]
            } else {
                Seq::empty()
            },
    );
    let i = nth_place(n, p, j);
    assert(p(i) && rest[j] == items[i]);
    let lead = first_given(t.links, i);
    assert(given_id(t.links[lead]) == given_id(t.links[i]));
    assert(p(lead));
    lead_once(t, lead);
    let first = count_where(lead, p) as int;
    assert(rest[first] == items[lead]);
    assert forall|k: int| 0 <= k < first implies given_id((#[trigger] rest[k]).0) != given_id(
        rest[j].0,
    ) by {
        let at = nth_place(n, p, k);
        assert(p(at) && rest[k] == items[at]);
        if at >= lead {
            count_grows(lead, at, p, p);
        }
        assert(given_id(t.links[at]) != given_id(t.links[lead]));
    }
    first
}

/// The first link that was given the group of a link.
proof fn first_given(links: Seq<PrivateRow>, i: int) -> (lead: int)
    requires
        0 <= i < links.len(),
        given_id(links[i]) != 0,
    ensures
        leads_given(links, lead),
        given_id(links[lead]) == given_id(links[i]),
    decreases i,
{
    if exists|k: int| 0 <= k < i && given_id(#[trigger] links[k]) == given_id(links[i]) {
        let k = choose|k: int| 0 <= k < i && given_id(#[trigger] links[k]) == given_id(links[i]);
        first_given(links, k)
    } else {
        i
    }
}

/// Where the links keep their groups and their owners, and differ in other columns alone,
/// the groups are led alike; and by links that can carry the same, where all links can.
pub proof fn groups_kept_are_led_alike(a: Tables, b: Tables, roll: Roll)
    requires
        a.links.len() == b.links.len(),
        forall|i: int|
            0 <= i < a.links.len() ==> given_id(#[trigger] a.links[i]) == given_id(b.links[i])
                && a.is_spared(roll, i) == b.is_spared(roll, i),
    ensures
        leads_agree(a, b, roll),
        a.capacity == b.capacity ==> limits_agree(a, b, roll),
{
    if a.capacity == b.capacity {
        assert forall|j: int|
            0 <= j < a.spared_links(roll).len() && given_id(
                (#[trigger] a.spared_links(roll)[j]).0,
            ) != 0 implies lead_capacity(a, given_id(a.spared_links(roll)[j].0)) == lead_capacity(
            b,
            given_id(a.spared_links(roll)[j].0),
        ) by {
            let f = |i: int|
                if a.is_spared(roll, i) {
                    seq![(a.links[i], a.capacity[i])]
                } else {
                    Seq::empty()
                };
            let (i, z) = gather_member(a.links.len() as int, f, j);
            let lead = first_given(a.links, i);
            assert(given_id(a.links[lead]) == given_id(b.links[lead]));
            assert forall|k: int| 0 <= k < lead implies given_id(#[trigger] b.links[k])
                != given_id(b.links[lead]) by {
                assert(given_id(a.links[k]) != given_id(a.links[lead]));
            }
            assert(leads_given(b.links, lead));
            lead_once(a, lead);
            lead_once(b, lead);
        }
    }
    assert forall|id: int| #[trigger] led_by_spared(a, roll, id) == led_by_spared(b, roll, id) by {
        if led_by_spared(a, roll, id) {
            let i = choose|i: int| #[trigger]
                leads_given(a.links, i) && given_id(a.links[i]) == id && a.is_spared(roll, i);
            assert forall|k: int| 0 <= k < i implies given_id(#[trigger] b.links[k]) != given_id(
                b.links[i],
            ) by {
                assert(given_id(a.links[k]) != given_id(a.links[i]));
            }
            assert(leads_given(b.links, i));
        }
        if led_by_spared(b, roll, id) {
            let i = choose|i: int| #[trigger]
                leads_given(b.links, i) && given_id(b.links[i]) == id && b.is_spared(roll, i);
            assert(given_id(a.links[i]) == given_id(b.links[i]));
            assert forall|k: int| 0 <= k < i implies given_id(#[trigger] a.links[k]) != given_id(
                a.links[i],
            ) by {
                assert(given_id(b.links[k]) != given_id(b.links[i]));
            }
            assert(leads_given(a.links, i));
        }
    }
}

/// Where two networks have the links and devices of operators that did not change in
/// common, in the same order, their consolidated edges have the edges of these operators
/// in common: the same edges, grouped alike, whatever links and devices of the other
/// operators were changed, added or taken away. Where the groups of links are led alike,
/// so are those of the edges, and likewise for what their first links can carry.
pub proof fn tables_carry_over(
    a: Tables,
    b: Tables,
    roll: Roll,
    flows: Seq<FlowRow>,
    publics: Seq<PublicRow>,
    bonus: Real,
)
    requires
        a.wf(),
        b.wf(),
        tables_agree(a, b, roll),
    ensures
        alike(
            untouched(a.edges(flows, publics, bonus), roll.changed, roll.players),
            untouched(b.edges(flows, publics, bonus), roll.changed, roll.players),
        ),
        leads_agree(a, b, roll) ==> leads_alike(
            a.edges(flows, publics, bonus),
            b.edges(flows, publics, bonus),
            roll.changed,
            roll.players,
        ),
        limits_agree(a, b, roll) ==> first_limits_alike(
            a.edges(flows, publics, bonus),
            b.edges(flows, publics, bonus),
            roll.changed,
            roll.players,
        ),
{
    let list = outline(a.spared_links(roll), a.spared_devices(roll), flows, publics, bonus);
    let x = roll.sifted(a.edges(flows, publics, bonus));
    let y = roll.sifted(b.edges(flows, publics, bonus));
    if list.len() > 0 {
        groups_by_label(a, roll, flows, publics, bonus, 0, 0);
        groups_by_label(b, roll, flows, publics, bonus, 0, 0);
    } else {
        edges_outlined(a, roll, flows, publics, bonus);
        edges_outlined(b, roll, flows, publics, bonus);
        sifted_compacted(
            roll,
            all_edges(a.links, a.capacity, a.devices, flows, publics, bonus),
        );
        sifted_compacted(
            roll,
            all_edges(b.links, b.capacity, b.devices, flows, publics, bonus),
        );
    }
    assert forall|j: int| 0 <= j < x.len() implies same_but_group(#[trigger] x[j], y[j]) && (
    x[j].shared == 0 <==> y[j].shared == 0) by {
        groups_by_label(a, roll, flows, publics, bonus, j, j);
        groups_by_label(b, roll, flows, publics, bonus, j, j);
    }
    assert forall|j: int, k: int| 0 <= j < x.len() && 0 <= k < x.len() implies ((
    #[trigger] x[j]).shared == (#[trigger] x[k]).shared <==> y[j].shared == y[k].shared) by {
        groups_by_label(a, roll, flows, publics, bonus, j, k);
        groups_by_label(b, roll, flows, publics, bonus, j, k);
    }
    if leads_agree(a, b, roll) {
        let (e, g) = (a.edges(flows, publics, bonus), b.edges(flows, publics, bonus));
        assert forall|j: int| 0 <= j < x.len() && (#[trigger] x[j]).shared
            > 0 implies leads_untouched(e, roll.changed, roll.players, x[j].shared)
            == leads_untouched(g, roll.changed, roll.players, y[j].shared) by {
            assert(same_but_group(x[j], y[j]));
            led_by_label(a, roll, flows, publics, bonus, j);
            led_by_label(b, roll, flows, publics, bonus, j);
            outline_known(a, roll, flows, publics, bonus);
            assert(is_known(a, roll, list[j].1));
            if let Label::Given { id, back } = list[j].1 {
                let k = choose|k: int|
                    0 <= k < a.spared_links(roll).len() && given_id(
                        (#[trigger] a.spared_links(roll)[k]).0,
                    ) == id;
                assert(given_id(a.spared_links(roll)[k].0) == id);
            }
        }
    }
    if limits_agree(a, b, roll) {
        let (e, g) = (a.edges(flows, publics, bonus), b.edges(flows, publics, bonus));
        assert forall|j: int| 0 <= j < x.len() && (#[trigger] x[j]).shared > 0 implies all_limits(
            e,
        )(x[j].shared) == all_limits(g)(y[j].shared) by {
            assert(same_but_group(x[j], y[j]));
            led_by_label(a, roll, flows, publics, bonus, j);
            led_by_label(b, roll, flows, publics, bonus, j);
            outline_known(a, roll, flows, publics, bonus);
            assert(is_known(a, roll, list[j].1));
            if let Label::Given { id, back } = list[j].1 {
                let k = choose|k: int|
                    0 <= k < a.spared_links(roll).len() && given_id(
                        (#[trigger] a.spared_links(roll)[k]).0,
                    ) == id;
                assert(given_id(a.spared_links(roll)[k].0) == id);
            }
        }
    }
}

} // verus!
