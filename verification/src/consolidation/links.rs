//! The edges that traffic can take, from the links, devices and demands given.
use crate::constants::{city_code, city_prefix, OP_PUBLIC, PUBLIC_SWITCH_SUFFIX};
use crate::error::{Fault, ShapleyError};
use crate::lists::{
    below, count_where, find_id, gather, gather_holds, gather_member, ordered, sort_ids, sorted_ids,
    sorted_of,
};
use crate::quantity::{whole, Real};
use crate::text::{
    begins_with, ends_with, finishes_with, join, same, sorted_list, sorted_unique, starts_with,
    views, views_push,
};
use crate::types::{
    ConsolidatedDemand, ConsolidatedLink, Device, DeviceRow, EdgeRow, FlowRow, PrivateLink,
    PrivateRow, PublicLink, PublicRow,
};
use vstd::prelude::*;

verus! {

/// The last device of that name, or -1.
pub open spec fn last_device(devices: Seq<DeviceRow>, name: Seq<char>) -> int
    decreases devices.len(),
{
    if devices.len() == 0 {
        -1
    } else if devices.last().device == name {
        devices.len() - 1
    } else {
        last_device(devices.drop_last(), name)
    }
}

/// The operator of a device: the last row of that name counts.
pub open spec fn operator_of(devices: Seq<DeviceRow>, name: Seq<char>) -> Seq<char> {
    devices[last_device(devices, name)].operator
}

/// A device of that name is listed.
pub open spec fn is_listed(devices: Seq<DeviceRow>, name: Seq<char>) -> bool {
    last_device(devices, name) >= 0
}

/// A name is found where it stands last.
pub proof fn last_device_found(devices: Seq<DeviceRow>, name: Seq<char>)
    ensures
        -1 <= last_device(devices, name) < devices.len(),
        is_listed(devices, name) ==> devices[last_device(devices, name)].device == name,
        forall|k: int|
            last_device(devices, name) < k < devices.len() ==> (#[trigger] devices[k]).device
                != name,
    decreases devices.len(),
{
    if devices.len() > 0 && devices.last().device != name {
        last_device_found(devices.drop_last(), name);
        let front = devices.drop_last();
        assert forall|k: int| last_device(devices, name) < k < devices.len() implies (
        #[trigger] devices[k]).device != name by {
            if k < front.len() {
                assert(front[k] == devices[k]);
            }
        }
    }
}

/// Finds the last device of that name.
pub fn find_device(devices: &[Device], name: &str) -> (r: Option<usize>)
    ensures
        r is Some <==> is_listed(views(devices@), name@),
        r matches Some(p) ==> p == last_device(views(devices@), name@) && p < devices@.len(),
{
    let ghost rows = views(devices@);
    let mut i: usize = devices.len();
    assert(rows.take(i as int) =~= rows);
    while i > 0
        invariant
            i <= devices@.len(),
            rows == views(devices@),
            last_device(rows, name@) == last_device(rows.take(i as int), name@),
        decreases i,
    {
        assert(rows.take(i as int).last() == devices@[i - 1]@);
        assert(rows.take(i as int).drop_last() =~= rows.take(i - 1));
        if same(devices[i - 1].device.as_str(), name) {
            return Some(i - 1);
        }
        i = i - 1;
    }
    None
}

/// The bandwidth group that a link was given with; zero stands for none.
pub open spec fn given_id(link: PrivateRow) -> int {
    match link.shared {
        Some(id) => id as int,
        None => 0,
    }
}

/// The largest group given.
pub open spec fn top_id(links: Seq<PrivateRow>) -> int
    decreases links.len(),
{
    if links.len() == 0 {
        0
    } else {
        let rest = top_id(links.drop_last());
        if given_id(links.last()) > rest {
            given_id(links.last())
        } else {
            rest
        }
    }
}

/// How many of the first `n` links were given no group.
pub open spec fn ungrouped(links: Seq<PrivateRow>, n: int) -> nat {
    count_where(n, |i: int| given_id(links[i]) == 0)
}

/// The group of a link: the one given, else one of its own beyond all given.
pub open spec fn link_id(links: Seq<PrivateRow>, i: int) -> int {
    if given_id(links[i]) != 0 {
        given_id(links[i])
    } else {
        top_id(links) + 1 + ungrouped(links, i)
    }
}

/// How many group numbers one direction of the links takes up.
pub open spec fn id_span(links: Seq<PrivateRow>) -> int {
    top_id(links) + ungrouped(links, links.len() as int)
}

/// All group numbers fit.
pub open spec fn ids_fit(links: Seq<PrivateRow>, n_devices: int) -> bool {
    2 * id_span(links) + 2 * n_devices + 1 <= u32::MAX
}

/// Every group given lies within the span.
pub proof fn given_within(links: Seq<PrivateRow>)
    ensures
        top_id(links) >= 0,
        forall|i: int| 0 <= i < links.len() ==> given_id(#[trigger] links[i]) <= top_id(links),
    decreases links.len(),
{
    if links.len() > 0 {
        given_within(links.drop_last());
        assert forall|i: int| 0 <= i < links.len() implies given_id(#[trigger] links[i]) <= top_id(
            links,
        ) by {
            if i < links.len() - 1 {
                assert(links.drop_last()[i] == links[i]);
            }
        }
    }
}

/// The group of every link lies within the span.
pub proof fn link_id_within(links: Seq<PrivateRow>, i: int)
    requires
        0 <= i < links.len(),
    ensures
        0 < link_id(links, i) <= id_span(links),
{
    given_within(links);
    let p = |i: int| given_id(links[i]) == 0;
    crate::lists::count_grows(i, links.len() as int, p, p);
    crate::lists::count_grows(0, links.len() as int, p, p);
    crate::lists::count_grows(i + 1, links.len() as int, p, p);
}

/// Finds the largest group given, and how many links have none.
fn survey(links: &[PrivateLink]) -> (r: (u32, usize))
    ensures
        r.0 == top_id(views(links@)),
        r.1 == ungrouped(views(links@), links@.len() as int),
{
    let ghost rows = views(links@);
    let ghost p = |i: int| given_id(rows[i]) == 0;
    let mut top: u32 = 0;
    let mut bare: usize = 0;
    for i in 0..links.len()
        invariant
            rows == views(links@),
            p == (|i: int| given_id(rows[i]) == 0),
            top == top_id(rows.take(i as int)),
            bare == count_where(i as int, p),
            bare <= i,
    {
        assert(rows.take(i + 1).drop_last() =~= rows.take(i as int));
        assert(rows.take(i + 1).last() == links@[i as int]@);
        proof {
            given_within(rows.take(i as int));
        }
        match links[i].shared {
            Some(id) => {
                if id > top {
                    top = id;
                }
                if id == 0 {
                    bare = bare + 1;
                }
            },
            None => {
                bare = bare + 1;
            },
        }
    }
    assert(rows.take(links@.len() as int) =~= rows);
    (top, bare)
}

/// A private link in the direction given.
pub open spec fn forward_edge(
    links: Seq<PrivateRow>,
    capacity: Seq<Real>,
    devices: Seq<DeviceRow>,
    i: int,
) -> EdgeRow {
    EdgeRow {
        device1: links[i].device1,
        device2: links[i].device2,
        latency: links[i].latency,
        bandwidth: capacity[i],
        operator1: operator_of(devices, links[i].device1),
        operator2: operator_of(devices, links[i].device2),
        shared: link_id(links, i) as u32,
        link_type: 0,
    }
}

/// The same edge in the other direction, with a group of its own.
pub open spec fn turned(edge: EdgeRow, span: int) -> EdgeRow {
    EdgeRow {
        device1: edge.device2,
        device2: edge.device1,
        latency: edge.latency,
        bandwidth: edge.bandwidth,
        operator1: edge.operator2,
        operator2: edge.operator1,
        shared: (edge.shared + span) as u32,
        link_type: 0,
    }
}

/// The private links in the direction given.
pub open spec fn forward_edges(
    links: Seq<PrivateRow>,
    capacity: Seq<Real>,
    devices: Seq<DeviceRow>,
) -> Seq<EdgeRow> {
    Seq::new(links.len(), |i: int| forward_edge(links, capacity, devices, i))
}

/// The private links in the other direction.
pub open spec fn reverse_edges(
    links: Seq<PrivateRow>,
    capacity: Seq<Real>,
    devices: Seq<DeviceRow>,
) -> Seq<EdgeRow> {
    Seq::new(
        links.len(),
        |i: int| turned(forward_edge(links, capacity, devices, i), id_span(links)),
    )
}

/// The end of the link that is not listed, the first end first.
pub open spec fn missing_end(link: PrivateRow, devices: Seq<DeviceRow>) -> Option<Seq<char>> {
    if !is_listed(devices, link.device1) {
        Some(link.device1)
    } else if !is_listed(devices, link.device2) {
        Some(link.device2)
    } else {
        None
    }
}

/// Both ends of every link are listed.
pub open spec fn ends_listed(links: Seq<PrivateRow>, devices: Seq<DeviceRow>) -> bool {
    forall|i: int| 0 <= i < links.len() ==> missing_end(#[trigger] links[i], devices) is None
}

/// The first link with an end that is not listed.
pub open spec fn first_broken(links: Seq<PrivateRow>, devices: Seq<DeviceRow>, i: int) -> bool {
    &&& 0 <= i < links.len()
    &&& missing_end(links[i], devices) is Some
    &&& forall|k: int| 0 <= k < i ==> missing_end(#[trigger] links[k], devices) is None
}

/// Makes the private edges in the direction given.
fn add_forward(
    out: &mut Vec<ConsolidatedLink>,
    links: &[PrivateLink],
    capacity: &[Real],
    devices: &[Device],
    top: u32,
) -> (r: Result<(), ShapleyError>)
    requires
        capacity@.len() == links@.len(),
        top == top_id(views(links@)),
        ids_fit(views(links@), devices@.len() as int),
    ensures
        r is Ok <==> ends_listed(views(links@), views(devices@)),
        r is Ok ==> views(final(out)@) == views(old(out)@) + forward_edges(
            views(links@),
            capacity@,
            views(devices@),
        ),
        r matches Err(e) ==> exists|i: int| #[trigger]
            first_broken(views(links@), views(devices@), i) && e@ == Fault::MissingDevice(
                missing_end(views(links@)[i], views(devices@))->0,
            ),
{
    let ghost rows = views(links@);
    let ghost devs = views(devices@);
    let ghost all = forward_edges(rows, capacity@, devs);
    let ghost p = |i: int| given_id(rows[i]) == 0;
    let mut bare: u32 = 0;
    assert(views(out@) =~= views(old(out)@) + all.take(0));
    for i in 0..links.len()
        invariant
            capacity@.len() == links@.len(),
            rows == views(links@),
            devs == views(devices@),
            all == forward_edges(rows, capacity@, devs),
            p == (|i: int| given_id(rows[i]) == 0),
            top == top_id(rows),
            ids_fit(rows, devices@.len() as int),
            bare == count_where(i as int, p),
            views(out@) == views(old(out)@) + all.take(i as int),
            forall|k: int| 0 <= k < i ==> missing_end(#[trigger] rows[k], devs) is None,
    {
        let link = &links[i];
        assert(link@ == rows[i as int]);
        let one = match find_device(devices, link.device1.as_str()) {
            Some(at) => at,
            None => {
                assert(first_broken(rows, devs, i as int));
                return Err(ShapleyError::MissingDevice(link.device1.clone()));
            },
        };
        let two = match find_device(devices, link.device2.as_str()) {
            Some(at) => at,
            None => {
                assert(first_broken(rows, devs, i as int));
                return Err(ShapleyError::MissingDevice(link.device2.clone()));
            },
        };
        proof {
            link_id_within(rows, i as int);
        }
        let given: u32 = match link.shared {
            Some(id) => id,
            None => 0,
        };
        let id: u32 = if given == 0 {
            top + 1 + bare
        } else {
            given
        };
        if given == 0 {
            bare = bare + 1;
        }
        let edge = ConsolidatedLink {
            device1: link.device1.clone(),
            device2: link.device2.clone(),
            latency: link.latency,
            bandwidth: capacity[i],
            operator1: devices[one].operator.clone(),
            operator2: devices[two].operator.clone(),
            shared: id,
            link_type: 0,
        };
        proof {
            assert(devs[one as int] == devices@[one as int]@);
            assert(devs[two as int] == devices@[two as int]@);
            assert(edge@ == all[i as int]);
            views_push(out@, edge);
            assert(all.take(i + 1) =~= all.take(i as int).push(all[i as int]));
            assert(views(out@).push(edge@) =~= views(old(out)@) + all.take(i + 1));
        }
        out.push(edge);
    }
    assert(all.take(links@.len() as int) =~= all);
    Ok(())
}

/// Makes the private edges in the other direction, from those at the start of
/// the list.
fn add_reverse(out: &mut Vec<ConsolidatedLink>, span: u32)
    requires
        forall|i: int|
            0 <= i < old(out)@.len() ==> (#[trigger] old(out)@[i]).shared + span <= u32::MAX,
    ensures
        views(final(out)@) == views(old(out)@) + Seq::new(
            old(out)@.len(),
            |i: int| turned(views(old(out)@)[i], span as int),
        ),
{
    let n: usize = out.len();
    let ghost start = views(out@);
    let ghost all = Seq::new(start.len(), |i: int| turned(start[i], span as int));
    assert(views(out@) =~= start + all.take(0));
    for i in 0..n
        invariant
            n == old(out)@.len(),
            start == views(old(out)@),
            all == Seq::new(start.len(), |i: int| turned(start[i], span as int)),
            views(out@) == start + all.take(i as int),
            forall|i: int|
                0 <= i < old(out)@.len() ==> (#[trigger] old(out)@[i]).shared + span <= u32::MAX,
    {
        assert(out@.len() == views(out@).len());
        assert(views(out@)[i as int] == start[i as int]);
        assert(out@[i as int]@ == old(out)@[i as int]@);
        let link = &out[i];
        let edge = ConsolidatedLink {
            device1: link.device2.clone(),
            device2: link.device1.clone(),
            latency: link.latency,
            bandwidth: link.bandwidth,
            operator1: link.operator2.clone(),
            operator2: link.operator1.clone(),
            shared: link.shared + span,
            link_type: 0,
        };
        proof {
            assert(edge@ == all[i as int]);
            views_push(out@, edge);
            assert(all.take(i + 1) =~= all.take(i as int).push(all[i as int]));
            assert(views(out@).push(edge@) =~= start + all.take(i + 1));
        }
        out.push(edge);
    }
    assert(all.take(n as int) =~= all);
}

/// The group of what enters the network at a device.
pub open spec fn entry_id(devices: Seq<DeviceRow>, span: int, name: Seq<char>) -> int {
    2 * span + 1 + last_device(devices, name)
}

/// The group of what leaves the network at a device.
pub open spec fn exit_id(devices: Seq<DeviceRow>, span: int, name: Seq<char>) -> int {
    2 * span + 1 + devices.len() + last_device(devices, name)
}

/// The device serves the city: its name begins with the city's, and it is not a
/// public switch.
pub open spec fn serves(device: Seq<char>, city: Seq<char>) -> bool {
    begins_with(device, city) && !finishes_with(device, PUBLIC_SWITCH_SUFFIX@)
}

/// Whether the device serves the city.
fn does_serve(device: &str, city: &str) -> (r: bool)
    ensures
        r == serves(device@, city@),
{
    starts_with(device, city) && !ends_with(device, PUBLIC_SWITCH_SUFFIX)
}

/// The number zero.
pub open spec fn naught() -> Real {
    Real { bits: 0 }
}

/// The edge from a city into a device.
pub open spec fn entry_edge(
    devices: Seq<DeviceRow>,
    span: int,
    i: int,
    city: Seq<char>,
    latency: Real,
    kind: u32,
) -> EdgeRow {
    EdgeRow {
        device1: city,
        device2: devices[i].device,
        latency,
        bandwidth: whole(devices[i].edge as int),
        operator1: devices[i].operator,
        operator2: devices[i].operator,
        shared: entry_id(devices, span, devices[i].device) as u32,
        link_type: kind,
    }
}

/// The edge from a device out to a city.
pub open spec fn exit_edge(
    devices: Seq<DeviceRow>,
    span: int,
    i: int,
    city: Seq<char>,
    latency: Real,
    kind: u32,
) -> EdgeRow {
    EdgeRow {
        device1: devices[i].device,
        device2: city,
        latency,
        bandwidth: whole(devices[i].edge as int),
        operator1: devices[i].operator,
        operator2: devices[i].operator,
        shared: exit_id(devices, span, devices[i].device) as u32,
        link_type: kind,
    }
}

/// The edges by which one kind of traffic enters the private network in a city.
pub open spec fn on_ramps(
    devices: Seq<DeviceRow>,
    span: int,
    city: Seq<char>,
    kind: u32,
) -> Seq<EdgeRow> {
    gather(
        devices.len() as int,
        |i: int|
            if serves(devices[i].device, city) {
                seq![entry_edge(devices, span, i, city, naught(), kind)]
            } else {
                Seq::empty()
            },
    )
}

/// The edges by which one kind of traffic leaves the private network in a city.
pub open spec fn off_ramps(
    devices: Seq<DeviceRow>,
    span: int,
    city: Seq<char>,
    kind: u32,
) -> Seq<EdgeRow> {
    gather(
        devices.len() as int,
        |i: int|
            if serves(devices[i].device, city) {
                seq![exit_edge(devices, span, i, city, naught(), kind)]
            } else {
                Seq::empty()
            },
    )
}

/// The name of a city's public switch.
pub open spec fn switch_of(city: Seq<char>) -> Seq<char> {
    city + PUBLIC_SWITCH_SUFFIX@
}

/// The edges between the devices and the public switch of a city, out and in
/// for each device.
pub open spec fn crossings(
    devices: Seq<DeviceRow>,
    span: int,
    city: Seq<char>,
    bonus: Real,
) -> Seq<EdgeRow> {
    gather(
        devices.len() as int,
        |i: int|
            if serves(devices[i].device, city) {
                seq![
                    exit_edge(devices, span, i, switch_of(city), bonus, 0),
                    entry_edge(devices, span, i, switch_of(city), bonus, 0),
                ]
            } else {
                Seq::empty()
            },
    )
}

/// Makes the edge from a city into a device.
fn enter(
    devices: &[Device],
    span: u32,
    i: usize,
    city: &str,
    latency: Real,
    kind: u32,
) -> (r: ConsolidatedLink)
    requires
        i < devices@.len(),
        2 * span + 2 * devices@.len() + 1 <= u32::MAX,
    ensures
        r@ == entry_edge(views(devices@), span as int, i as int, city@, latency, kind),
{
    let ghost rows = views(devices@);
    assert(rows[i as int] == devices@[i as int]@);
    proof {
        last_device_found(rows, rows[i as int].device);
    }
    let at: usize = match find_device(devices, devices[i].device.as_str()) {
        Some(at) => at,
        None => i,
    };
    ConsolidatedLink {
        device1: city.to_owned(),
        device2: devices[i].device.clone(),
        latency,
        bandwidth: Real::from_count(devices[i].edge),
        operator1: devices[i].operator.clone(),
        operator2: devices[i].operator.clone(),
        shared: 2 * span + 1 + at as u32,
        link_type: kind,
    }
}

/// Makes the edge from a device out to a city.
fn leave(
    devices: &[Device],
    span: u32,
    i: usize,
    city: &str,
    latency: Real,
    kind: u32,
) -> (r: ConsolidatedLink)
    requires
        i < devices@.len(),
        2 * span + 2 * devices@.len() + 1 <= u32::MAX,
    ensures
        r@ == exit_edge(views(devices@), span as int, i as int, city@, latency, kind),
{
    let ghost rows = views(devices@);
    assert(rows[i as int] == devices@[i as int]@);
    proof {
        last_device_found(rows, rows[i as int].device);
    }
    let at: usize = match find_device(devices, devices[i].device.as_str()) {
        Some(at) => at,
        None => i,
    };
    ConsolidatedLink {
        device1: devices[i].device.clone(),
        device2: city.to_owned(),
        latency,
        bandwidth: Real::from_count(devices[i].edge),
        operator1: devices[i].operator.clone(),
        operator2: devices[i].operator.clone(),
        shared: 2 * span + 1 + devices.len() as u32 + at as u32,
        link_type: kind,
    }
}

/// Appends an edge.
fn append_edge(out: &mut Vec<ConsolidatedLink>, edge: ConsolidatedLink)
    ensures
        views(final(out)@) == views(old(out)@).push(edge@),
{
    proof {
        views_push(out@, edge);
    }
    out.push(edge);
}

/// Appends the edges into the private network in a city.
fn add_on_ramps(
    out: &mut Vec<ConsolidatedLink>,
    devices: &[Device],
    span: u32,
    city: &str,
    kind: u32,
)
    requires
        2 * span + 2 * devices@.len() + 1 <= u32::MAX,
    ensures
        views(final(out)@) == views(old(out)@) + on_ramps(
            views(devices@),
            span as int,
            city@,
            kind,
        ),
{
    let ghost rows = views(devices@);
    let ghost start = views(out@);
    let ghost f = |i: int|
        if serves(rows[i].device, city@) {
            seq![entry_edge(rows, span as int, i, city@, naught(), kind)]
        } else {
            Seq::empty()
        };
    assert(start =~= start + gather(0, f));
    for i in 0..devices.len()
        invariant
            2 * span + 2 * devices@.len() + 1 <= u32::MAX,
            rows == views(devices@),
            f == (|i: int|
                if serves(rows[i].device, city@) {
                    seq![entry_edge(rows, span as int, i, city@, naught(), kind)]
                } else {
                    Seq::<EdgeRow>::empty()
                }),
            views(out@) == start + gather(i as int, f),
    {
        let ghost before = views(out@);
        if does_serve(devices[i].device.as_str(), city) {
            append_edge(out, enter(devices, span, i, city, Real { bits: 0 }, kind));
        }
        assert(views(out@) =~= before + f(i as int));
        assert(views(out@) =~= start + gather(i + 1, f));
    }
}

/// Appends the edges out of the private network in a city.
fn add_off_ramps(
    out: &mut Vec<ConsolidatedLink>,
    devices: &[Device],
    span: u32,
    city: &str,
    kind: u32,
)
    requires
        2 * span + 2 * devices@.len() + 1 <= u32::MAX,
    ensures
        views(final(out)@) == views(old(out)@) + off_ramps(
            views(devices@),
            span as int,
            city@,
            kind,
        ),
{
    let ghost rows = views(devices@);
    let ghost start = views(out@);
    let ghost f = |i: int|
        if serves(rows[i].device, city@) {
            seq![exit_edge(rows, span as int, i, city@, naught(), kind)]
        } else {
            Seq::empty()
        };
    assert(start =~= start + gather(0, f));
    for i in 0..devices.len()
        invariant
            2 * span + 2 * devices@.len() + 1 <= u32::MAX,
            rows == views(devices@),
            f == (|i: int|
                if serves(rows[i].device, city@) {
                    seq![exit_edge(rows, span as int, i, city@, naught(), kind)]
                } else {
                    Seq::<EdgeRow>::empty()
                }),
            views(out@) == start + gather(i as int, f),
    {
        let ghost before = views(out@);
        if does_serve(devices[i].device.as_str(), city) {
            append_edge(out, leave(devices, span, i, city, Real { bits: 0 }, kind));
        }
        assert(views(out@) =~= before + f(i as int));
        assert(views(out@) =~= start + gather(i + 1, f));
    }
}

/// Appends the edges between the devices and the public switch of a city.
fn add_crossings(
    out: &mut Vec<ConsolidatedLink>,
    devices: &[Device],
    span: u32,
    city: &str,
    bonus: Real,
)
    requires
        2 * span + 2 * devices@.len() + 1 <= u32::MAX,
    ensures
        views(final(out)@) == views(old(out)@) + crossings(
            views(devices@),
            span as int,
            city@,
            bonus,
        ),
{
    let ghost rows = views(devices@);
    let ghost start = views(out@);
    let switch = join(city, PUBLIC_SWITCH_SUFFIX);
    let ghost f = |i: int|
        if serves(rows[i].device, city@) {
            seq![
                exit_edge(rows, span as int, i, switch_of(city@), bonus, 0),
                entry_edge(rows, span as int, i, switch_of(city@), bonus, 0),
            ]
        } else {
            Seq::empty()
        };
    assert(start =~= start + gather(0, f));
    for i in 0..devices.len()
        invariant
            2 * span + 2 * devices@.len() + 1 <= u32::MAX,
            rows == views(devices@),
            switch@ == switch_of(city@),
            f == (|i: int|
                if serves(rows[i].device, city@) {
                    seq![
                        exit_edge(rows, span as int, i, switch_of(city@), bonus, 0),
                        entry_edge(rows, span as int, i, switch_of(city@), bonus, 0),
                    ]
                } else {
                    Seq::<EdgeRow>::empty()
                }),
            views(out@) == start + gather(i as int, f),
    {
        let ghost before = views(out@);
        if does_serve(devices[i].device.as_str(), city) {
            append_edge(out, leave(devices, span, i, switch.as_str(), bonus, 0));
            append_edge(out, enter(devices, span, i, switch.as_str(), bonus, 0));
        }
        assert(views(out@) =~= before + f(i as int));
        assert(views(out@) =~= start + gather(i + 1, f));
    }
}

/// An edge of the public network, whose bandwidth is not limited.
pub open spec fn public_edge(from: Seq<char>, to: Seq<char>, latency: Real, kind: u32) -> EdgeRow {
    EdgeRow {
        device1: from,
        device2: to,
        latency,
        bandwidth: naught(),
        operator1: OP_PUBLIC@,
        operator2: OP_PUBLIC@,
        shared: 0,
        link_type: kind,
    }
}

/// Makes an edge of the public network.
fn make_public(from: String, to: String, latency: Real, kind: u32) -> (r: ConsolidatedLink)
    ensures
        r@ == public_edge(from@, to@, latency, kind),
{
    ConsolidatedLink {
        device1: from,
        device2: to,
        latency,
        bandwidth: Real { bits: 0 },
        operator1: OP_PUBLIC.to_owned(),
        operator2: OP_PUBLIC.to_owned(),
        shared: 0,
        link_type: kind,
    }
}

/// Both directions of one public link.
pub open spec fn public_pair(link: PublicRow) -> Seq<EdgeRow> {
    seq![
        public_edge(switch_of(link.city1), switch_of(link.city2), link.latency, 0),
        public_edge(switch_of(link.city2), switch_of(link.city1), link.latency, 0),
    ]
}

/// The public links, both directions of each.
pub open spec fn public_pairs(publics: Seq<PublicRow>) -> Seq<EdgeRow> {
    gather(publics.len() as int, |i: int| public_pair(publics[i]))
}

/// Appends the public links.
fn add_public_pairs(out: &mut Vec<ConsolidatedLink>, publics: &[PublicLink])
    ensures
        views(final(out)@) == views(old(out)@) + public_pairs(views(publics@)),
{
    let ghost rows = views(publics@);
    let ghost start = views(out@);
    let ghost f = |i: int| public_pair(rows[i]);
    assert(start =~= start + gather(0, f));
    for i in 0..publics.len()
        invariant
            rows == views(publics@),
            f == (|i: int| public_pair(rows[i])),
            views(out@) == start + gather(i as int, f),
    {
        let ghost before = views(out@);
        let link = &publics[i];
        append_edge(
            out,
            make_public(
                join(link.city1.as_str(), PUBLIC_SWITCH_SUFFIX),
                join(link.city2.as_str(), PUBLIC_SWITCH_SUFFIX),
                link.latency,
                0,
            ),
        );
        append_edge(
            out,
            make_public(
                join(link.city2.as_str(), PUBLIC_SWITCH_SUFFIX),
                join(link.city1.as_str(), PUBLIC_SWITCH_SUFFIX),
                link.latency,
                0,
            ),
        );
        assert(rows[i as int] == link@);
        assert(views(out@) =~= before + f(i as int));
        assert(views(out@) =~= start + gather(i + 1, f));
    }
}

/// The kinds of the flows.
pub open spec fn kinds_of(flows: Seq<FlowRow>) -> Seq<u32> {
    Seq::new(flows.len(), |i: int| flows[i].kind)
}

/// The first flow of a kind.
pub open spec fn leads(flows: Seq<FlowRow>, kind: u32, i: int) -> bool {
    &&& 0 <= i < flows.len()
    &&& flows[i].kind == kind
    &&& forall|k: int| 0 <= k < i ==> (#[trigger] flows[k]).kind != kind
}

/// Where the flows of a kind start: the first one of them counts.
pub open spec fn source_of(flows: Seq<FlowRow>, kind: u32) -> Seq<char> {
    flows[choose|i: int| leads(flows, kind, i)].start
}

/// Where the flows of a kind end.
pub open spec fn ends_of(flows: Seq<FlowRow>, kind: u32) -> Seq<Seq<char>> {
    gather(
        flows.len() as int,
        |i: int|
            if flows[i].kind == kind {
                seq![flows[i].end]
            } else {
                Seq::empty()
            },
    )
}

/// Where the flows of a kind end, each city once, in order.
pub open spec fn stops_of(flows: Seq<FlowRow>, kind: u32) -> Seq<Seq<char>> {
    sorted_list(ends_of(flows, kind))
}

/// Finds the first flow of a kind.
fn find_lead(flows: &[ConsolidatedDemand], kind: u32) -> (r: usize)
    requires
        kinds_of(views(flows@)).contains(kind),
    ensures
        leads(views(flows@), kind, r as int),
        source_of(views(flows@), kind) == flows@[r as int].start@,
{
    let ghost rows = views(flows@);
    let ghost at = choose|at: int| 0 <= at < rows.len() && kinds_of(rows)[at] == kind;
    let mut i: usize = 0;
    while flows[i].kind != kind
        invariant
            rows == views(flows@),
            0 <= i <= at < rows.len(),
            kinds_of(rows)[at] == kind,
            forall|k: int| 0 <= k < i ==> (#[trigger] rows[k]).kind != kind,
        decreases at - i,
    {
        assert(rows[i as int] == flows@[i as int]@);
        i = i + 1;
    }
    assert(rows[i as int] == flows@[i as int]@);
    proof {
        assert(leads(rows, kind, i as int));
        let j = choose|j: int| leads(rows, kind, j);
        if j < i {
            assert(rows[j].kind != kind);
        } else if i < j {
            assert(rows[i as int].kind != kind);
        }
    }
    i
}

/// Lists where the flows of a kind end.
fn find_stops(flows: &[ConsolidatedDemand], kind: u32) -> (r: Vec<String>)
    ensures
        views(r@) == stops_of(views(flows@), kind),
{
    let ghost rows = views(flows@);
    let ghost f = |i: int|
        if rows[i].kind == kind {
            seq![rows[i].end]
        } else {
            Seq::empty()
        };
    let mut ends: Vec<String> = Vec::new();
    assert(views(ends@) =~= gather(0, f));
    for i in 0..flows.len()
        invariant
            rows == views(flows@),
            f == (|i: int|
                if rows[i].kind == kind {
                    seq![rows[i].end]
                } else {
                    Seq::empty()
                }),
            views(ends@) == gather(i as int, f),
    {
        assert(rows[i as int] == flows@[i as int]@);
        let ghost before = views(ends@);
        if flows[i].kind == kind {
            proof {
                views_push(ends@, flows@[i as int].end);
            }
            ends.push(flows[i].end.clone());
        }
        assert(views(ends@) =~= before + f(i as int));
    }
    sorted_unique(&ends)
}

/// The edges of one kind of traffic into and out of the private network.
pub open spec fn private_ramps(
    devices: Seq<DeviceRow>,
    span: int,
    flows: Seq<FlowRow>,
    kind: u32,
) -> Seq<EdgeRow> {
    let stops = stops_of(flows, kind);
    on_ramps(devices, span, source_of(flows, kind), kind) + gather(
        stops.len() as int,
        |d: int| off_ramps(devices, span, stops[d], kind),
    )
}

/// The edges of one kind of traffic into and out of the public network.
pub open spec fn public_ramps(flows: Seq<FlowRow>, kind: u32) -> Seq<EdgeRow> {
    let source = source_of(flows, kind);
    let stops = stops_of(flows, kind);
    seq![public_edge(source, switch_of(source), naught(), kind)] + gather(
        stops.len() as int,
        |d: int| seq![public_edge(switch_of(stops[d]), stops[d], naught(), kind)],
    )
}

/// Appends the edges of one kind of traffic into and out of the private network.
fn add_private_ramps(
    out: &mut Vec<ConsolidatedLink>,
    devices: &[Device],
    span: u32,
    flows: &[ConsolidatedDemand],
    kind: u32,
)
    requires
        kinds_of(views(flows@)).contains(kind),
        2 * span + 2 * devices@.len() + 1 <= u32::MAX,
    ensures
        views(final(out)@) == views(old(out)@) + private_ramps(
            views(devices@),
            span as int,
            views(flows@),
            kind,
        ),
{
    let ghost rows = views(devices@);
    let lead: usize = find_lead(flows, kind);
    let stops = find_stops(flows, kind);
    let ghost cities = stops_of(views(flows@), kind);
    add_on_ramps(out, devices, span, flows[lead].start.as_str(), kind);
    let ghost start = views(out@);
    let ghost f = |d: int| off_ramps(rows, span as int, cities[d], kind);
    assert(start =~= start + gather(0, f));
    for d in 0..stops.len()
        invariant
            2 * span + 2 * devices@.len() + 1 <= u32::MAX,
            rows == views(devices@),
            cities == views(stops@),
            f == (|d: int| off_ramps(rows, span as int, cities[d], kind)),
            views(out@) == start + gather(d as int, f),
    {
        add_off_ramps(out, devices, span, stops[d].as_str(), kind);
        assert(cities[d as int] == stops@[d as int]@);
        assert(views(out@) =~= start + gather(d + 1, f));
    }
    assert(views(out@) =~= views(old(out)@) + private_ramps(
        rows,
        span as int,
        views(flows@),
        kind,
    ));
}

/// Appends the edges of one kind of traffic into and out of the public network.
fn add_public_ramps(out: &mut Vec<ConsolidatedLink>, flows: &[ConsolidatedDemand], kind: u32)
    requires
        kinds_of(views(flows@)).contains(kind),
    ensures
        views(final(out)@) == views(old(out)@) + public_ramps(views(flows@), kind),
{
    let lead: usize = find_lead(flows, kind);
    let stops = find_stops(flows, kind);
    let ghost cities = stops_of(views(flows@), kind);
    let source = flows[lead].start.as_str();
    append_edge(
        out,
        make_public(
            source.to_owned(),
            join(source, PUBLIC_SWITCH_SUFFIX),
            Real { bits: 0 },
            kind,
        ),
    );
    let ghost start = views(out@);
    let ghost f = |d: int| seq![public_edge(switch_of(cities[d]), cities[d], naught(), kind)];
    assert(start =~= start + gather(0, f));
    for d in 0..stops.len()
        invariant
            cities == views(stops@),
            f == (|d: int| seq![public_edge(switch_of(cities[d]), cities[d], naught(), kind)]),
            views(out@) == start + gather(d as int, f),
    {
        append_edge(
            out,
            make_public(
                join(stops[d].as_str(), PUBLIC_SWITCH_SUFFIX),
                stops[d].clone(),
                Real { bits: 0 },
                kind,
            ),
        );
        assert(cities[d as int] == stops@[d as int]@);
        assert(views(out@) =~= start + gather(d + 1, f));
    }
    assert(views(out@) =~= views(old(out)@) + public_ramps(views(flows@), kind));
}

/// The public network reaches the city.
pub open spec fn is_public_city(publics: Seq<PublicRow>, city: Seq<char>) -> bool {
    exists|i: int|
        0 <= i < publics.len() && ((#[trigger] publics[i]).city1 == city || publics[i].city2
            == city)
}

/// The city of a device, where the public network reaches it.
pub open spec fn shared_city(publics: Seq<PublicRow>, device: Seq<char>) -> Seq<Seq<char>> {
    match city_code(device) {
        Some(code) => if is_public_city(publics, code) {
            seq![code]
        } else {
            Seq::empty()
        },
        None => Seq::empty(),
    }
}

/// The cities that both networks reach, each once, in order.
pub open spec fn shared_cities(devices: Seq<DeviceRow>, publics: Seq<PublicRow>) -> Seq<
    Seq<char>,
> {
    sorted_list(
        gather(devices.len() as int, |i: int| shared_city(publics, devices[i].device)),
    )
}

/// Whether the public network reaches the city.
pub fn find_public_city(publics: &[PublicLink], city: &str) -> (r: bool)
    ensures
        r == is_public_city(views(publics@), city@),
{
    let ghost rows = views(publics@);
    for i in 0..publics.len()
        invariant
            rows == views(publics@),
            forall|k: int|
                0 <= k < i ==> (#[trigger] rows[k]).city1 != city@ && rows[k].city2 != city@,
    {
        assert(rows[i as int] == publics@[i as int]@);
        if same(publics[i].city1.as_str(), city) || same(publics[i].city2.as_str(), city) {
            return true;
        }
    }
    false
}

/// Lists the cities that both networks reach.
fn find_shared_cities(devices: &[Device], publics: &[PublicLink]) -> (r: Vec<String>)
    ensures
        views(r@) == shared_cities(views(devices@), views(publics@)),
{
    let ghost rows = views(devices@);
    let ghost roads = views(publics@);
    let ghost f = |i: int| shared_city(roads, rows[i].device);
    let mut cities: Vec<String> = Vec::new();
    assert(views(cities@) =~= gather(0, f));
    for i in 0..devices.len()
        invariant
            rows == views(devices@),
            roads == views(publics@),
            f == (|i: int| shared_city(roads, rows[i].device)),
            views(cities@) == gather(i as int, f),
    {
        assert(rows[i as int] == devices@[i as int]@);
        let ghost before = views(cities@);
        match city_prefix(devices[i].device.as_str()) {
            Some(code) => {
                if find_public_city(publics, code) {
                    let city = code.to_owned();
                    proof {
                        views_push(cities@, city);
                    }
                    cities.push(city);
                }
            },
            None => {},
        }
        assert(views(cities@) =~= before + f(i as int));
    }
    sorted_unique(&cities)
}

/// The group numbers in use.
pub open spec fn used_ids(edges: Seq<EdgeRow>) -> Seq<u32> {
    gather(
        edges.len() as int,
        |i: int|
            if edges[i].shared > 0 {
                seq![edges[i].shared]
            } else {
                Seq::empty()
            },
    )
}

/// The place of a group among those in use, counted from one.
pub open spec fn dense_id(used: Seq<u32>, id: u32) -> u32 {
    if id == 0 {
        0
    } else {
        (sorted_ids(used).index_of(id) + 1) as u32
    }
}

/// The edge with its group counted among those in use.
pub open spec fn regrouped(edge: EdgeRow, used: Seq<u32>) -> EdgeRow {
    EdgeRow { shared: dense_id(used, edge.shared), ..edge }
}

/// The edges with the groups in use numbered from one without gaps.
pub open spec fn compacted(edges: Seq<EdgeRow>) -> Seq<EdgeRow> {
    Seq::new(edges.len(), |i: int| regrouped(edges[i], used_ids(edges)))
}

/// A list of numbers that ascend from one leaves room for no more than the
/// largest.
pub proof fn ordered_room(s: Seq<u32>, k: int)
    requires
        ordered(s, below()),
        0 <= k < s.len(),
        s[0] > 0,
    ensures
        k < s[k],
    decreases k,
{
    if k > 0 {
        ordered_room(s, k - 1);
        assert(below()(s[k - 1], s[k]));
    }
}

/// The sorted list of the groups in use: what it holds, and where.
pub proof fn used_listed(edges: Seq<EdgeRow>)
    requires
        sorted_of(sorted_ids(used_ids(edges)), used_ids(edges)),
    ensures
        forall|i: int|
            0 <= i < edges.len() && (#[trigger] edges[i]).shared > 0 ==> sorted_ids(
                used_ids(edges),
            ).contains(edges[i].shared),
        forall|k: int|
            0 <= k < sorted_ids(used_ids(edges)).len() ==> #[trigger] sorted_ids(
                used_ids(edges),
            )[k] > 0,
{
    let f = |i: int|
        if edges[i].shared > 0 {
            seq![edges[i].shared]
        } else {
            Seq::empty()
        };
    let used = used_ids(edges);
    let sorted = sorted_ids(used);
    assert(used == gather(edges.len() as int, f));
    assert forall|i: int| 0 <= i < edges.len() && (#[trigger] edges[i]).shared
        > 0 implies sorted.contains(edges[i].shared) by {
        assert(f(i)[0] == edges[i].shared);
        gather_holds(edges.len() as int, f, i, 0);
        assert(used.contains(edges[i].shared));
    }
    assert forall|k: int| 0 <= k < sorted.len() implies #[trigger] sorted[k] > 0 by {
        assert(sorted.contains(sorted[k]));
        assert(used.contains(sorted[k]));
        let m = choose|m: int| 0 <= m < used.len() && used[m] == sorted[k];
        let (i, j) = gather_member(edges.len() as int, f, m);
    }
}

/// Numbers the groups in use from one without gaps.
fn compact(edges: &mut Vec<ConsolidatedLink>)
    ensures
        views(final(edges)@) == compacted(views(old(edges)@)),
{
    let ghost rows = views(edges@);
    let ghost f = |i: int|
        if rows[i].shared > 0 {
            seq![rows[i].shared]
        } else {
            Seq::empty()
        };
    let mut ids: Vec<u32> = Vec::new();
    assert(ids@ =~= gather(0, f));
    for i in 0..edges.len()
        invariant
            rows == views(edges@),
            f == (|i: int|
                if rows[i].shared > 0 {
                    seq![rows[i].shared]
                } else {
                    Seq::empty()
                }),
            ids@ == gather(i as int, f),
    {
        assert(rows[i as int] == edges@[i as int]@);
        let ghost before = ids@;
        if edges[i].shared > 0 {
            ids.push(edges[i].shared);
        }
        assert(ids@ =~= before + f(i as int));
    }
    let sorted = sort_ids(ids.as_slice());
    proof {
        used_listed(rows);
    }
    let ghost whole_list = compacted(rows);
    let n: usize = edges.len();
    for i in 0..n
        invariant
            n == edges@.len(),
            n == rows.len(),
            whole_list == compacted(rows),
            ordered(sorted@, below()),
            sorted@ == sorted_ids(used_ids(rows)),
            forall|i: int|
                0 <= i < rows.len() && (#[trigger] rows[i]).shared > 0 ==> sorted@.contains(
                    rows[i].shared,
                ),
            forall|k: int| 0 <= k < sorted@.len() ==> #[trigger] sorted@[k] > 0,
            forall|k: int| 0 <= k < i ==> (#[trigger] edges@[k])@ == whole_list[k],
            forall|k: int| i <= k < n ==> (#[trigger] edges@[k])@ == rows[k],
    {
        let id: u32 = edges[i].shared;
        assert(edges@[i as int]@ == rows[i as int]);
        if id > 0 {
            match find_id(sorted.as_slice(), id) {
                Some(at) => {
                    proof {
                        let k = sorted@.index_of(id);
                        assert(0 <= k < sorted@.len() && sorted@[k] == id);
                        if k < at {
                            assert(below()(sorted@[k], sorted@[at as int]));
                        } else if at < k {
                            assert(below()(sorted@[at as int], sorted@[k]));
                        }
                        ordered_room(sorted@, at as int);
                    }
                    edges[i].shared = at as u32 + 1;
                },
                None => {},
            }
        }
        assert(edges@[i as int]@ == whole_list[i as int]);
    }
    assert(views(edges@) =~= whole_list);
}

/// All edges, before their groups are renumbered: the private links in both
/// directions, the ways into and out of the private network, the crossings to
/// the public one, and the public network.
pub open spec fn all_edges(
    links: Seq<PrivateRow>,
    capacity: Seq<Real>,
    devices: Seq<DeviceRow>,
    flows: Seq<FlowRow>,
    publics: Seq<PublicRow>,
    bonus: Real,
) -> Seq<EdgeRow> {
    let span = id_span(links);
    let types = sorted_ids(kinds_of(flows));
    let cities = shared_cities(devices, publics);
    forward_edges(links, capacity, devices) + reverse_edges(links, capacity, devices) + gather(
        types.len() as int,
        |t: int| private_ramps(devices, span, flows, types[t]),
    ) + gather(cities.len() as int, |c: int| crossings(devices, span, cities[c], bonus))
        + public_pairs(publics) + gather(
        types.len() as int,
        |t: int| public_ramps(flows, types[t]),
    )
}

/// Makes the edges that traffic can take. `capacity` gives the bandwidth of each
/// private link after the penalty for its downtime, `contiguity_bonus` the
/// latency of a crossing between the private and the public network.
pub fn consolidate_links(
    private_links: &[PrivateLink],
    capacity: &[Real],
    devices: &[Device],
    demands: &[ConsolidatedDemand],
    public_links: &[PublicLink],
    contiguity_bonus: Real,
) -> (r: Result<Vec<ConsolidatedLink>, ShapleyError>)
    requires
        capacity@.len() == private_links@.len(),
        ids_fit(views(private_links@), devices@.len() as int),
    ensures
        r is Ok <==> ends_listed(views(private_links@), views(devices@)),
        r matches Ok(edges) ==> views(edges@) == compacted(
            all_edges(
                views(private_links@),
                capacity@,
                views(devices@),
                views(demands@),
                views(public_links@),
                contiguity_bonus,
            ),
        ),
        r matches Err(e) ==> exists|i: int| #[trigger]
            first_broken(views(private_links@), views(devices@), i) && e@ == Fault::MissingDevice(
                missing_end(views(private_links@)[i], views(devices@))->0,
            ),
{
    let ghost links = views(private_links@);
    let ghost rows = views(devices@);
    let ghost flows = views(demands@);
    let ghost roads = views(public_links@);
    let (top, bare) = survey(private_links);
    proof {
        given_within(links);
    }
    let span: u32 = top + bare as u32;
    let mut out: Vec<ConsolidatedLink> = Vec::new();
    let ghost empty = views(out@);
    match add_forward(&mut out, private_links, capacity, devices, top) {
        Ok(_) => {},
        Err(e) => {
            return Err(e);
        },
    }
    let ghost ahead = forward_edges(links, capacity@, rows);
    assert(views(out@) =~= ahead);
    proof {
        assert forall|i: int| 0 <= i < out@.len() implies (#[trigger] out@[i]).shared + span
            <= u32::MAX by {
            assert(out@.len() == views(out@).len());
            assert(views(out@)[i] == ahead[i]);
            link_id_within(links, i);
        }
    }
    add_reverse(&mut out, span);
    assert(views(out@) =~= ahead + reverse_edges(links, capacity@, rows));
    let mut kinds: Vec<u32> = Vec::new();
    for i in 0..demands.len()
        invariant
            kinds@ == kinds_of(views(demands@)).take(i as int),
    {
        kinds.push(demands[i].kind);
        assert(kinds@ =~= kinds_of(views(demands@)).take(i + 1));
    }
    assert(kinds@ =~= kinds_of(flows));
    let types = sort_ids(kinds.as_slice());
    let ghost base = views(out@);
    let ghost f = |t: int| private_ramps(rows, span as int, flows, types@[t]);
    assert(base =~= base + gather(0, f));
    for t in 0..types.len()
        invariant
            2 * span + 2 * devices@.len() + 1 <= u32::MAX,
            rows == views(devices@),
            flows == views(demands@),
            sorted_of(types@, kinds_of(flows)),
            f == (|t: int| private_ramps(rows, span as int, flows, types@[t])),
            views(out@) == base + gather(t as int, f),
    {
        assert(types@.contains(types@[t as int]));
        add_private_ramps(&mut out, devices, span, demands, types[t]);
        assert(views(out@) =~= base + gather(t + 1, f));
    }
    let cities = find_shared_cities(devices, public_links);
    let ghost places = views(cities@);
    let ghost base2 = views(out@);
    let ghost g = |c: int| crossings(rows, span as int, places[c], contiguity_bonus);
    assert(base2 =~= base2 + gather(0, g));
    for c in 0..cities.len()
        invariant
            2 * span + 2 * devices@.len() + 1 <= u32::MAX,
            rows == views(devices@),
            places == views(cities@),
            g == (|c: int| crossings(rows, span as int, places[c], contiguity_bonus)),
            views(out@) == base2 + gather(c as int, g),
    {
        add_crossings(&mut out, devices, span, cities[c].as_str(), contiguity_bonus);
        assert(places[c as int] == cities@[c as int]@);
        assert(views(out@) =~= base2 + gather(c + 1, g));
    }
    add_public_pairs(&mut out, public_links);
    let ghost base3 = views(out@);
    let ghost h = |t: int| public_ramps(flows, types@[t]);
    assert(base3 =~= base3 + gather(0, h));
    for t in 0..types.len()
        invariant
            flows == views(demands@),
            sorted_of(types@, kinds_of(flows)),
            h == (|t: int| public_ramps(flows, types@[t])),
            views(out@) == base3 + gather(t as int, h),
    {
        assert(types@.contains(types@[t as int]));
        add_public_ramps(&mut out, demands, types[t]);
        assert(views(out@) =~= base3 + gather(t + 1, h));
    }
    assert(views(out@) =~= all_edges(links, capacity@, rows, flows, roads, contiguity_bonus));
    compact(&mut out);
    Ok(out)
}

/// Whether the numbers of all groups fit.
pub fn group_numbers_fit(private_links: &[PrivateLink], n_devices: usize) -> (r: bool)
    ensures
        r == ids_fit(views(private_links@), n_devices as int),
{
    let (top, bare) = survey(private_links);
    proof {
        given_within(views(private_links@));
    }
    2 * (top as u128 + bare as u128) + 2 * (n_devices as u128) + 1 <= u32::MAX as u128
}

/// Every private link can be taken in both directions: the second half of the
/// private edges mirrors the first, with the same latency and bandwidth, open to
/// all traffic.
pub proof fn links_go_both_ways(
    links: Seq<PrivateRow>,
    capacity: Seq<Real>,
    devices: Seq<DeviceRow>,
    flows: Seq<FlowRow>,
    publics: Seq<PublicRow>,
    bonus: Real,
    i: int,
)
    requires
        0 <= i < links.len(),
    ensures
        ({
            let edges = compacted(all_edges(links, capacity, devices, flows, publics, bonus));
            let ahead = edges[i];
            let back = edges[links.len() + i];
            &&& links.len() + i < edges.len()
            &&& ahead.device1 == links[i].device1 && ahead.device2 == links[i].device2
            &&& back.device1 == ahead.device2 && back.device2 == ahead.device1
            &&& back.operator1 == ahead.operator2 && back.operator2 == ahead.operator1
            &&& back.latency == ahead.latency && ahead.latency == links[i].latency
            &&& back.bandwidth == ahead.bandwidth && ahead.bandwidth == capacity[i]
            &&& back.link_type == 0 && ahead.link_type == 0
        }),
{
    let all = all_edges(links, capacity, devices, flows, publics, bonus);
    assert(all[i] == forward_edges(links, capacity, devices)[i]);
    assert(all[links.len() + i] == reverse_edges(links, capacity, devices)[i]);
}

/// The list of the groups in use is there.
proof fn used_sorted(edges: Seq<EdgeRow>)
    ensures
        sorted_of(sorted_ids(used_ids(edges)), used_ids(edges)),
{
    crate::lists::sorted_ids_exist(used_ids(edges));
}

/// Renumbering keeps the groups: two edges share their bandwidth afterwards if
/// and only if they did before, and an edge without a group stays without.
pub proof fn groups_are_kept(edges: Seq<EdgeRow>, i: int, j: int)
    requires
        0 <= i < edges.len(),
        0 <= j < edges.len(),
    ensures
        compacted(edges)[i].shared == compacted(edges)[j].shared <==> edges[i].shared
            == edges[j].shared,
        compacted(edges)[i].shared == 0 <==> edges[i].shared == 0,
{
    used_sorted(edges);
    used_listed(edges);
    let sorted = sorted_ids(used_ids(edges));
    if edges[i].shared > 0 {
        assert(sorted.contains(edges[i].shared));
        ordered_room(sorted, sorted.index_of(edges[i].shared));
    }
    if edges[j].shared > 0 {
        assert(sorted.contains(edges[j].shared));
        ordered_room(sorted, sorted.index_of(edges[j].shared));
    }
}

/// After renumbering, the groups are numbered from one without gaps: below the
/// group of an edge, every positive number is the group of some edge.
pub proof fn groups_are_dense(edges: Seq<EdgeRow>, i: int, id: u32) -> (j: int)
    requires
        0 <= i < edges.len(),
        0 < id <= compacted(edges)[i].shared,
    ensures
        0 <= j < edges.len(),
        compacted(edges)[j].shared == id,
{
    used_sorted(edges);
    used_listed(edges);
    let used = used_ids(edges);
    let sorted = sorted_ids(used);
    assert(sorted.contains(edges[i].shared));
    let at = sorted.index_of(edges[i].shared);
    ordered_room(sorted, at);
    let old_id = sorted[id - 1];
    assert(sorted.contains(old_id));
    assert(used.contains(old_id));
    let m = choose|m: int| 0 <= m < used.len() && used[m] == old_id;
    let f = |i: int|
        if edges[i].shared > 0 {
            seq![edges[i].shared]
        } else {
            Seq::empty()
        };
    assert(used == gather(edges.len() as int, f));
    let (j, k) = gather_member(edges.len() as int, f, m);
    assert(edges[j].shared == old_id);
    let q = sorted.index_of(old_id);
    assert(0 <= q < sorted.len() && sorted[q] == old_id);
    if q < id - 1 {
        assert(below()(sorted[q], sorted[id - 1]));
    } else if q > id - 1 {
        assert(below()(sorted[id - 1], sorted[q]));
    }
    j
}

} // verus!
