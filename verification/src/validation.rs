//! What a network has to be like before anything is computed of it.
use crate::consolidation::links::{find_public_city, is_public_city};
use crate::constants::{MAX_OPERATORS, OP_PUBLIC};
use crate::error::{Fault, ShapleyError};
use crate::lists::gather;
use crate::quantity::{ONE, Real};
use crate::shapley::{enumerable_players, find_players, players_of};
use crate::text::{decimal, has_digit, holds_digit, join, numeral, same, views};
use crate::types::{
    Demand, DemandRow, Device, DeviceRow, PrivateLink, PrivateRow, PublicLink, PublicRow,
    ShapleyInput,
};
use vstd::prelude::*;

verus! {

/// The first of the names that meets the condition.
pub open spec fn first_where(names: Seq<Seq<char>>, p: spec_fn(Seq<char>) -> bool) -> Option<
    Seq<char>,
>
    decreases names.len(),
{
    if names.len() == 0 {
        None
    } else if p(names[0]) {
        Some(names[0])
    } else {
        first_where(names.drop_first(), p)
    }
}

/// Names that do not meet the condition can be passed over.
proof fn first_where_skips(names: Seq<Seq<char>>, p: spec_fn(Seq<char>) -> bool, i: int)
    requires
        0 <= i <= names.len(),
        forall|k: int| 0 <= k < i ==> !p(#[trigger] names[k]),
    ensures
        first_where(names, p) == first_where(names.skip(i), p),
    decreases i,
{
    if i == 0 {
        assert(names.skip(0) =~= names);
    } else {
        assert(!p(names[0]));
        let rest = names.drop_first();
        assert forall|k: int| 0 <= k < i - 1 implies !p(#[trigger] rest[k]) by {
            assert(rest[k] == names[k + 1]);
        }
        first_where_skips(rest, p, i - 1);
        assert(rest.skip(i - 1) =~= names.skip(i));
    }
}

/// The first name that meets the condition, found.
proof fn first_where_found(names: Seq<Seq<char>>, p: spec_fn(Seq<char>) -> bool, i: int)
    requires
        0 <= i <= names.len(),
        forall|k: int| 0 <= k < i ==> !p(#[trigger] names[k]),
        i < names.len() ==> p(names[i]),
    ensures
        first_where(names, p) == if i < names.len() {
            Some(names[i])
        } else {
            None
        },
{
    first_where_skips(names, p, i);
    if i < names.len() {
        assert(names.skip(i)[0] == names[i]);
    }
}

/// Where none is found, no name meets the condition.
pub proof fn none_where(names: Seq<Seq<char>>, p: spec_fn(Seq<char>) -> bool)
    requires
        first_where(names, p) is None,
    ensures
        forall|k: int| 0 <= k < names.len() ==> !p(#[trigger] names[k]),
    decreases names.len(),
{
    if names.len() > 0 {
        let rest = names.drop_first();
        none_where(rest, p);
        assert forall|k: int| 0 <= k < names.len() implies !p(#[trigger] names[k]) by {
            if k > 0 {
                assert(rest[k - 1] == names[k]);
            }
        }
    }
}

/// The names of cities on the public network, both ends of each link.
pub open spec fn public_ends(publics: Seq<PublicRow>) -> Seq<Seq<char>> {
    gather(publics.len() as int, |i: int| seq![publics[i].city1, publics[i].city2])
}

/// The names of cities of demands, both ends of each.
pub open spec fn demand_ends(demands: Seq<DemandRow>) -> Seq<Seq<char>> {
    gather(demands.len() as int, |i: int| seq![demands[i].start, demands[i].end])
}

/// The names of devices of private links, both ends of each.
pub open spec fn link_ends(links: Seq<PrivateRow>) -> Seq<Seq<char>> {
    gather(links.len() as int, |i: int| seq![links[i].device1, links[i].device2])
}

/// A name that holds a digit.
pub open spec fn with_digit() -> spec_fn(Seq<char>) -> bool {
    |name: Seq<char>| holds_digit(name)
}

/// A name that no device has.
pub open spec fn unlisted(devices: Seq<DeviceRow>) -> spec_fn(Seq<char>) -> bool {
    |name: Seq<char>| !has_device(devices, name)
}

/// A device has the name.
pub open spec fn has_device(devices: Seq<DeviceRow>, name: Seq<char>) -> bool {
    exists|i: int| 0 <= i < devices.len() && (#[trigger] devices[i]).device == name
}

/// A city that the public network does not reach.
pub open spec fn off_network(publics: Seq<PublicRow>) -> spec_fn(Seq<char>) -> bool {
    |name: Seq<char>| !is_public_city(publics, name)
}

/// The most operators there may be: fewer where they can be down.
pub open spec fn operator_limit(uptime: Real) -> int {
    if uptime.less_than(Real { bits: ONE }) {
        15
    } else {
        20
    }
}

/// Demand `d` is at odds with the first demand of its kind, `f`: another start, traffic
/// or way of casting.
pub open spec fn at_odds(demands: Seq<DemandRow>, f: int, d: int) -> bool {
    ||| demands[f].start != demands[d].start
    ||| !demands[f].traffic.equal_to(demands[d].traffic)
    ||| demands[f].multicast != demands[d].multicast
}

/// Demand `f` is the first of the kind of demand `d`.
pub open spec fn opens_kind(demands: Seq<DemandRow>, f: int, d: int) -> bool {
    &&& 0 <= f <= d
    &&& demands[f].kind == demands[d].kind
    &&& forall|k: int| 0 <= k < f ==> (#[trigger] demands[k]).kind != demands[d].kind
}

/// Demand `d` is at odds with an earlier one that is the first of its kind.
pub open spec fn is_clash(demands: Seq<DemandRow>, d: int) -> bool {
    exists|f: int| 0 <= f < d && #[trigger] opens_kind(demands, f, d) && at_odds(demands, f, d)
}

/// The first demand from `d` on that is at odds with the first of its kind.
pub open spec fn first_clash(demands: Seq<DemandRow>, d: int) -> Option<int>
    decreases demands.len() - d,
{
    if d >= demands.len() {
        None
    } else if is_clash(demands, d) {
        Some(d)
    } else {
        first_clash(demands, d + 1)
    }
}

/// Two devices have one name.
pub open spec fn has_duplicates(devices: Seq<DeviceRow>) -> bool {
    exists|i: int, j: int|
        0 <= i < j < devices.len() && (#[trigger] devices[i]).device == (
        #[trigger] devices[j]).device
}

/// A device belongs to an operator with the name of the public network.
pub open spec fn claims_public(devices: Seq<DeviceRow>) -> bool {
    exists|i: int| 0 <= i < devices.len() && (#[trigger] devices[i]).operator == OP_PUBLIC@
}

/// What is wrong with a network, if anything: the first of these in this order.
pub open spec fn fault_of(
    links: Seq<PrivateRow>,
    devices: Seq<DeviceRow>,
    demands: Seq<DemandRow>,
    publics: Seq<PublicRow>,
    uptime: Real,
) -> Option<Fault> {
    if claims_public(devices) {
        Some(
            Fault::Validation(
                "Public is a protected keyword for operator names; choose another."@,
            ),
        )
    } else if players_of(devices).len() > operator_limit(uptime) {
        Some(
            Fault::TooManyOperators {
                count: players_of(devices).len() as int,
                limit: operator_limit(uptime),
            },
        )
    } else if links.len() == 0 {
        Some(Fault::Validation("There must be at least one private link for this simulation."@))
    } else if first_where(public_ends(publics) + demand_ends(demands), with_digit()) is Some {
        Some(
            Fault::InvalidCityLabel(
                "City "@ + first_where(public_ends(publics) + demand_ends(demands), with_digit())->0
                    + " should not contain a digit"@,
            ),
        )
    } else if first_clash(demands, 0) is Some {
        Some(
            Fault::DataInconsistency(
                "Demand type "@ + numeral(demands[first_clash(demands, 0)->0].kind as nat)
                    + " has inconsistent properties"@,
            ),
        )
    } else if has_duplicates(devices) {
        Some(Fault::DataInconsistency("There are duplicated devices in the list."@))
    } else if first_where(link_ends(links), unlisted(devices)) is Some {
        Some(Fault::MissingDevice(first_where(link_ends(links), unlisted(devices))->0))
    } else if first_where(demand_ends(demands), off_network(publics)) is Some {
        Some(Fault::UnreachableDemandNode(first_where(demand_ends(demands), off_network(publics))->0))
    } else {
        None
    }
}

/// Lists the ends of the public links.
fn list_public_ends(publics: &[PublicLink]) -> (r: Vec<String>)
    ensures
        views(r@) == public_ends(views(publics@)),
{
    let ghost rows = views(publics@);
    let ghost f = |i: int| seq![rows[i].city1, rows[i].city2];
    let mut out: Vec<String> = Vec::new();
    assert(views(out@) =~= gather(0, f));
    for i in 0..publics.len()
        invariant
            rows == views(publics@),
            f == (|i: int| seq![rows[i].city1, rows[i].city2]),
            views(out@) == gather(i as int, f),
    {
        let ghost before = views(out@);
        out.push(publics[i].city1.clone());
        out.push(publics[i].city2.clone());
        assert(views(out@) =~= before + f(i as int));
    }
    out
}

/// Appends the ends of the demands.
fn append_demand_ends(out: &mut Vec<String>, demands: &[Demand])
    ensures
        views(final(out)@) == views(old(out)@) + demand_ends(views(demands@)),
{
    let ghost rows = views(demands@);
    let ghost start = views(out@);
    let ghost f = |i: int| seq![rows[i].start, rows[i].end];
    assert(start =~= start + gather(0, f));
    for i in 0..demands.len()
        invariant
            rows == views(demands@),
            f == (|i: int| seq![rows[i].start, rows[i].end]),
            views(out@) == start + gather(i as int, f),
    {
        let ghost before = views(out@);
        out.push(demands[i].start.clone());
        out.push(demands[i].end.clone());
        assert(views(out@) =~= before + f(i as int));
        assert(views(out@) =~= start + gather(i + 1, f));
    }
}

/// Lists the ends of the private links.
fn list_link_ends(links: &[PrivateLink]) -> (r: Vec<String>)
    ensures
        views(r@) == link_ends(views(links@)),
{
    let ghost rows = views(links@);
    let ghost f = |i: int| seq![rows[i].device1, rows[i].device2];
    let mut out: Vec<String> = Vec::new();
    assert(views(out@) =~= gather(0, f));
    for i in 0..links.len()
        invariant
            rows == views(links@),
            f == (|i: int| seq![rows[i].device1, rows[i].device2]),
            views(out@) == gather(i as int, f),
    {
        let ghost before = views(out@);
        out.push(links[i].device1.clone());
        out.push(links[i].device2.clone());
        assert(views(out@) =~= before + f(i as int));
    }
    out
}

/// Finds the first name that holds a digit.
fn find_digit(names: &[String]) -> (r: Option<usize>)
    ensures
        r is Some <==> first_where(views(names@), with_digit()) is Some,
        r matches Some(i) ==> i < names@.len() && first_where(views(names@), with_digit()) == Some(
            names@[i as int]@,
        ),
{
    let ghost all = views(names@);
    for i in 0..names.len()
        invariant
            all == views(names@),
            forall|k: int| 0 <= k < i ==> !with_digit()(#[trigger] all[k]),
    {
        assert(all[i as int] == names@[i as int]@);
        if has_digit(names[i].as_str()) {
            proof {
                first_where_found(all, with_digit(), i as int);
            }
            return Some(i);
        }
    }
    proof {
        first_where_found(all, with_digit(), names@.len() as int);
    }
    None
}

/// Whether a device has the name.
fn is_device(devices: &[Device], name: &str) -> (r: bool)
    ensures
        r == has_device(views(devices@), name@),
{
    let ghost rows = views(devices@);
    for i in 0..devices.len()
        invariant
            rows == views(devices@),
            forall|k: int| 0 <= k < i ==> (#[trigger] rows[k]).device != name@,
    {
        assert(rows[i as int] == devices@[i as int]@);
        if same(devices[i].device.as_str(), name) {
            return true;
        }
    }
    false
}

/// Finds the first name that no device has.
fn find_unlisted(names: &[String], devices: &[Device]) -> (r: Option<usize>)
    ensures
        r is Some <==> first_where(views(names@), unlisted(views(devices@))) is Some,
        r matches Some(i) ==> i < names@.len() && first_where(
            views(names@),
            unlisted(views(devices@)),
        ) == Some(names@[i as int]@),
{
    let ghost all = views(names@);
    let ghost p = unlisted(views(devices@));
    for i in 0..names.len()
        invariant
            all == views(names@),
            p == unlisted(views(devices@)),
            forall|k: int| 0 <= k < i ==> !p(#[trigger] all[k]),
    {
        assert(all[i as int] == names@[i as int]@);
        if !is_device(devices, names[i].as_str()) {
            proof {
                first_where_found(all, p, i as int);
            }
            return Some(i);
        }
    }
    proof {
        first_where_found(all, p, names@.len() as int);
    }
    None
}

/// Finds the first city that the public network does not reach.
fn find_off_network(names: &[String], publics: &[PublicLink]) -> (r: Option<usize>)
    ensures
        r is Some <==> first_where(views(names@), off_network(views(publics@))) is Some,
        r matches Some(i) ==> i < names@.len() && first_where(
            views(names@),
            off_network(views(publics@)),
        ) == Some(names@[i as int]@),
{
    let ghost all = views(names@);
    let ghost p = off_network(views(publics@));
    for i in 0..names.len()
        invariant
            all == views(names@),
            p == off_network(views(publics@)),
            forall|k: int| 0 <= k < i ==> !p(#[trigger] all[k]),
    {
        assert(all[i as int] == names@[i as int]@);
        if !find_public_city(publics, names[i].as_str()) {
            proof {
                first_where_found(all, p, i as int);
            }
            return Some(i);
        }
    }
    proof {
        first_where_found(all, p, names@.len() as int);
    }
    None
}

/// Whether demand `d` is at odds with an earlier one that is the first of its kind.
fn clashes(demands: &[Demand], d: usize) -> (r: bool)
    requires
        d < demands@.len(),
    ensures
        r == is_clash(views(demands@), d as int),
{
    let ghost rows = views(demands@);
    assert(rows[d as int] == demands@[d as int]@);
    for f in 0..d
        invariant
            d < demands@.len(),
            rows == views(demands@),
            forall|k: int| 0 <= k < f ==> (#[trigger] rows[k]).kind != rows[d as int].kind,
    {
        assert(rows[f as int] == demands@[f as int]@);
        assert(rows[d as int] == demands@[d as int]@);
        if demands[f].kind == demands[d].kind {
            let odd = !same(demands[f].start.as_str(), demands[d].start.as_str())
                || !demands[f].traffic.equals(&demands[d].traffic) || demands[f].multicast
                != demands[d].multicast;
            proof {
                assert(opens_kind(rows, f as int, d as int));
                if is_clash(rows, d as int) {
                    let g = choose|g: int|
                        0 <= g < d && #[trigger] opens_kind(rows, g, d as int) && at_odds(
                            rows,
                            g,
                            d as int,
                        );
                    if g < f {
                        assert(rows[g].kind != rows[d as int].kind);
                    } else if f < g {
                        assert(rows[f as int].kind != rows[d as int].kind);
                    }
                }
            }
            return odd;
        }
    }
    proof {
        if is_clash(rows, d as int) {
            let g = choose|g: int|
                0 <= g < d && #[trigger] opens_kind(rows, g, d as int) && at_odds(rows, g, d as int);
            assert(rows[g].kind != rows[d as int].kind);
        }
    }
    false
}

/// Finds the first demand that is at odds with the first of its kind.
fn find_clash(demands: &[Demand]) -> (r: Option<usize>)
    ensures
        r is Some <==> first_clash(views(demands@), 0) is Some,
        r matches Some(d) ==> d < demands@.len() && first_clash(views(demands@), 0) == Some(
            d as int,
        ),
{
    let ghost rows = views(demands@);
    for d in 0..demands.len()
        invariant
            rows == views(demands@),
            first_clash(rows, 0) == first_clash(rows, d as int),
    {
        if clashes(demands, d) {
            return Some(d);
        }
    }
    None
}

/// Whether two devices have one name.
fn find_duplicates(devices: &[Device]) -> (r: bool)
    ensures
        r == has_duplicates(views(devices@)),
{
    let ghost rows = views(devices@);
    for j in 0..devices.len()
        invariant
            rows == views(devices@),
            forall|a: int, b: int|
                0 <= a < b < j ==> (#[trigger] rows[a]).device != (#[trigger] rows[b]).device,
    {
        for i in 0..j
            invariant
                rows == views(devices@),
                j < devices@.len(),
                forall|a: int| 0 <= a < i ==> (#[trigger] rows[a]).device != rows[j as int].device,
        {
            assert(rows[i as int] == devices@[i as int]@);
            assert(rows[j as int] == devices@[j as int]@);
            if same(devices[i].device.as_str(), devices[j].device.as_str()) {
                assert(rows[i as int].device == rows[j as int].device);
                return true;
            }
        }
    }
    false
}

/// Checks a network before anything is computed of it.
pub fn check_inputs(
    private_links: &[PrivateLink],
    devices: &[Device],
    demands: &[Demand],
    public_links: &[PublicLink],
    operator_uptime: Real,
) -> (r: Result<(), ShapleyError>)
    ensures
        r is Ok <==> fault_of(
            views(private_links@),
            views(devices@),
            views(demands@),
            views(public_links@),
            operator_uptime,
        ) is None,
        r matches Err(e) ==> fault_of(
            views(private_links@),
            views(devices@),
            views(demands@),
            views(public_links@),
            operator_uptime,
        ) == Some(e@),
{
    let ghost links = views(private_links@);
    let ghost rows = views(devices@);
    let ghost flows = views(demands@);
    let ghost roads = views(public_links@);
    for i in 0..devices.len()
        invariant
            rows == views(devices@),
            forall|k: int| 0 <= k < i ==> (#[trigger] rows[k]).operator != OP_PUBLIC@,
    {
        assert(rows[i as int] == devices@[i as int]@);
        if same(devices[i].operator.as_str(), OP_PUBLIC) {
            assert(rows[i as int].operator == OP_PUBLIC@);
            return Err(
                ShapleyError::Validation(
                    "Public is a protected keyword for operator names; choose another.".to_owned(),
                ),
            );
        }
    }
    let players = find_players(devices);
    assert(players@.len() == views(players@).len());
    let n_ops: usize = players.len();
    let one = Real { bits: ONE };
    let limit: usize = if operator_uptime.is_less(&one) {
        15
    } else {
        20
    };
    if n_ops > limit {
        return Err(ShapleyError::TooManyOperators { count: n_ops, limit });
    }
    if private_links.len() == 0 {
        return Err(
            ShapleyError::Validation(
                "There must be at least one private link for this simulation.".to_owned(),
            ),
        );
    }
    let mut labels = list_public_ends(public_links);
    append_demand_ends(&mut labels, demands);
    match find_digit(labels.as_slice()) {
        Some(i) => {
            let head = join("City ", labels[i].as_str());
            return Err(
                ShapleyError::InvalidCityLabel(join(head.as_str(), " should not contain a digit")),
            );
        },
        None => {},
    }
    match find_clash(demands) {
        Some(d) => {
            let head = join("Demand type ", decimal(demands[d].kind as u64).as_str());
            return Err(
                ShapleyError::DataInconsistency(
                    join(head.as_str(), " has inconsistent properties"),
                ),
            );
        },
        None => {},
    }
    if find_duplicates(devices) {
        return Err(
            ShapleyError::DataInconsistency("There are duplicated devices in the list.".to_owned()),
        );
    }
    let ends = list_link_ends(private_links);
    match find_unlisted(ends.as_slice(), devices) {
        Some(i) => {
            return Err(ShapleyError::MissingDevice(ends[i].clone()));
        },
        None => {},
    }
    let mut cities: Vec<String> = Vec::new();
    append_demand_ends(&mut cities, demands);
    assert(views(cities@) =~= demand_ends(flows));
    match find_off_network(cities.as_slice(), public_links) {
        Some(i) => {
            return Err(ShapleyError::UnreachableDemandNode(cities[i].clone()));
        },
        None => {},
    }
    Ok(())
}

impl ShapleyInput {
    /// What is wrong with the network, if anything.
    pub open spec fn fault(self) -> Option<Fault> {
        fault_of(
            views(self.private_links@),
            views(self.devices@),
            views(self.demands@),
            views(self.public_links@),
            self.operator_uptime,
        )
    }

    /// Checks the network and lists its players, whose coalitions can then be enumerated.
    pub fn find_players(&self) -> (r: Result<Vec<String>, ShapleyError>)
        ensures
            r is Ok <==> self.fault() is None,
            r matches Ok(names) ==> views(names@) == players_of(views(self.devices@))
                && names@.len() <= MAX_OPERATORS,
            r matches Err(e) ==> self.fault() == Some(e@),
    {
        match check_inputs(
            self.private_links.as_slice(),
            self.devices.as_slice(),
            self.demands.as_slice(),
            self.public_links.as_slice(),
            self.operator_uptime,
        ) {
            Ok(()) => {},
            Err(e) => {
                return Err(e);
            },
        }
        assert(operator_limit(self.operator_uptime) <= MAX_OPERATORS);
        let names = enumerable_players(self.devices.as_slice());
        assert(names matches Ok(list) ==> list@.len() == views(list@).len());
        names
    }
}

} // verus!
