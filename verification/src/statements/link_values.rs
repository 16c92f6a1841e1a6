//! Which networks the links of an operator can be valued in, and what becomes of the links.
use crate::consolidation::links::{is_listed, last_device, last_device_found};
use crate::link_estimate::{
    collapsed, edge_players, groups_shared, link_player, links_repeated, look_alike,
    names_switch, owns_device, owns_link, retagged, row_of_edge, share_group, tags_of,
};
use crate::lists::{count_where, gather, gather_member};
use crate::pairing::{
    is_own_link, is_settled, links_paired, mate, numbers_tell_links_apart,
    retagging_numbers_the_links, retagging_settles, reverses_swap,
};
use crate::quantity::Real;
use crate::shapley::is_player;
use crate::statements::edges::stands_last;
use crate::text::{lex_less, numeral, sorted_list, sorted_list_exists};
use crate::types::{DeviceRow, EdgeRow, PrivateRow, ShapleyInput};
use vstd::prelude::*;

verus! {

/// A device of that name belongs to the operator; of two with one name the last counts.
pub open spec fn belongs_to(devices: Seq<DeviceRow>, name: Seq<char>, focus: Seq<char>) -> bool {
    exists|k: int| #[trigger] stands_last(devices, k, name) && devices[k].operator == focus
}

/// One end of the link, whichever, belongs to the operator.
pub open spec fn has_an_end(devices: Seq<DeviceRow>, link: PrivateRow, focus: Seq<char>) -> bool {
    belongs_to(devices, link.device1, focus) || belongs_to(devices, link.device2, focus)
}

/// The same number, however the sign of zero is written.
pub open spec fn same_number(a: Real, b: Real) -> bool {
    let zero = |x: Real| x.bits == 0 || x.bits == 0x8000_0000_0000_0000;
    a.bits == b.bits || (zero(a) && zero(b))
}

/// Two links between the same devices, in whichever order, with the same bandwidth and the
/// same latency.
pub open spec fn same_link(a: PrivateRow, b: PrivateRow) -> bool {
    &&& (a.device1 == b.device1 && a.device2 == b.device2) || (a.device1 == b.device2 && a.device2
        == b.device1)
    &&& same_number(a.bandwidth, b.bandwidth)
    &&& same_number(a.latency, b.latency)
}

/// The link given the other way round.
pub open spec fn swapped(link: PrivateRow) -> PrivateRow {
    PrivateRow { device1: link.device2, device2: link.device1, ..link }
}

proof fn owner_found(devices: Seq<DeviceRow>, name: Seq<char>, focus: Seq<char>)
    ensures
        owns_device(devices, name, focus) == belongs_to(devices, name, focus),
{
    last_device_found(devices, name);
    let c = last_device(devices, name);
    if is_listed(devices, name) {
        assert(stands_last(devices, c, name));
    }
    if belongs_to(devices, name, focus) {
        let k = choose|k: int| #[trigger]
            stands_last(devices, k, name) && devices[k].operator == focus;
        if c < k {
            assert(devices[k].device != name);
        } else if k < c {
            assert(devices[c].device != name);
        }
    }
}

/// A network is refused for the groups of its links just where two links with an end of the
/// operator in focus, whichever end, were given one group.
pub proof fn groups_of_the_focus_are_refused(
    links: Seq<PrivateRow>,
    devices: Seq<DeviceRow>,
    focus: Seq<char>,
)
    ensures
        groups_shared(links, devices, focus) <==> exists|i: int, j: int|
            0 <= i < j < links.len() && has_an_end(devices, #[trigger] links[i], focus)
                && has_an_end(devices, #[trigger] links[j], focus) && links[i].shared is Some
                && links[i].shared == links[j].shared,
{
    assert forall|i: int| 0 <= i < links.len() implies owns_link(
        devices,
        #[trigger] links[i],
        focus,
    ) == has_an_end(devices, links[i], focus) by {
        owner_found(devices, links[i].device1, focus);
        owner_found(devices, links[i].device2, focus);
    }
    if groups_shared(links, devices, focus) {
        let (i, j) = choose|i: int, j: int|
            0 <= i < j < links.len() && share_group(
                devices,
                #[trigger] links[i],
                #[trigger] links[j],
                focus,
            );
        assert(has_an_end(devices, links[i], focus) && has_an_end(devices, links[j], focus));
    }
    if exists|i: int, j: int|
        0 <= i < j < links.len() && has_an_end(devices, #[trigger] links[i], focus) && has_an_end(
            devices,
            #[trigger] links[j],
            focus,
        ) && links[i].shared is Some && links[i].shared == links[j].shared {
        let (i, j) = choose|i: int, j: int|
            0 <= i < j < links.len() && has_an_end(devices, #[trigger] links[i], focus)
                && has_an_end(devices, #[trigger] links[j], focus) && links[i].shared is Some
                && links[i].shared == links[j].shared;
        assert(share_group(devices, links[i], links[j], focus));
    }
}

/// A network is refused for links that cannot be told apart just where two of them run
/// between the same devices with the same bandwidth and latency.
pub proof fn links_told_apart(links: Seq<PrivateRow>)
    ensures
        links_repeated(links) <==> exists|i: int, j: int|
            0 <= i < j < links.len() && same_link(#[trigger] links[i], #[trigger] links[j]),
{
    assert forall|a: PrivateRow, b: PrivateRow| #[trigger] look_alike(a, b) == same_link(a, b) by {}
    if links_repeated(links) {
        let (i, j) = choose|i: int, j: int|
            0 <= i < j < links.len() && look_alike(#[trigger] links[i], #[trigger] links[j]);
        assert(look_alike(links[i], links[j]) == same_link(links[i], links[j]));
    }
    if exists|i: int, j: int|
        0 <= i < j < links.len() && same_link(#[trigger] links[i], #[trigger] links[j]) {
        let (i, j) = choose|i: int, j: int|
            0 <= i < j < links.len() && same_link(#[trigger] links[i], #[trigger] links[j]);
        assert(look_alike(links[i], links[j]) == same_link(links[i], links[j]));
    }
}

/// Giving a link the other way round never changes whether a network is refused.
pub proof fn the_order_of_ends_does_not_matter(
    links: Seq<PrivateRow>,
    devices: Seq<DeviceRow>,
    focus: Seq<char>,
    m: int,
)
    requires
        0 <= m < links.len(),
    ensures
        groups_shared(links.update(m, swapped(links[m])), devices, focus) == groups_shared(
            links,
            devices,
            focus,
        ),
        links_repeated(links.update(m, swapped(links[m]))) == links_repeated(links),
{
    let other = links.update(m, swapped(links[m]));
    groups_of_the_focus_are_refused(links, devices, focus);
    groups_of_the_focus_are_refused(other, devices, focus);
    links_told_apart(links);
    links_told_apart(other);
    assert forall|i: int| 0 <= i < links.len() implies has_an_end(
        devices,
        #[trigger] other[i],
        focus,
    ) == has_an_end(devices, links[i], focus) && other[i].shared == links[i].shared by {}
    assert forall|i: int, j: int| 0 <= i < links.len() && 0 <= j < links.len() && i != j implies (
    same_link(#[trigger] other[i], #[trigger] other[j]) == same_link(links[i], links[j])) by {}
    if exists|i: int, j: int|
        0 <= i < j < links.len() && has_an_end(devices, #[trigger] links[i], focus) && has_an_end(
            devices,
            #[trigger] links[j],
            focus,
        ) && links[i].shared is Some && links[i].shared == links[j].shared {
        let (i, j) = choose|i: int, j: int|
            0 <= i < j < links.len() && has_an_end(devices, #[trigger] links[i], focus)
                && has_an_end(devices, #[trigger] links[j], focus) && links[i].shared is Some
                && links[i].shared == links[j].shared;
        assert(has_an_end(devices, other[i], focus) && has_an_end(devices, other[j], focus));
    }
    if exists|i: int, j: int|
        0 <= i < j < other.len() && has_an_end(devices, #[trigger] other[i], focus) && has_an_end(
            devices,
            #[trigger] other[j],
            focus,
        ) && other[i].shared is Some && other[i].shared == other[j].shared {
        let (i, j) = choose|i: int, j: int|
            0 <= i < j < other.len() && has_an_end(devices, #[trigger] other[i], focus)
                && has_an_end(devices, #[trigger] other[j], focus) && other[i].shared is Some
                && other[i].shared == other[j].shared;
        assert(has_an_end(devices, links[i], focus) && has_an_end(devices, links[j], focus));
    }
    if exists|i: int, j: int|
        0 <= i < j < links.len() && same_link(#[trigger] links[i], #[trigger] links[j]) {
        let (i, j) = choose|i: int, j: int|
            0 <= i < j < links.len() && same_link(#[trigger] links[i], #[trigger] links[j]);
        assert(same_link(other[i], other[j]));
    }
    if exists|i: int, j: int|
        0 <= i < j < other.len() && same_link(#[trigger] other[i], #[trigger] other[j]) {
        let (i, j) = choose|i: int, j: int|
            0 <= i < j < other.len() && same_link(#[trigger] other[i], #[trigger] other[j]);
        assert(same_link(links[i], links[j]));
    }
}

/// A network whose links can be valued: no two links with an end of the operator in focus
/// were given one group, and no two links are the same.
pub proof fn accepted_links_stand_alone(input: ShapleyInput, focus: Seq<char>, i: int, j: int)
    requires
        input.estimate_fault(focus) is None,
        0 <= i < j < input.private_links@.len(),
    ensures
        ({
            let links = crate::text::views(input.private_links@);
            let devices = crate::text::views(input.devices@);
            &&& has_an_end(devices, links[i], focus) && has_an_end(devices, links[j], focus)
                && links[i].shared is Some ==> links[i].shared != links[j].shared
            &&& !same_link(links[i], links[j])
        }),
{
    let links = crate::text::views(input.private_links@);
    let devices = crate::text::views(input.devices@);
    groups_of_the_focus_are_refused(links, devices, focus);
    links_told_apart(links);
    if has_an_end(devices, links[i], focus) && has_an_end(devices, links[j], focus) {
        assert(links[i].shared is None || links[i].shared != links[j].shared);
    }
}

/// The name of a switch: three capital letters, then either a number that does not begin
/// with zero, or a zero and one more figure that is none.
pub open spec fn is_switch_name(name: Seq<char>) -> bool {
    &&& name.len() >= 4
    &&& forall|i: int| 0 <= i < 3 ==> 65 <= (#[trigger] name[i]) as int <= 90
    &&& forall|i: int| 3 <= i < name.len() ==> 48 <= (#[trigger] name[i]) as int <= 57
    &&& name[3] as int == 48 ==> name.len() == 5 && name[4] as int != 48
}

/// Which names are those of switches.
pub proof fn switches_by_name(name: Seq<char>)
    ensures
        names_switch(name) == is_switch_name(name),
{
    if names_switch(name) {
        assert forall|i: int| 0 <= i < 3 implies 65 <= (#[trigger] name[i]) as int <= 90 by {
            assert(crate::link_estimate::is_capital(name[i]));
        }
        assert forall|i: int| 3 <= i < name.len() implies 48 <= (#[trigger] name[i]) as int
            <= 57 by {
            assert(crate::link_estimate::is_figure(name[i]));
        }
    }
    if is_switch_name(name) {
        assert forall|i: int| 0 <= i < 3 implies crate::link_estimate::is_capital(
            #[trigger] name[i],
        ) by {
            assert(65 <= name[i] as int <= 90);
        }
        assert forall|i: int| 3 <= i < name.len() implies crate::link_estimate::is_figure(
            #[trigger] name[i],
        ) by {
            assert(48 <= name[i] as int <= 57);
        }
    }
}

/// What an operator other than the one in focus goes by.
pub open spec fn other_name(operator: Seq<char>) -> Seq<char> {
    if operator == "Public"@ {
        "Public"@
    } else {
        "Others"@
    }
}

/// What becomes of the operator at one end of a link of the operator in focus.
pub open spec fn end_of_link(before: Seq<char>, after: Seq<char>, focus: Seq<char>) -> bool {
    if before == focus {
        exists|m: nat| after == #[trigger] numeral(m)
    } else {
        after == other_name(before)
    }
}

/// What becomes of every edge where the links of an operator are valued: an edge of no end
/// of the operator belongs to the others, or to the public network; a link between two
/// switches becomes a player at the ends of the operator; any other edge of the operator is
/// open to all. The rest of the edge stays.
pub proof fn edges_are_retagged(edges: Seq<EdgeRow>, focus: Seq<char>, i: int)
    requires
        reverses_swap(collapsed(edges, focus), focus),
        retagged(edges, focus).1 is None,
        focus != "Others"@,
        0 <= i < edges.len(),
    ensures
        ({
            let (before, after) = (edges[i], retagged(edges, focus).0[i]);
            &&& retagged(edges, focus).0.len() == edges.len()
            &&& after == (EdgeRow {
                operator1: after.operator1,
                operator2: after.operator2,
                ..before
            })
            &&& if before.operator1 != focus && before.operator2 != focus {
                &&& after.operator1 == other_name(before.operator1)
                &&& after.operator2 == other_name(before.operator2)
            } else if is_switch_name(before.device1) && is_switch_name(before.device2) {
                &&& end_of_link(before.operator1, after.operator1, focus)
                &&& end_of_link(before.operator2, after.operator2, focus)
            } else {
                after.operator1 == "Private"@ && after.operator2 == "Private"@
            }
        }),
{
    let seen = collapsed(edges, focus);
    let n = edges.len() as int;
    let after = retagged(edges, focus).0;
    retagging_settles(edges, focus);
    assert(is_settled(seen, focus, after, tags_of(seen, focus), n, i));
    switches_by_name(edges[i].device1);
    switches_by_name(edges[i].device2);
}

/// Where no two links look the same, both directions of a link get one number, and no two
/// links get the same.
pub proof fn players_are_links(edges: Seq<EdgeRow>, focus: Seq<char>, i: int, j: int)
    requires
        links_paired(collapsed(edges, focus), focus),
        focus != "Others"@,
        0 <= i < edges.len(),
        0 <= j < edges.len(),
        edges[i].operator1 == focus,
        edges[j].operator1 == focus || edges[j].operator2 == focus,
        is_switch_name(edges[i].device1) && is_switch_name(edges[i].device2),
        is_switch_name(edges[j].device1) && is_switch_name(edges[j].device2),
    ensures
        ({
            let after = retagged(edges, focus).0;
            let (a, b) = (edges[i], edges[j]);
            let name = if b.operator1 == focus {
                after[j].operator1
            } else {
                after[j].operator2
            };
            &&& i == j ==> after[i].operator1 == name
            &&& after[i].operator1 == name ==> i == j || (b.device1 == a.device2 && b.device2
                == a.device1 && b.bandwidth.equal_to(a.bandwidth) && b.latency.equal_to(a.latency))
        }),
{
    let seen = collapsed(edges, focus);
    retagging_numbers_the_links(edges, focus);
    switches_by_name(edges[i].device1);
    switches_by_name(edges[i].device2);
    switches_by_name(edges[j].device1);
    switches_by_name(edges[j].device2);
    assert(is_own_link(seen, focus, i) && is_own_link(seen, focus, j));
    numbers_tell_links_apart(seen, focus, i, j);
    crate::pairing::reverse_found(seen, i, 0);
}

/// The players are the operators at the ends of the edges but for those that are always
/// there, each once, in the order of their names.
pub proof fn players_of_edges(edges: Seq<EdgeRow>)
    ensures
        ({
            let players = edge_players(edges);
            &&& forall|a: int, b: int|
                0 <= a < b < players.len() ==> lex_less(#[trigger] players[a], #[trigger] players[b])
            &&& forall|name: Seq<char>| #[trigger]
                players.contains(name) <==> name != "Private"@ && name != "Public"@ && exists|i: int|
                    0 <= i < edges.len() && ((#[trigger] edges[i]).operator1 == name
                        || edges[i].operator2 == name)
        }),
{
    let f = |i: int|
        (if is_player(edges[i].operator1) {
            seq![edges[i].operator1]
        } else {
            Seq::empty()
        }) + (if is_player(edges[i].operator2) {
            seq![edges[i].operator2]
        } else {
            Seq::empty()
        });
    let n = edges.len() as int;
    let names = gather(n, f);
    sorted_list_exists(names);
    let players = edge_players(edges);
    assert(players == sorted_list(names));
    assert forall|name: Seq<char>| #[trigger] players.contains(name) <==> name != "Private"@ && name
        != "Public"@ && exists|i: int|
        0 <= i < edges.len() && ((#[trigger] edges[i]).operator1 == name || edges[i].operator2
            == name) by {
        if players.contains(name) {
            assert(names.contains(name));
            let k = choose|k: int| 0 <= k < names.len() && names[k] == name;
            let (i, z) = gather_member(n, f, k);
            assert(f(i)[z] == name);
            assert(edges[i].operator1 == name || edges[i].operator2 == name);
        }
        if name != "Private"@ && name != "Public"@ && exists|i: int|
            0 <= i < edges.len() && ((#[trigger] edges[i]).operator1 == name || edges[i].operator2
                == name) {
            let i = choose|i: int|
                0 <= i < edges.len() && ((#[trigger] edges[i]).operator1 == name
                    || edges[i].operator2 == name);
            crate::pairing::operator_is_player(edges, i, name);
        }
    }
}

/// The row of an edge: there is one just where an end belongs to a link of the operator in
/// focus and the name of the first end comes before that of the second; it names the edge
/// and the player of the first such end.
pub proof fn rows_name_their_links(edge: EdgeRow, players: Seq<Seq<char>>)
    ensures
        ({
            let kept = |op: Seq<char>| op != "Public"@ && op != "Private"@ && op != "Others"@;
            let rows = row_of_edge(edge, players);
            let player = if kept(edge.operator1) {
                edge.operator1
            } else {
                edge.operator2
            };
            &&& rows.len() <= 1
            &&& rows.len() == 1 <==> (kept(edge.operator1) || kept(edge.operator2)) && lex_less(
                edge.device1,
                edge.device2,
            )
            &&& rows.len() == 1 ==> {
                let row = rows[0];
                &&& row.device1 == edge.device1 && row.device2 == edge.device2
                &&& row.bandwidth == edge.bandwidth && row.latency == edge.latency
                &&& row.player is Some <==> players.contains(player)
                &&& row.player is Some ==> 0 <= row.player->0 < players.len()
                    && players[row.player->0] == player
            }
        }),
{
    if players.contains(link_player(edge)) {
        crate::text::place_found(players, link_player(edge));
    }
}

/// Retagging fails for a link of the operator in focus, between two switches, that no edge
/// leads back along with an equal bandwidth and an equal latency.
pub proof fn retagging_fails_for_a_reason(edges: Seq<EdgeRow>, focus: Seq<char>)
    requires
        reverses_swap(collapsed(edges, focus), focus),
        retagged(edges, focus).1 is Some,
        focus != "Others"@,
    ensures
        ({
            let k = retagged(edges, focus).1->0;
            &&& 0 <= k < edges.len()
            &&& edges[k].operator1 == focus || edges[k].operator2 == focus
            &&& is_switch_name(edges[k].device1) && is_switch_name(edges[k].device2)
            &&& forall|s: int|
                0 <= s < edges.len() ==> !((#[trigger] edges[s]).device1 == edges[k].device2
                    && edges[s].device2 == edges[k].device1 && edges[s].bandwidth.equal_to(
                    edges[k].bandwidth,
                ) && edges[s].latency.equal_to(edges[k].latency))
        }),
{
    let seen = collapsed(edges, focus);
    retagging_settles(edges, focus);
    let k = retagged(edges, focus).1->0;
    switches_by_name(edges[k].device1);
    switches_by_name(edges[k].device2);
    crate::pairing::reverse_found(seen, k, 0);
    assert forall|s: int| 0 <= s < edges.len() implies !((#[trigger] edges[s]).device1
        == edges[k].device2 && edges[s].device2 == edges[k].device1
        && edges[s].bandwidth.equal_to(edges[k].bandwidth) && edges[s].latency.equal_to(
        edges[k].latency,
    )) by {
        assert(!crate::link_estimate::is_reverse(seen[k], seen[s]));
    }
}

/// What stands against valuing the links of an operator: first groups, then links that are
/// the same, then what is wrong with the network where operators are always up.
pub proof fn refusals_come_in_order(input: ShapleyInput, focus: Seq<char>)
    ensures
        ({
            let links = crate::text::views(input.private_links@);
            let devices = crate::text::views(input.devices@);
            let fault = input.estimate_fault(focus);
            if exists|i: int, j: int|
                0 <= i < j < links.len() && has_an_end(devices, #[trigger] links[i], focus)
                    && has_an_end(devices, #[trigger] links[j], focus) && links[i].shared is Some
                    && links[i].shared == links[j].shared {
                fault == Some(
                    crate::error::Fault::Validation(
                        "Shared groups are not allowed for links by operator_focus."@,
                    ),
                )
            } else if exists|i: int, j: int|
                0 <= i < j < links.len() && same_link(#[trigger] links[i], #[trigger] links[j]) {
                fault == Some(crate::error::Fault::Validation("Duplicate links found."@))
            } else {
                fault == crate::validation::fault_of(
                    links,
                    devices,
                    crate::text::views(input.demands@),
                    crate::text::views(input.public_links@),
                    Real { bits: 0x3FF0_0000_0000_0000 },
                )
            }
        }),
{
    let links = crate::text::views(input.private_links@);
    let devices = crate::text::views(input.devices@);
    groups_of_the_focus_are_refused(links, devices, focus);
    links_told_apart(links);
}

/// The number of a link counts the links that come first before it: where no two links look
/// the same, an edge of the operator that no edge before it leads back along has the number
/// of such edges up to it.
pub proof fn links_are_numbered_as_they_come(edges: Seq<EdgeRow>, focus: Seq<char>, i: int)
    requires
        links_paired(collapsed(edges, focus), focus),
        focus != "Others"@,
        0 <= i < edges.len(),
        comes_first(edges, focus, i),
    ensures
        ({
            let number = numeral(1 + count_where(i, |j: int| comes_first(edges, focus, j)));
            let after = retagged(edges, focus).0[i];
            &&& edges[i].operator1 == focus ==> after.operator1 == number
            &&& edges[i].operator2 == focus ==> after.operator2 == number
        }),
{
    let seen = collapsed(edges, focus);
    retagging_numbers_the_links(edges, focus);
    assert forall|j: int| 0 <= j < edges.len() implies comes_first(edges, focus, j)
        == crate::pairing::is_lead(seen, focus, j) by {
        first_is_lead(edges, focus, j);
    }
    first_is_lead(edges, focus, i);
    let p = |j: int| crate::pairing::is_lead(seen, focus, j);
    let q = |j: int| comes_first(edges, focus, j);
    crate::lists::count_same(i, p, q);
}

/// The edge is a link of the operator, and no edge before it leads back along it.
pub open spec fn comes_first(edges: Seq<EdgeRow>, focus: Seq<char>, i: int) -> bool {
    &&& edges[i].operator1 == focus || edges[i].operator2 == focus
    &&& is_switch_name(edges[i].device1) && is_switch_name(edges[i].device2)
    &&& forall|s: int|
        0 <= s < i ==> !((#[trigger] edges[s]).device1 == edges[i].device2 && edges[s].device2
            == edges[i].device1 && edges[s].bandwidth.equal_to(edges[i].bandwidth)
            && edges[s].latency.equal_to(edges[i].latency))
}

proof fn first_is_lead(edges: Seq<EdgeRow>, focus: Seq<char>, j: int)
    requires
        links_paired(collapsed(edges, focus), focus),
        focus != "Others"@,
        0 <= j < edges.len(),
    ensures
        comes_first(edges, focus, j) == crate::pairing::is_lead(collapsed(edges, focus), focus, j),
{
    let seen = collapsed(edges, focus);
    switches_by_name(edges[j].device1);
    switches_by_name(edges[j].device2);
    crate::pairing::reverse_found(seen, j, 0);
    let s = mate(seen, j);
    if is_own_link(seen, focus, j) {
        if s < j {
            assert(crate::link_estimate::is_reverse(seen[j], seen[s]));
            assert(edges[s].device1 == edges[j].device2);
        } else {
            assert forall|s: int| 0 <= s < j implies !((#[trigger] edges[s]).device1
                == edges[j].device2 && edges[s].device2 == edges[j].device1
                && edges[s].bandwidth.equal_to(edges[j].bandwidth) && edges[s].latency.equal_to(
                edges[j].latency,
            )) by {
                assert(!crate::link_estimate::is_reverse(seen[j], seen[s]));
            }
        }
    }
}

} // verus!
