//! What each link of one operator adds: the links of the operator in focus become
//! players of their own.
use crate::consolidation::links::{
    all_edges, compacted, consolidate_links, ends_listed, find_device, first_broken, ids_fit,
    is_listed, missing_end, operator_of,
};
use crate::constants::{CITY_PREFIX_LEN, MAX_OPERATORS, OP_OTHERS, OP_PRIVATE, OP_PUBLIC};
use crate::error::{Fault, ShapleyError};
use crate::lists::gather;
use crate::quantity::{float_key, key_of, ONE, Real};
use crate::shapley::is_player;
use crate::text::{
    char_list, decimal, less, lex_less, numeral, place, position, same, sorted_list, sorted_unique,
    views,
};
use crate::types::{
    ConsolidatedDemand, ConsolidatedLink, Device, DeviceRow, EdgeRow, FlowRow, PrivateLink,
    PrivateRow, ShapleyInput,
};
use crate::validation::{check_inputs, fault_of};
use vstd::prelude::*;

verus! {

/// The device belongs to the operator.
pub open spec fn owns_device(devices: Seq<DeviceRow>, name: Seq<char>, focus: Seq<char>) -> bool {
    is_listed(devices, name) && operator_of(devices, name) == focus
}

/// The link belongs to the operator: one of its ends does.
pub open spec fn owns_link(devices: Seq<DeviceRow>, link: PrivateRow, focus: Seq<char>) -> bool {
    owns_device(devices, link.device1, focus) || owns_device(devices, link.device2, focus)
}

/// Both links belong to the operator and share one group.
pub open spec fn share_group(
    devices: Seq<DeviceRow>,
    a: PrivateRow,
    b: PrivateRow,
    focus: Seq<char>,
) -> bool {
    &&& owns_link(devices, a, focus)
    &&& owns_link(devices, b, focus)
    &&& a.shared is Some
    &&& a.shared == b.shared
}

/// The two links cannot be told apart: the same ends in either order, the same
/// bandwidth, the same latency.
pub open spec fn look_alike(a: PrivateRow, b: PrivateRow) -> bool {
    &&& (a.device1 == b.device1 && a.device2 == b.device2) || (a.device1 == b.device2 && a.device2
        == b.device1)
    &&& key_of(a.bandwidth) == key_of(b.bandwidth)
    &&& key_of(a.latency) == key_of(b.latency)
}

/// Two links of the operator share a group.
pub open spec fn groups_shared(
    links: Seq<PrivateRow>,
    devices: Seq<DeviceRow>,
    focus: Seq<char>,
) -> bool {
    exists|i: int, j: int|
        0 <= i < j < links.len() && share_group(
            devices,
            #[trigger] links[i],
            #[trigger] links[j],
            focus,
        )
}

/// Two links cannot be told apart.
pub open spec fn links_repeated(links: Seq<PrivateRow>) -> bool {
    exists|i: int, j: int|
        0 <= i < j < links.len() && look_alike(#[trigger] links[i], #[trigger] links[j])
}

/// Whether the device belongs to the operator.
fn has_device(devices: &[Device], name: &str, focus: &str) -> (r: bool)
    ensures
        r == owns_device(views(devices@), name@, focus@),
{
    match find_device(devices, name) {
        Some(at) => {
            assert(views(devices@)[at as int] == devices@[at as int]@);
            same(devices[at].operator.as_str(), focus)
        },
        None => false,
    }
}

/// Whether the link belongs to the operator.
fn has_link(devices: &[Device], link: &PrivateLink, focus: &str) -> (r: bool)
    ensures
        r == owns_link(views(devices@), link@, focus@),
{
    has_device(devices, link.device1.as_str(), focus) || has_device(
        devices,
        link.device2.as_str(),
        focus,
    )
}

/// Whether the two links cannot be told apart.
fn are_alike(a: &PrivateLink, b: &PrivateLink) -> (r: bool)
    ensures
        r == look_alike(a@, b@),
{
    ((same(a.device1.as_str(), b.device1.as_str()) && same(a.device2.as_str(), b.device2.as_str()))
        || (same(a.device1.as_str(), b.device2.as_str()) && same(
        a.device2.as_str(),
        b.device1.as_str(),
    ))) && float_key(a.bandwidth) == float_key(b.bandwidth) && float_key(a.latency) == float_key(
        b.latency,
    )
}

/// Checks that the links of the operator in focus can be told apart.
pub fn check_link_estimate_inputs(
    private_links: &[PrivateLink],
    devices: &[Device],
    operator_focus: &str,
) -> (r: Result<(), ShapleyError>)
    ensures
        r is Ok <==> !groups_shared(views(private_links@), views(devices@), operator_focus@)
            && !links_repeated(views(private_links@)),
        r matches Err(e) ==> e@ == Fault::Validation(
            if groups_shared(views(private_links@), views(devices@), operator_focus@) {
                "Shared groups are not allowed for links by operator_focus."@
            } else {
                "Duplicate links found."@
            },
        ),
{
    let ghost links = views(private_links@);
    let ghost rows = views(devices@);
    for j in 0..private_links.len()
        invariant
            links == views(private_links@),
            rows == views(devices@),
            forall|a: int, b: int|
                0 <= a < b < j ==> !share_group(
                    rows,
                    #[trigger] links[a],
                    #[trigger] links[b],
                    operator_focus@,
                ),
    {
        assert(links[j as int] == private_links@[j as int]@);
        if private_links[j].shared.is_some() && has_link(
            devices,
            &private_links[j],
            operator_focus,
        ) {
            for i in 0..j
                invariant
                    links == views(private_links@),
                    rows == views(devices@),
                    j < private_links@.len(),
                    links[j as int].shared is Some,
                    owns_link(rows, links[j as int], operator_focus@),
                    forall|a: int|
                        0 <= a < i ==> !share_group(
                            rows,
                            #[trigger] links[a],
                            links[j as int],
                            operator_focus@,
                        ),
            {
                assert(links[i as int] == private_links@[i as int]@);
                assert(links[j as int] == private_links@[j as int]@);
                let alike = match (private_links[i].shared, private_links[j].shared) {
                    (Some(a), Some(b)) => a == b,
                    _ => false,
                };
                if alike && has_link(devices, &private_links[i], operator_focus) {
                    assert(share_group(rows, links[i as int], links[j as int], operator_focus@));
                    return Err(
                        ShapleyError::Validation(
                            "Shared groups are not allowed for links by operator_focus.".to_owned(),
                        ),
                    );
                }
            }
        }
    }
    for j in 0..private_links.len()
        invariant
            links == views(private_links@),
            forall|a: int, b: int|
                0 <= a < b < j ==> !look_alike(#[trigger] links[a], #[trigger] links[b]),
            !groups_shared(links, views(devices@), operator_focus@),
    {
        for i in 0..j
            invariant
                links == views(private_links@),
                j < private_links@.len(),
                forall|a: int| 0 <= a < i ==> !look_alike(#[trigger] links[a], links[j as int]),
                !groups_shared(links, views(devices@), operator_focus@),
        {
            assert(links[i as int] == private_links@[i as int]@);
            assert(links[j as int] == private_links@[j as int]@);
            if are_alike(&private_links[i], &private_links[j]) {
                assert(look_alike(links[i as int], links[j as int]));
                return Err(ShapleyError::Validation("Duplicate links found.".to_owned()));
            }
        }
    }
    Ok(())
}

/// An upper-case letter.
pub open spec fn is_capital(c: char) -> bool {
    'A' <= c <= 'Z'
}

/// A digit.
pub open spec fn is_figure(c: char) -> bool {
    '0' <= c <= '9'
}

/// The name of a switch of an operator: three upper-case letters, then a number that
/// does not begin with a zero, or a zero and one other digit.
pub open spec fn names_switch(name: Seq<char>) -> bool {
    &&& name.len() > 3
    &&& forall|i: int| 0 <= i < 3 ==> is_capital(#[trigger] name[i])
    &&& forall|i: int| 3 <= i < name.len() ==> is_figure(#[trigger] name[i])
    &&& name[3] != '0' || (name.len() == 5 && name[4] != '0')
}

/// Whether a name is that of a switch of an operator.
pub fn is_real_device(s: &str) -> (r: bool)
    ensures
        r == names_switch(s@),
{
    let name = char_list(s);
    if name.len() <= CITY_PREFIX_LEN {
        return false;
    }
    for i in 0..name.len()
        invariant
            name@ == s@,
            forall|k: int| 0 <= k < i && k < 3 ==> is_capital(#[trigger] name@[k]),
            forall|k: int| 3 <= k < i ==> is_figure(#[trigger] name@[k]),
    {
        let c: char = name[i];
        if i < CITY_PREFIX_LEN {
            if !('A' <= c && c <= 'Z') {
                return false;
            }
        } else if !('0' <= c && c <= '9') {
            return false;
        }
    }
    name[3] != '0' || (name.len() == 5 && name[4] != '0')
}

/// An operator as seen from the one in focus: the public network and itself by name,
/// all others as one.
pub open spec fn seen_from(operator: Seq<char>, focus: Seq<char>) -> Seq<char> {
    if operator != OP_PUBLIC@ && operator != focus {
        OP_OTHERS@
    } else {
        operator
    }
}

/// The edges with their operators as seen from the one in focus.
pub open spec fn collapsed(edges: Seq<EdgeRow>, focus: Seq<char>) -> Seq<EdgeRow> {
    Seq::new(
        edges.len(),
        |i: int|
            EdgeRow {
                operator1: seen_from(edges[i].operator1, focus),
                operator2: seen_from(edges[i].operator2, focus),
                ..edges[i]
            },
    )
}

/// The edge belongs to the operator.
pub open spec fn is_tagged(edge: EdgeRow, focus: Seq<char>) -> bool {
    edge.operator1 == focus || edge.operator2 == focus
}

/// Which edges belong to the operator.
pub open spec fn tags_of(edges: Seq<EdgeRow>, focus: Seq<char>) -> Seq<bool> {
    Seq::new(edges.len(), |i: int| is_tagged(edges[i], focus))
}

/// The edge between two switches of operators.
pub open spec fn is_link(edge: EdgeRow) -> bool {
    names_switch(edge.device1) && names_switch(edge.device2)
}

/// Edge `b` is edge `a` in the other direction: swapped ends, equal bandwidth and
/// latency.
pub open spec fn is_reverse(a: EdgeRow, b: EdgeRow) -> bool {
    &&& b.device1 == a.device2
    &&& b.device2 == a.device1
    &&& b.bandwidth.equal_to(a.bandwidth)
    &&& b.latency.equal_to(a.latency)
}

/// The first edge from `s` on that is edge `i` in the other direction; the number of
/// edges where there is none.
pub open spec fn reverse_from(edges: Seq<EdgeRow>, i: int, s: int) -> int
    decreases edges.len() - s,
{
    if s >= edges.len() || is_reverse(edges[i], edges[s]) {
        s
    } else {
        reverse_from(edges, i, s + 1)
    }
}

/// The edges with the operator in focus replaced by `tag` at edge `i` and, end for end,
/// at its reverse `s`.
pub open spec fn numbered(
    edges: Seq<EdgeRow>,
    i: int,
    s: int,
    tag: Seq<char>,
    focus: Seq<char>,
) -> Seq<EdgeRow> {
    let first = if edges[i].operator1 == focus {
        let own = edges.update(i, EdgeRow { operator1: tag, ..edges[i] });
        own.update(s, EdgeRow { operator2: tag, ..own[s] })
    } else {
        edges
    };
    if first[i].operator2 == focus {
        let own = first.update(i, EdgeRow { operator2: tag, ..first[i] });
        own.update(s, EdgeRow { operator1: tag, ..own[s] })
    } else {
        first
    }
}

/// The edge as a way that is always open.
pub open spec fn opened(edge: EdgeRow) -> EdgeRow {
    EdgeRow { operator1: OP_PRIVATE@, operator2: OP_PRIVATE@, ..edge }
}

/// The tagged ones of `n` edges from `from` on, one after the other: a link gets the next number,
/// and so does its reverse; any other edge becomes a way that is always open. Where a
/// link has no reverse, its place is given.
pub open spec fn retag_from(
    edges: Seq<EdgeRow>,
    tags: Seq<bool>,
    n: int,
    from: int,
    counter: int,
    focus: Seq<char>,
) -> (Seq<EdgeRow>, Option<int>)
    decreases n - from,
{
    if from >= n {
        (edges, None)
    } else if !tags[from] {
        retag_from(edges, tags, n, from + 1, counter, focus)
    } else if is_link(edges[from]) {
        let s = reverse_from(edges, from, 0);
        if s >= n {
            (edges, Some(from))
        } else {
            retag_from(
                numbered(edges, from, s, numeral((counter + 1) as nat), focus),
                tags.update(s, false),
                n,
                from + 1,
                counter + 1,
                focus,
            )
        }
    } else {
        retag_from(edges.update(from, opened(edges[from])), tags, n, from + 1, counter, focus)
    }
}

/// The edges with the links of the operator in focus as players of their own.
pub open spec fn retagged(edges: Seq<EdgeRow>, focus: Seq<char>) -> (Seq<EdgeRow>, Option<int>) {
    let seen = collapsed(edges, focus);
    retag_from(seen, tags_of(seen, focus), edges.len() as int, 0, 0, focus)
}

/// A link without a reverse.
#[derive(Debug)]
pub struct Unpaired {
    pub device1: String,
    pub device2: String,
    pub bandwidth: Real,
    pub latency: Real,
}

impl Unpaired {
    /// The link is this edge.
    pub open spec fn names(self, edge: EdgeRow) -> bool {
        &&& self.device1@ == edge.device1
        &&& self.device2@ == edge.device2
        &&& self.bandwidth == edge.bandwidth
        &&& self.latency == edge.latency
    }
}

/// Finds the first edge that is edge `i` in the other direction.
fn find_reverse(links: &Vec<ConsolidatedLink>, i: usize) -> (r: usize)
    requires
        i < links@.len(),
    ensures
        r == reverse_from(views(links@), i as int, 0),
        r <= links@.len(),
{
    let ghost edges = views(links@);
    let mut s: usize = 0;
    while s < links.len()
        invariant
            i < links@.len(),
            s <= links@.len(),
            edges == views(links@),
            reverse_from(edges, i as int, 0) == reverse_from(edges, i as int, s as int),
        decreases links@.len() - s,
    {
        assert(edges[i as int] == links@[i as int]@);
        assert(edges[s as int] == links@[s as int]@);
        let (a, b) = (&links[i], &links[s]);
        if same(b.device1.as_str(), a.device2.as_str()) && same(
            b.device2.as_str(),
            a.device1.as_str(),
        ) && b.bandwidth.equals(&a.bandwidth) && b.latency.equals(&a.latency) {
            return s;
        }
        s = s + 1;
    }
    s
}

/// Numbers an edge and its reverse.
fn number_pair(
    links: &mut Vec<ConsolidatedLink>,
    i: usize,
    s: usize,
    tag: &String,
    operator_focus: &str,
)
    requires
        i < old(links)@.len(),
        s < old(links)@.len(),
    ensures
        views(final(links)@) == numbered(
            views(old(links)@),
            i as int,
            s as int,
            tag@,
            operator_focus@,
        ),
{
    let ghost edges = views(links@);
    if same(links[i].operator1.as_str(), operator_focus) {
        links[i].operator1 = tag.clone();
        assert(views(links@) =~= edges.update(
            i as int,
            EdgeRow { operator1: tag@, ..edges[i as int] },
        ));
        let ghost own = views(links@);
        links[s].operator2 = tag.clone();
        assert(views(links@) =~= own.update(
            s as int,
            EdgeRow { operator2: tag@, ..own[s as int] },
        ));
    }
    let ghost first = views(links@);
    if same(links[i].operator2.as_str(), operator_focus) {
        links[i].operator2 = tag.clone();
        assert(views(links@) =~= first.update(
            i as int,
            EdgeRow { operator2: tag@, ..first[i as int] },
        ));
        let ghost own = views(links@);
        links[s].operator1 = tag.clone();
        assert(views(links@) =~= own.update(
            s as int,
            EdgeRow { operator1: tag@, ..own[s as int] },
        ));
    }
}

/// Makes the links of the operator in focus players of their own.
pub fn retag_links(links: &mut Vec<ConsolidatedLink>, operator_focus: &str) -> (r: Result<
    (),
    Unpaired,
>)
    ensures
        views(final(links)@) == retagged(views(old(links)@), operator_focus@).0,
        r is Ok <==> retagged(views(old(links)@), operator_focus@).1 is None,
        r matches Err(e) ==> ({
            let at = retagged(views(old(links)@), operator_focus@).1->0;
            0 <= at < old(links)@.len() && e.names(views(old(links)@)[at])
        }),
{
    let ghost start = views(links@);
    let ghost focus = operator_focus@;
    let n: usize = links.len();
    let ghost seen = collapsed(start, focus);
    let mut tags: Vec<bool> = Vec::new();
    for i in 0..n
        invariant
            n == links@.len(),
            n == start.len(),
            focus == operator_focus@,
            seen == collapsed(start, focus),
            forall|k: int| 0 <= k < i ==> (#[trigger] links@[k])@ == seen[k],
            forall|k: int| i <= k < n ==> (#[trigger] links@[k])@ == start[k],
            tags@.len() == i,
            forall|k: int| 0 <= k < i ==> #[trigger] tags@[k] == is_tagged(seen[k], focus),
    {
        assert(links@[i as int]@ == start[i as int]);
        if !same(links[i].operator1.as_str(), OP_PUBLIC) && !same(
            links[i].operator1.as_str(),
            operator_focus,
        ) {
            links[i].operator1 = OP_OTHERS.to_owned();
        }
        if !same(links[i].operator2.as_str(), OP_PUBLIC) && !same(
            links[i].operator2.as_str(),
            operator_focus,
        ) {
            links[i].operator2 = OP_OTHERS.to_owned();
        }
        assert(links@[i as int]@ == seen[i as int]);
        let tagged = same(links[i].operator1.as_str(), operator_focus) || same(
            links[i].operator2.as_str(),
            operator_focus,
        );
        tags.push(tagged);
    }
    assert(views(links@) =~= seen);
    assert(tags@ =~= tags_of(seen, focus));
    let ghost outcome = retagged(start, focus);
    let mut counter: u64 = 0;
    let mut i: usize = 0;
    while i < n
        invariant
            i <= n,
            n == links@.len(),
            n == start.len(),
            n == tags@.len(),
            counter <= i,
            focus == operator_focus@,
            start == views(old(links)@),
            outcome == retagged(start, focus),
            forall|k: int|
                0 <= k < n ==> ends_kept(start[k], #[trigger] views(links@)[k]),
            outcome == retag_from(
                views(links@),
                tags@,
                n as int,
                i as int,
                counter as int,
                focus,
            ),
        decreases n - i,
    {
        let ghost edges = views(links@);
        assert(edges[i as int] == links@[i as int]@);
        if tags[i] {
            if is_real_device(links[i].device1.as_str()) && is_real_device(
                links[i].device2.as_str(),
            ) {
                let s: usize = find_reverse(links, i);
                if s >= n {
                    assert(ends_kept(start[i as int], edges[i as int]));
                    return Err(
                        Unpaired {
                            device1: links[i].device1.clone(),
                            device2: links[i].device2.clone(),
                            bandwidth: links[i].bandwidth,
                            latency: links[i].latency,
                        },
                    );
                }
                counter = counter + 1;
                let tag = decimal(counter);
                number_pair(links, i, s, &tag, operator_focus);
                assert(links@.len() == views(links@).len());
                tags[s] = false;
                assert forall|k: int| 0 <= k < n implies ends_kept(
                    start[k],
                    #[trigger] views(links@)[k],
                ) by {
                    assert(ends_kept(start[k], edges[k]));
                }
            } else {
                links[i].operator1 = OP_PRIVATE.to_owned();
                links[i].operator2 = OP_PRIVATE.to_owned();
                assert(views(links@) =~= edges.update(i as int, opened(edges[i as int])));
                assert forall|k: int| 0 <= k < n implies ends_kept(
                    start[k],
                    #[trigger] views(links@)[k],
                ) by {
                    assert(ends_kept(start[k], edges[k]));
                }
            }
        }
        i = i + 1;
    }
    Ok(())
}

/// Nothing but the operators of an edge changed.
pub open spec fn ends_kept(before: EdgeRow, after: EdgeRow) -> bool {
    &&& after.device1 == before.device1
    &&& after.device2 == before.device2
    &&& after.bandwidth == before.bandwidth
    &&& after.latency == before.latency
    &&& after.shared == before.shared
    &&& after.link_type == before.link_type
}

/// The operators of the edges that are players.
pub open spec fn edge_players(edges: Seq<EdgeRow>) -> Seq<Seq<char>> {
    sorted_list(
        gather(
            edges.len() as int,
            |i: int|
                (if is_player(edges[i].operator1) {
                    seq![edges[i].operator1]
                } else {
                    Seq::empty()
                }) + (if is_player(edges[i].operator2) {
                    seq![edges[i].operator2]
                } else {
                    Seq::empty()
                }),
        ),
    )
}

/// Lists the players of the edges and refuses more than can be enumerated.
pub fn find_edge_players(links: &[ConsolidatedLink]) -> (r: Result<Vec<String>, ShapleyError>)
    ensures
        r is Ok <==> edge_players(views(links@)).len() <= MAX_OPERATORS,
        r matches Ok(names) ==> views(names@) == edge_players(views(links@)),
        r matches Err(e) ==> e@ == (Fault::TooManyOperators {
            count: edge_players(views(links@)).len() as int,
            limit: MAX_OPERATORS as int,
        }),
{
    let ghost edges = views(links@);
    let ghost f = |i: int|
        (if is_player(edges[i].operator1) {
            seq![edges[i].operator1]
        } else {
            Seq::empty()
        }) + (if is_player(edges[i].operator2) {
            seq![edges[i].operator2]
        } else {
            Seq::empty()
        });
    let mut names: Vec<String> = Vec::new();
    assert(views(names@) =~= gather(0, f));
    for i in 0..links.len()
        invariant
            edges == views(links@),
            f == (|i: int|
                (if is_player(edges[i].operator1) {
                    seq![edges[i].operator1]
                } else {
                    Seq::empty()
                }) + (if is_player(edges[i].operator2) {
                    seq![edges[i].operator2]
                } else {
                    Seq::empty()
                })),
            views(names@) == gather(i as int, f),
    {
        assert(edges[i as int] == links@[i as int]@);
        let ghost before = views(names@);
        let (one, two) = (links[i].operator1.as_str(), links[i].operator2.as_str());
        if !same(one, OP_PRIVATE) && !same(one, OP_PUBLIC) {
            names.push(links[i].operator1.clone());
        }
        if !same(two, OP_PRIVATE) && !same(two, OP_PUBLIC) {
            names.push(links[i].operator2.clone());
        }
        assert(views(names@) =~= before + f(i as int));
    }
    let players = sorted_unique(&names);
    assert(players@.len() == views(players@).len());
    if players.len() > MAX_OPERATORS {
        return Err(
            ShapleyError::TooManyOperators { count: players.len(), limit: MAX_OPERATORS },
        );
    }
    Ok(players)
}

/// An operator that stands for no link of the operator in focus.
pub open spec fn is_dropped(operator: Seq<char>) -> bool {
    operator == OP_PUBLIC@ || operator == OP_PRIVATE@ || operator == OP_OTHERS@
}

/// A link of the operator in focus, and the place of its player among the players.
#[derive(Debug)]
pub struct LinkRow {
    pub device1: String,
    pub device2: String,
    pub bandwidth: Real,
    pub latency: Real,
    pub player: Option<usize>,
}

/// What a [`LinkRow`] says.
#[verifier::ext_equal]
pub struct LinkEntry {
    pub device1: Seq<char>,
    pub device2: Seq<char>,
    pub bandwidth: Real,
    pub latency: Real,
    pub player: Option<int>,
}

impl View for LinkRow {
    type V = LinkEntry;

    open spec fn view(&self) -> LinkEntry {
        LinkEntry {
            device1: self.device1@,
            device2: self.device2@,
            bandwidth: self.bandwidth,
            latency: self.latency,
            player: match self.player {
                Some(k) => Some(k as int),
                None => None,
            },
        }
    }
}

/// The player that an edge stands for.
pub open spec fn link_player(edge: EdgeRow) -> Seq<char> {
    if is_dropped(edge.operator1) {
        edge.operator2
    } else {
        edge.operator1
    }
}

/// The row of an edge: one for each link of the operator in focus, its ends in the
/// order of their names.
pub open spec fn row_of_edge(edge: EdgeRow, players: Seq<Seq<char>>) -> Seq<LinkEntry> {
    if (is_dropped(edge.operator1) && is_dropped(edge.operator2)) || !lex_less(
        edge.device1,
        edge.device2,
    ) {
        Seq::empty()
    } else {
        seq![
            LinkEntry {
                device1: edge.device1,
                device2: edge.device2,
                bandwidth: edge.bandwidth,
                latency: edge.latency,
                player: if players.contains(link_player(edge)) {
                    Some(place(players, link_player(edge)))
                } else {
                    None
                },
            },
        ]
    }
}

/// Whether an operator stands for no link of the operator in focus.
fn drops(operator: &str) -> (r: bool)
    ensures
        r == is_dropped(operator@),
{
    same(operator, OP_PUBLIC) || same(operator, OP_PRIVATE) || same(operator, OP_OTHERS)
}

/// Lists the links of the operator in focus.
pub fn list_links(links: &[ConsolidatedLink], players: &[String]) -> (r: Vec<LinkRow>)
    ensures
        views(r@) == gather(
            links@.len() as int,
            |i: int| row_of_edge(views(links@)[i], views(players@)),
        ),
{
    let ghost edges = views(links@);
    let ghost names = views(players@);
    let ghost f = |i: int| row_of_edge(edges[i], names);
    let mut out: Vec<LinkRow> = Vec::new();
    assert(views(out@) =~= gather(0, f));
    for i in 0..links.len()
        invariant
            edges == views(links@),
            names == views(players@),
            f == (|i: int| row_of_edge(edges[i], names)),
            views(out@) == gather(i as int, f),
    {
        let ghost before = views(out@);
        let link = &links[i];
        assert(edges[i as int] == link@);
        let drop1 = drops(link.operator1.as_str());
        let drop2 = drops(link.operator2.as_str());
        if !(drop1 && drop2) && less(link.device1.as_str(), link.device2.as_str()) {
            let operator = if drop1 {
                link.operator2.as_str()
            } else {
                link.operator1.as_str()
            };
            let row = LinkRow {
                device1: link.device1.clone(),
                device2: link.device2.clone(),
                bandwidth: link.bandwidth,
                latency: link.latency,
                player: position(players, operator),
            };
            proof {
                crate::text::views_push(out@, row);
            }
            out.push(row);
        }
        assert(views(out@) =~= before + f(i as int));
    }
    proof {
        crate::lists::gather_same(
            edges.len() as int,
            f,
            |i: int| row_of_edge(views(links@)[i], views(players@)),
        );
    }
    out
}

/// Why the links of an operator cannot be valued.
#[derive(Debug)]
pub enum EstimateError {
    /// The network is at fault.
    Network(ShapleyError),
    /// A link has no reverse.
    Unpaired(Unpaired),
}

/// The edges of a network with the links of the operator in focus as players, and the
/// players.
#[derive(Debug)]
pub struct EstimateMap {
    pub edges: Vec<ConsolidatedLink>,
    pub players: Vec<String>,
}

impl ShapleyInput {
    /// What stands against valuing the links of an operator, if anything: links that
    /// cannot be told apart, then what is wrong with the network. The operators count as
    /// always up.
    pub open spec fn estimate_fault(self, focus: Seq<char>) -> Option<Fault> {
        let links = views(self.private_links@);
        let devices = views(self.devices@);
        if groups_shared(links, devices, focus) {
            Some(Fault::Validation("Shared groups are not allowed for links by operator_focus."@))
        } else if links_repeated(links) {
            Some(Fault::Validation("Duplicate links found."@))
        } else {
            fault_of(
                links,
                devices,
                views(self.demands@),
                views(self.public_links@),
                Real { bits: ONE },
            )
        }
    }

    /// Checks that the links of an operator can be valued.
    pub fn check_link_estimate(&self, operator_focus: &str) -> (r: Result<(), ShapleyError>)
        ensures
            r is Ok <==> self.estimate_fault(operator_focus@) is None,
            r matches Err(e) ==> self.estimate_fault(operator_focus@) == Some(e@),
    {
        match check_link_estimate_inputs(
            self.private_links.as_slice(),
            self.devices.as_slice(),
            operator_focus,
        ) {
            Ok(()) => {},
            Err(e) => {
                return Err(e);
            },
        }
        check_inputs(
            self.private_links.as_slice(),
            self.devices.as_slice(),
            self.demands.as_slice(),
            self.public_links.as_slice(),
            Real { bits: ONE },
        )
    }

    /// The consolidated edges, where link `i` can carry `capacity[i]`.
    pub open spec fn edges(self, capacity: Seq<Real>, flows: Seq<FlowRow>) -> Seq<EdgeRow> {
        compacted(
            all_edges(
                views(self.private_links@),
                capacity,
                views(self.devices@),
                flows,
                views(self.public_links@),
                self.contiguity_bonus,
            ),
        )
    }

    /// Consolidates the network and makes the links of the operator in focus players of
    /// their own.
    pub fn map_link_estimate(
        &self,
        capacity: &[Real],
        flows: &[ConsolidatedDemand],
        operator_focus: &str,
    ) -> (r: Result<EstimateMap, EstimateError>)
        requires
            capacity@.len() == self.private_links@.len(),
            ids_fit(views(self.private_links@), self.devices@.len() as int),
        ensures
            ({
                let listed = ends_listed(views(self.private_links@), views(self.devices@));
                let edges = self.edges(capacity@, views(flows@));
                let (after, unpaired) = retagged(edges, operator_focus@);
                match r {
                    Ok(map) => {
                        &&& listed && unpaired is None
                        &&& edge_players(after).len() <= MAX_OPERATORS
                        &&& views(map.edges@) == after
                        &&& views(map.players@) == edge_players(after)
                    },
                    Err(EstimateError::Unpaired(e)) => {
                        &&& listed && unpaired is Some
                        &&& 0 <= unpaired->0 < edges.len()
                        &&& e.names(edges[unpaired->0])
                    },
                    Err(EstimateError::Network(e)) => if listed {
                        &&& unpaired is None
                        &&& edge_players(after).len() > MAX_OPERATORS
                        &&& e@ == (Fault::TooManyOperators {
                            count: edge_players(after).len() as int,
                            limit: MAX_OPERATORS as int,
                        })
                    } else {
                        exists|i: int| #[trigger]
                            first_broken(views(self.private_links@), views(self.devices@), i) && e@
                                == Fault::MissingDevice(
                                missing_end(
                                    views(self.private_links@)[i],
                                    views(self.devices@),
                                )->0,
                            )
                    },
                }
            }),
    {
        let mut edges = match consolidate_links(
            self.private_links.as_slice(),
            capacity,
            self.devices.as_slice(),
            flows,
            self.public_links.as_slice(),
            self.contiguity_bonus,
        ) {
            Ok(edges) => edges,
            Err(e) => {
                return Err(EstimateError::Network(e));
            },
        };
        match retag_links(&mut edges, operator_focus) {
            Ok(()) => {},
            Err(e) => {
                return Err(EstimateError::Unpaired(e));
            },
        }
        match find_edge_players(edges.as_slice()) {
            Ok(players) => Ok(EstimateMap { edges, players }),
            Err(e) => Err(EstimateError::Network(e)),
        }
    }

    /// Two networks differ at most in how likely their operators are up.
    pub open spec fn same_but_uptime(self, other: ShapleyInput) -> bool {
        &&& views(self.private_links@) == views(other.private_links@)
        &&& views(self.devices@) == views(other.devices@)
        &&& views(self.demands@) == views(other.demands@)
        &&& views(self.public_links@) == views(other.public_links@)
        &&& self.contiguity_bonus == other.contiguity_bonus
        &&& self.demand_multiplier == other.demand_multiplier
    }
}

/// How likely operators are up has no effect on what their links are worth, not even on
/// how many operators there may be: networks that differ in nothing else are refused
/// alike, and give the same edges and players.
pub proof fn uptime_does_not_matter_to_links(
    a: ShapleyInput,
    b: ShapleyInput,
    capacity: Seq<Real>,
    flows: Seq<FlowRow>,
    focus: Seq<char>,
)
    requires
        a.same_but_uptime(b),
    ensures
        a.estimate_fault(focus) == b.estimate_fault(focus),
        retagged(a.edges(capacity, flows), focus) == retagged(b.edges(capacity, flows), focus),
        edge_players(retagged(a.edges(capacity, flows), focus).0) == edge_players(
            retagged(b.edges(capacity, flows), focus).0,
        ),
{
}

} // verus!
