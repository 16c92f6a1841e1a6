//! Why each link of the operator in focus becomes one player, in both directions.
use crate::consolidation::links::{
    all_edges, compacted, crossings, ends_of, entry_edge, exit_edge, forward_edges, id_span,
    is_public_city, kinds_of, leads, naught, off_ramps, operator_of, private_ramps, public_edge,
    public_pair, public_pairs, public_ramps, reverse_edges, serves, shared_cities, shared_city,
    source_of, stops_of, switch_of,
};
use crate::constants::{OP_OTHERS, OP_PRIVATE, OP_PUBLIC, PUBLIC_SWITCH_SUFFIX};
use crate::link_estimate::{
    collapsed, edge_players, ends_kept, is_capital, is_dropped, is_figure, is_link, is_reverse,
    is_tagged, link_player, names_switch, numbered, opened, retag_from, retagged, reverse_from,
    row_of_edge, seen_from, tags_of, LinkEntry,
};
use crate::lists::{
    count_grows, count_where, gather, gather_all, gather_holds, gather_member, gather_same,
    gather_skips, sorted_ids, sorted_ids_exist,
};
use crate::quantity::Real;
use crate::shapley::is_player;
use crate::text::{
    digit_char, holds_digit, lex_less, numeral, place, sorted_list, sorted_list_exists,
};
use crate::types::{DeviceRow, EdgeRow, FlowRow, PrivateRow, PublicRow};
use vstd::prelude::*;

verus! {

/// The first edge that is edge `i` in the other direction.
pub open spec fn mate(edges: Seq<EdgeRow>, i: int) -> int {
    reverse_from(edges, i, 0)
}

/// Edge `i` is a link of the operator in focus.
pub open spec fn is_own_link(edges: Seq<EdgeRow>, focus: Seq<char>, i: int) -> bool {
    is_tagged(edges[i], focus) && is_link(edges[i])
}

/// Each link of the operator in focus has one reverse, whose reverse it is, with the
/// operators of its ends swapped.
pub open spec fn links_paired(edges: Seq<EdgeRow>, focus: Seq<char>) -> bool {
    forall|i: int|
        0 <= i < edges.len() && #[trigger] is_own_link(edges, focus, i) ==> {
            let s = mate(edges, i);
            &&& 0 <= s < edges.len()
            &&& s != i
            &&& mate(edges, s) == i
            &&& edges[s].operator1 == edges[i].operator2
            &&& edges[s].operator2 == edges[i].operator1
        }
}

/// Edge `i` is the direction of a link that comes first.
pub open spec fn is_lead(edges: Seq<EdgeRow>, focus: Seq<char>, i: int) -> bool {
    is_own_link(edges, focus, i) && i < mate(edges, i)
}

/// How many links come before edge `i`, each counted where it comes first.
pub open spec fn leads_before(edges: Seq<EdgeRow>, focus: Seq<char>, i: int) -> nat {
    count_where(i, |j: int| is_lead(edges, focus, j))
}

/// The number of a link: both directions have that of the one that comes first.
pub open spec fn link_number(edges: Seq<EdgeRow>, focus: Seq<char>, i: int) -> nat {
    let first = if i < mate(edges, i) {
        i
    } else {
        mate(edges, i)
    };
    1 + leads_before(edges, focus, first)
}

/// An operator, or the number of the link where it is the one in focus.
pub open spec fn or_number(operator: Seq<char>, focus: Seq<char>, number: nat) -> Seq<char> {
    if operator == focus {
        numeral(number)
    } else {
        operator
    }
}

/// What becomes of edge `i`: a link of the operator in focus gets its number in place of
/// the operator, any other edge of the operator is a way that is always open, and the
/// rest stays.
pub open spec fn outcome_of(edges: Seq<EdgeRow>, focus: Seq<char>, i: int) -> EdgeRow {
    if !is_tagged(edges[i], focus) {
        edges[i]
    } else if is_link(edges[i]) {
        EdgeRow {
            operator1: or_number(edges[i].operator1, focus, link_number(edges, focus, i)),
            operator2: or_number(edges[i].operator2, focus, link_number(edges, focus, i)),
            ..edges[i]
        }
    } else {
        opened(edges[i])
    }
}

/// Edge `i` is done once the edges before `from` are.
spec fn is_done(edges: Seq<EdgeRow>, focus: Seq<char>, i: int, from: int) -> bool {
    i < from || (is_own_link(edges, focus, i) && mate(edges, i) < from)
}

/// Edges with the same ends have the same reverses.
proof fn reverse_agrees(a: Seq<EdgeRow>, b: Seq<EdgeRow>, i: int, s: int)
    requires
        a.len() == b.len(),
        0 <= i < a.len(),
        0 <= s,
        forall|k: int| 0 <= k < a.len() ==> ends_kept(#[trigger] a[k], b[k]),
    ensures
        reverse_from(a, i, s) == reverse_from(b, i, s),
    decreases a.len() - s,
{
    if s < a.len() {
        assert(ends_kept(a[i], b[i]));
        assert(ends_kept(a[s], b[s]));
        if !is_reverse(a[i], a[s]) {
            reverse_agrees(a, b, i, s + 1);
        }
    }
}

/// A reverse is no earlier than where the search starts, and is one.
pub proof fn reverse_found(edges: Seq<EdgeRow>, i: int, s: int)
    requires
        0 <= s <= edges.len(),
    ensures
        s <= reverse_from(edges, i, s) <= edges.len(),
        reverse_from(edges, i, s) < edges.len() ==> is_reverse(
            edges[i],
            edges[reverse_from(edges, i, s)],
        ),
        forall|k: int|
            s <= k < reverse_from(edges, i, s) ==> !is_reverse(edges[i], #[trigger] edges[k]),
    decreases edges.len() - s,
{
    if s < edges.len() && !is_reverse(edges[i], edges[s]) {
        reverse_found(edges, i, s + 1);
    }
}

/// The state of the walk over the tagged edges, once those before `from` are done.
spec fn is_midway(
    edges: Seq<EdgeRow>,
    focus: Seq<char>,
    now: Seq<EdgeRow>,
    tags: Seq<bool>,
    from: int,
) -> bool {
    &&& now.len() == edges.len()
    &&& tags.len() == edges.len()
    &&& forall|i: int|
        0 <= i < edges.len() ==> #[trigger] now[i] == if is_done(edges, focus, i, from) {
            outcome_of(edges, focus, i)
        } else {
            edges[i]
        }
    &&& forall|i: int|
        from <= i < edges.len() ==> #[trigger] tags[i] == (is_tagged(edges[i], focus) && !is_done(
            edges,
            focus,
            i,
            from,
        ))
}

/// The walk ends with every edge as it should be.
#[verifier::rlimit(40)]
proof fn walk_ends_well(
    edges: Seq<EdgeRow>,
    focus: Seq<char>,
    now: Seq<EdgeRow>,
    tags: Seq<bool>,
    from: int,
)
    requires
        links_paired(edges, focus),
        0 <= from <= edges.len(),
        is_midway(edges, focus, now, tags, from),
    ensures
        ({
            let counter = leads_before(edges, focus, from) as int;
            let (done, lost) = retag_from(now, tags, edges.len() as int, from, counter, focus);
            &&& lost is None
            &&& done == Seq::new(edges.len(), |i: int| outcome_of(edges, focus, i))
        }),
    decreases edges.len() - from,
{
    let n = edges.len() as int;
    let counter = leads_before(edges, focus, from) as int;
    if from >= n {
        assert(now =~= Seq::new(edges.len(), |i: int| outcome_of(edges, focus, i)));
    } else {
        let own = is_own_link(edges, focus, from);
        let s = mate(edges, from);
        assert(tags[from] == (is_tagged(edges[from], focus) && !is_done(edges, focus, from, from)));
        assert(now[from] == if is_done(edges, focus, from, from) {
            outcome_of(edges, focus, from)
        } else {
            edges[from]
        });
        assert forall|k: int| 0 <= k < n implies ends_kept(#[trigger] now[k], edges[k]) by {
            assert(now[k] == if is_done(edges, focus, k, from) {
                outcome_of(edges, focus, k)
            } else {
                edges[k]
            });
        }
        if own {
            assert(0 <= s < n && s != from && mate(edges, s) == from);
            mate_is_own(edges, focus, from);
        }
        let lead = is_lead(edges, focus, from);
        assert(leads_before(edges, focus, from + 1) == counter + if lead {
            1int
        } else {
            0int
        });
        if !tags[from] {
            done_grows(edges, focus, from);
            assert(is_midway(edges, focus, now, tags, from + 1));
            walk_ends_well(edges, focus, now, tags, from + 1);
        } else if is_link(edges[from]) {
            assert(own && lead);
            reverse_agrees(now, edges, from, 0);
            let tag = numeral((counter + 1) as nat);
            assert(link_number(edges, focus, from) == counter + 1);
            assert(link_number(edges, focus, s) == counter + 1);
            assert(now[s] == edges[s]);
            let next = numbered(now, from, s, tag, focus);
            let left = tags.update(s, false);
            assert(next[from] == outcome_of(edges, focus, from));
            assert(next[s] == outcome_of(edges, focus, s));
            done_grows(edges, focus, from);
            assert forall|i: int| 0 <= i < n implies #[trigger] next[i] == if is_done(
                edges,
                focus,
                i,
                from + 1,
            ) {
                outcome_of(edges, focus, i)
            } else {
                edges[i]
            } by {
                if i != from && i != s {
                    assert(next[i] == now[i]);
                    assert(is_done(edges, focus, i, from + 1) == is_done(edges, focus, i, from));
                }
            }
            assert(is_midway(edges, focus, next, left, from + 1));
            walk_ends_well(edges, focus, next, left, from + 1);
        } else {
            let next = now.update(from, opened(now[from]));
            done_grows(edges, focus, from);
            assert forall|i: int| 0 <= i < n implies #[trigger] next[i] == if is_done(
                edges,
                focus,
                i,
                from + 1,
            ) {
                outcome_of(edges, focus, i)
            } else {
                edges[i]
            } by {
                if i != from {
                    assert(next[i] == now[i]);
                }
            }
            assert(is_midway(edges, focus, next, tags, from + 1));
            walk_ends_well(edges, focus, next, tags, from + 1);
        }
    }
}

/// The reverse of a link of the operator is one too.
proof fn mate_is_own(edges: Seq<EdgeRow>, focus: Seq<char>, i: int)
    requires
        links_paired(edges, focus),
        0 <= i < edges.len(),
        is_own_link(edges, focus, i),
    ensures
        is_own_link(edges, focus, mate(edges, i)),
{
    reverse_found(edges, i, 0);
}

/// What is done with one more edge: the edge itself, and its reverse where it is a link.
proof fn done_grows(edges: Seq<EdgeRow>, focus: Seq<char>, from: int)
    requires
        links_paired(edges, focus),
        0 <= from < edges.len(),
    ensures
        forall|i: int|
            0 <= i < edges.len() ==> #[trigger] is_done(edges, focus, i, from + 1) == (is_done(
                edges,
                focus,
                i,
                from,
            ) || i == from || (is_own_link(edges, focus, from) && i == mate(edges, from))),
{
    assert forall|i: int| 0 <= i < edges.len() implies #[trigger] is_done(
        edges,
        focus,
        i,
        from + 1,
    ) == (is_done(edges, focus, i, from) || i == from || (is_own_link(edges, focus, from) && i
        == mate(edges, from))) by {
        if is_own_link(edges, focus, i) && mate(edges, i) == from {
            mate_is_own(edges, focus, i);
        }
        if is_own_link(edges, focus, from) && i == mate(edges, from) {
            mate_is_own(edges, focus, from);
        }
    }
}

/// Where the links of the operator in focus come in pairs, retagging never fails, and
/// gives every link its number in both directions.
pub proof fn retagging_numbers_the_links(edges: Seq<EdgeRow>, focus: Seq<char>)
    requires
        links_paired(collapsed(edges, focus), focus),
    ensures
        retagged(edges, focus).1 is None,
        retagged(edges, focus).0 == Seq::new(
            edges.len(),
            |i: int| outcome_of(collapsed(edges, focus), focus, i),
        ),
{
    let seen = collapsed(edges, focus);
    let tags = tags_of(seen, focus);
    assert forall|i: int| 0 <= i < seen.len() && is_own_link(seen, focus, i) implies mate(seen, i)
        >= 0 by {
        reverse_found(seen, i, 0);
    }
    assert forall|i: int| 0 <= i < seen.len() implies !#[trigger] is_done(seen, focus, i, 0) by {
        if is_own_link(seen, focus, i) {
            reverse_found(seen, i, 0);
        }
    }
    assert(is_midway(seen, focus, seen, tags, 0));
    walk_ends_well(seen, focus, seen, tags, 0);
    assert(seen.len() == edges.len());
}

/// Two links have one number only if they are the two directions of one link.
pub proof fn numbers_tell_links_apart(edges: Seq<EdgeRow>, focus: Seq<char>, i: int, j: int)
    requires
        links_paired(edges, focus),
        0 <= i < edges.len(),
        0 <= j < edges.len(),
        is_own_link(edges, focus, i),
        is_own_link(edges, focus, j),
    ensures
        numeral(link_number(edges, focus, i)) == numeral(link_number(edges, focus, j)) <==> i == j
            || j == mate(edges, i),
{
    let (s, t) = (mate(edges, i), mate(edges, j));
    mate_is_own(edges, focus, i);
    mate_is_own(edges, focus, j);
    reverse_found(edges, i, 0);
    reverse_found(edges, j, 0);
    let a = if i < s {
        i
    } else {
        s
    };
    let b = if j < t {
        j
    } else {
        t
    };
    assert(is_lead(edges, focus, a) && is_lead(edges, focus, b));
    let p = |k: int| is_lead(edges, focus, k);
    if a < b {
        count_grows(a + 1, b, p, p);
    } else if b < a {
        count_grows(b + 1, a, p, p);
    }
    if numeral(link_number(edges, focus, i)) == numeral(link_number(edges, focus, j)) {
        crate::text::numerals_differ(link_number(edges, focus, i), link_number(edges, focus, j));
    }
}

/// A numeral is the name of no operator with a meaning of its own.
proof fn numeral_is_kept(n: nat)
    ensures
        !is_dropped(numeral(n)),
{
    reveal_strlit("Public");
    reveal_strlit("Private");
    reveal_strlit("Others");
    let last = numeral(n).last();
    assert(last == digit_char((n % 10) as int));
    assert(OP_PUBLIC@.last() == 'c' && OP_PRIVATE@.last() == 'e' && OP_OTHERS@.last() == 's');
    assert(last as int <= 57);
}

/// The row of edge `i`, which has become `after[i]`: a link of the operator in focus is
/// listed from the end whose name comes first, with the place of its player.
pub open spec fn own_row(
    edges: Seq<EdgeRow>,
    after: Seq<EdgeRow>,
    focus: Seq<char>,
    players: Seq<Seq<char>>,
    i: int,
) -> Seq<LinkEntry> {
    if is_own_link(edges, focus, i) && lex_less(edges[i].device1, edges[i].device2) {
        seq![
            LinkEntry {
                device1: edges[i].device1,
                device2: edges[i].device2,
                bandwidth: edges[i].bandwidth,
                latency: edges[i].latency,
                player: Some(place(players, link_player(after[i]))),
            },
        ]
    } else {
        Seq::empty()
    }
}

/// An edge in the other direction of a link of the operator in focus has the operators of
/// the link's ends swapped.
pub open spec fn reverses_swap(edges: Seq<EdgeRow>, focus: Seq<char>) -> bool {
    forall|i: int, s: int|
        0 <= i < edges.len() && 0 <= s < edges.len() && #[trigger] is_own_link(edges, focus, i)
            && is_reverse(edges[i], #[trigger] edges[s]) ==> edges[s].operator1
            == edges[i].operator2 && edges[s].operator2 == edges[i].operator1
}

/// Each link of the operator in focus has a reverse.
pub open spec fn reverses_exist(edges: Seq<EdgeRow>, focus: Seq<char>) -> bool {
    forall|i: int|
        0 <= i < edges.len() && #[trigger] is_own_link(edges, focus, i) ==> mate(edges, i)
            < edges.len()
}

/// The operator is the number of a link.
pub open spec fn is_number(operator: Seq<char>) -> bool {
    exists|m: nat| operator == #[trigger] numeral(m)
}

/// An end of a link that belongs to the operator in focus has become a number; any other
/// is as before.
pub open spec fn is_renamed(before: Seq<char>, after: Seq<char>, focus: Seq<char>) -> bool {
    if before == focus {
        is_number(after)
    } else {
        after == before
    }
}

/// What has become of edge `i` once those before `from` are done.
pub open spec fn is_settled(
    edges: Seq<EdgeRow>,
    focus: Seq<char>,
    now: Seq<EdgeRow>,
    tags: Seq<bool>,
    from: int,
    i: int,
) -> bool {
    &&& ends_kept(edges[i], now[i])
    &&& i >= from && tags[i] ==> is_tagged(edges[i], focus)
    &&& if !is_tagged(edges[i], focus) || (i >= from && tags[i]) {
        now[i] == edges[i]
    } else if is_link(edges[i]) {
        is_renamed(edges[i].operator1, now[i].operator1, focus) && is_renamed(
            edges[i].operator2,
            now[i].operator2,
            focus,
        )
    } else {
        i < from && now[i] == opened(edges[i])
    }
}

/// The walk over the tagged edges leaves every link of the operator in focus with numbers
/// for the operator, however the links pair up, unless it finds one without a reverse.
#[verifier::rlimit(40)]
proof fn walk_settles(
    edges: Seq<EdgeRow>,
    focus: Seq<char>,
    now: Seq<EdgeRow>,
    tags: Seq<bool>,
    from: int,
    counter: int,
)
    requires
        reverses_swap(edges, focus),
        0 <= from <= edges.len(),
        0 <= counter,
        now.len() == edges.len(),
        tags.len() == edges.len(),
        forall|i: int|
            0 <= i < edges.len() ==> #[trigger] is_settled(edges, focus, now, tags, from, i),
    ensures
        ({
            let n = edges.len() as int;
            let (done, lost) = retag_from(now, tags, n, from, counter, focus);
            &&& reverses_exist(edges, focus) ==> lost is None
            &&& lost matches Some(k) ==> 0 <= k < n && is_own_link(edges, focus, k) && mate(edges, k)
                >= n
            &&& lost is None ==> done.len() == n && forall|i: int|
                0 <= i < n ==> #[trigger] is_settled(edges, focus, done, tags, n, i)
        }),
    decreases edges.len() - from,
{
    let n = edges.len() as int;
    assert forall|k: int| 0 <= k < n implies ends_kept(#[trigger] now[k], edges[k]) by {
        assert(is_settled(edges, focus, now, tags, from, k));
    }
    if from >= n {
        assert forall|i: int| 0 <= i < n implies #[trigger] is_settled(
            edges,
            focus,
            now,
            tags,
            n,
            i,
        ) by {
            assert(is_settled(edges, focus, now, tags, from, i));
        }
    } else {
        assert(is_settled(edges, focus, now, tags, from, from));
        if !tags[from] {
            assert forall|i: int| 0 <= i < n implies #[trigger] is_settled(
                edges,
                focus,
                now,
                tags,
                from + 1,
                i,
            ) by {
                assert(is_settled(edges, focus, now, tags, from, i));
            }
            walk_settles(edges, focus, now, tags, from + 1, counter);
        } else if is_link(edges[from]) {
            assert(is_own_link(edges, focus, from));
            reverse_agrees(now, edges, from, 0);
            reverse_found(edges, from, 0);
            let s = mate(edges, from);
            if s < n {
                let tag = numeral((counter + 1) as nat);
                let next = numbered(now, from, s, tag, focus);
                let left = tags.update(s, false);
                assert(is_number(tag));
                assert(is_settled(edges, focus, now, tags, from, s));
                assert(is_reverse(edges[from], edges[s]));
                assert(is_own_link(edges, focus, s));
                assert forall|i: int| 0 <= i < n implies #[trigger] is_settled(
                    edges,
                    focus,
                    next,
                    left,
                    from + 1,
                    i,
                ) by {
                    assert(is_settled(edges, focus, now, tags, from, i));
                    if i != from && i != s {
                        assert(next[i] == now[i]);
                    }
                }
                walk_settles(edges, focus, next, left, from + 1, counter + 1);
                let (done, lost) = retag_from(next, left, n, from + 1, counter + 1, focus);
                if lost is None {
                    assert forall|i: int| 0 <= i < n implies #[trigger] is_settled(
                        edges,
                        focus,
                        done,
                        tags,
                        n,
                        i,
                    ) by {
                        assert(is_settled(edges, focus, done, left, n, i));
                    }
                }
            }
        } else {
            let next = now.update(from, opened(now[from]));
            assert forall|i: int| 0 <= i < n implies #[trigger] is_settled(
                edges,
                focus,
                next,
                tags,
                from + 1,
                i,
            ) by {
                assert(is_settled(edges, focus, now, tags, from, i));
            }
            walk_settles(edges, focus, next, tags, from + 1, counter);
        }
    }
}

/// How retagging ends: it succeeds where every link of the operator in focus has a
/// reverse, and leaves every edge settled.
pub proof fn retagging_settles(edges: Seq<EdgeRow>, focus: Seq<char>)
    requires
        reverses_swap(collapsed(edges, focus), focus),
    ensures
        ({
            let seen = collapsed(edges, focus);
            let n = edges.len() as int;
            let (done, lost) = retagged(edges, focus);
            &&& reverses_exist(seen, focus) ==> lost is None
            &&& lost matches Some(k) ==> 0 <= k < n && is_own_link(seen, focus, k) && mate(seen, k)
                >= n
            &&& lost is None ==> done.len() == n && forall|i: int|
                0 <= i < n ==> #[trigger] is_settled(seen, focus, done, tags_of(seen, focus), n, i)
        }),
{
    let seen = collapsed(edges, focus);
    let tags = tags_of(seen, focus);
    assert forall|i: int| 0 <= i < seen.len() implies #[trigger] is_settled(
        seen,
        focus,
        seen,
        tags,
        0,
        i,
    ) by {}
    walk_settles(seen, focus, seen, tags, 0, 0);
}

/// Retagging succeeds where every link of the operator in focus has a reverse.
pub proof fn retagging_succeeds(edges: Seq<EdgeRow>, focus: Seq<char>)
    requires
        reverses_swap(collapsed(edges, focus), focus),
        reverses_exist(collapsed(edges, focus), focus),
    ensures
        retagged(edges, focus).1 is None,
{
    retagging_settles(edges, focus);
}

/// The operators of an edge that are players.
pub proof fn operator_is_player(edges: Seq<EdgeRow>, i: int, operator: Seq<char>)
    requires
        0 <= i < edges.len(),
        edges[i].operator1 == operator || edges[i].operator2 == operator,
        is_player(operator),
    ensures
        edge_players(edges).contains(operator),
{
    let f = |i: int|
        (if is_player(edges[i].operator1) {
            seq![edges[i].operator1]
        } else {
            Seq::empty()
        }) + (if is_player(edges[i].operator2) {
            seq![edges[i].operator2]
        } else {
            Seq::empty()
        });
    let names = gather(edges.len() as int, f);
    let j: int = if edges[i].operator1 == operator || !is_player(edges[i].operator1) {
        0
    } else {
        1
    };
    assert(f(i)[j] == operator);
    gather_holds(edges.len() as int, f, i, j);
    assert(names.contains(operator));
    sorted_list_exists(names);
    assert(edge_players(edges) == sorted_list(names));
}

/// Whenever retagging succeeds, what is listed is each link of the operator in focus once,
/// from the end whose name comes first, and nothing else. The player of each is a number:
/// that of the link, where the links come in pairs.
pub proof fn own_links_are_listed(edges: Seq<EdgeRow>, focus: Seq<char>)
    requires
        reverses_swap(collapsed(edges, focus), focus),
        retagged(edges, focus).1 is None,
    ensures
        ({
            let seen = collapsed(edges, focus);
            let after = retagged(edges, focus).0;
            let players = edge_players(after);
            &&& gather(edges.len() as int, |i: int| row_of_edge(after[i], players)) == gather(
                edges.len() as int,
                |i: int| own_row(seen, after, focus, players, i),
            )
            &&& forall|i: int|
                0 <= i < edges.len() && #[trigger] is_own_link(seen, focus, i) ==> is_number(
                    link_player(after[i]),
                ) && players.contains(link_player(after[i])) && (links_paired(seen, focus)
                    ==> link_player(after[i]) == numeral(link_number(seen, focus, i)))
        }),
{
    let seen = collapsed(edges, focus);
    let tags = tags_of(seen, focus);
    let n = edges.len() as int;
    let after = retagged(edges, focus).0;
    let players = edge_players(after);
    retagging_settles(edges, focus);
    assert forall|i: int| 0 <= i < n && #[trigger] is_own_link(seen, focus, i) implies is_number(
        link_player(after[i]),
    ) && players.contains(link_player(after[i])) && !is_dropped(link_player(after[i])) && (
    links_paired(seen, focus) ==> link_player(after[i]) == numeral(
        link_number(seen, focus, i),
    )) by {
        assert(is_settled(seen, focus, after, tags, n, i));
        let first = seen[i].operator1 == focus;
        let player = if first {
            after[i].operator1
        } else {
            after[i].operator2
        };
        assert(is_number(player));
        let m = choose|m: nat| player == #[trigger] numeral(m);
        numeral_is_kept(m);
        assert(first || is_dropped(after[i].operator1));
        assert(link_player(after[i]) == player);
        operator_is_player(after, i, player);
        if links_paired(seen, focus) {
            retagging_numbers_the_links(edges, focus);
            assert(after[i] == outcome_of(seen, focus, i));
        }
    }
    let f = |i: int| row_of_edge(after[i], players);
    let g = |i: int| own_row(seen, after, focus, players, i);
    assert forall|i: int| 0 <= i < n implies #[trigger] f(i) == g(i) by {
        assert(is_settled(seen, focus, after, tags, n, i));
        if is_own_link(seen, focus, i) {
            assert(players.contains(link_player(after[i])));
        } else {
            assert(is_dropped(after[i].operator1) && is_dropped(after[i].operator2));
        }
    }
    gather_same(n, f, g);
}

/// An operator without links has no rows: retagging succeeds and nothing is listed.
pub proof fn nothing_is_listed_without_links(
    edges: Seq<EdgeRow>,
    focus: Seq<char>,
    players: Seq<Seq<char>>,
)
    requires
        focus != OP_OTHERS@,
        forall|i: int| 0 <= i < edges.len() ==> !#[trigger] is_own_link(edges, focus, i),
    ensures
        retagged(edges, focus).1 is None,
        gather(
            edges.len() as int,
            |i: int| row_of_edge(retagged(edges, focus).0[i], players),
        ).len() == 0,
{
    let seen = collapsed(edges, focus);
    assert forall|i: int| 0 <= i < seen.len() implies !#[trigger] is_own_link(seen, focus, i) by {
        assert(!is_own_link(edges, focus, i));
    }
    retagging_numbers_the_links(edges, focus);
    let after = retagged(edges, focus).0;
    let f = |i: int| row_of_edge(after[i], players);
    assert forall|i: int| 0 <= i < edges.len() implies (#[trigger] f(i)).len() == 0 by {
        assert(after[i] == outcome_of(seen, focus, i));
        assert(!is_own_link(seen, focus, i));
        assert(is_dropped(after[i].operator1) && is_dropped(after[i].operator2));
    }
    gather_skips(0, edges.len() as int, f);
    gather_same(edges.len() as int, f, |i: int| row_of_edge(retagged(edges, focus).0[i], players));
}

/// A city without a digit is no switch.
proof fn city_is_no_switch(name: Seq<char>)
    requires
        !holds_digit(name),
    ensures
        !names_switch(name),
{
    if names_switch(name) {
        assert(is_figure(name[3]));
    }
}

/// Nor is its public switch one of an operator.
proof fn public_switch_is_no_switch(city: Seq<char>)
    requires
        !holds_digit(city),
    ensures
        !names_switch(switch_of(city)),
{
    let name = switch_of(city);
    reveal_strlit("00");
    assert(PUBLIC_SWITCH_SUFFIX@.len() == 2);
    let n = city.len() as int;
    assert(name[n] == '0' && name[n + 1] == '0');
    if names_switch(name) {
        if n < 3 {
            assert(is_capital(name[n]));
        } else if n > 3 {
            assert(name[3] == city[3]);
            assert(is_figure(name[3]));
        }
    }
}

/// The labels of cities hold no digit.
pub open spec fn labels_plain(flows: Seq<FlowRow>, publics: Seq<PublicRow>) -> bool {
    &&& forall|d: int|
        0 <= d < flows.len() ==> !holds_digit((#[trigger] flows[d]).start) && !holds_digit(
            flows[d].end,
        )
    &&& forall|i: int|
        0 <= i < publics.len() ==> !holds_digit((#[trigger] publics[i]).city1) && !holds_digit(
            publics[i].city2,
        )
}

/// The links can be told apart by their ends, bandwidth and latency, none of which is
/// missing, and none leads back to where it starts.
pub open spec fn links_distinct(links: Seq<PrivateRow>, capacity: Seq<Real>) -> bool {
    &&& forall|i: int|
        0 <= i < links.len() ==> (#[trigger] links[i]).device1 != links[i].device2
            && !links[i].latency.nan() && !capacity[i].nan()
    &&& forall|i: int, j: int|
        0 <= i < links.len() && 0 <= j < links.len() && i != j ==> !runs_beside(
            links,
            capacity,
            i,
            j,
        )
}

/// Two links have the same ends in either order, equal bandwidth and equal latency.
pub open spec fn runs_beside(links: Seq<PrivateRow>, capacity: Seq<Real>, i: int, j: int) -> bool {
    let (a, b) = (links[i], links[j]);
    &&& (a.device1 == b.device1 && a.device2 == b.device2) || (a.device1 == b.device2 && a.device2
        == b.device1)
    &&& capacity[i].equal_to(capacity[j])
    &&& a.latency.equal_to(b.latency)
}

/// Where flows of a kind start and end, no label holds a digit.
proof fn ends_plain(flows: Seq<FlowRow>, publics: Seq<PublicRow>, kind: u32)
    requires
        labels_plain(flows, publics),
        kinds_of(flows).contains(kind),
    ensures
        !holds_digit(source_of(flows, kind)),
        forall|d: int|
            0 <= d < stops_of(flows, kind).len() ==> !holds_digit(
                #[trigger] stops_of(flows, kind)[d],
            ),
{
    let at = choose|at: int| 0 <= at < flows.len() && kinds_of(flows)[at] == kind;
    let lead = first_of_kind(flows, kind, at);
    assert(leads(flows, kind, lead));
    let c = choose|i: int| leads(flows, kind, i);
    assert(!holds_digit(flows[c].start));
    let ends = ends_of(flows, kind);
    let stops = stops_of(flows, kind);
    sorted_list_exists(ends);
    let f = |i: int|
        if flows[i].kind == kind {
            seq![flows[i].end]
        } else {
            Seq::empty()
        };
    assert forall|d: int| 0 <= d < stops.len() implies !holds_digit(#[trigger] stops[d]) by {
        assert(stops.contains(stops[d]));
        assert(ends.contains(stops[d]));
        let m = choose|m: int| 0 <= m < ends.len() && ends[m] == stops[d];
        let (i, j) = gather_member(flows.len() as int, f, m);
        assert(!holds_digit(flows[i].end));
    }
}

/// The first flow of a kind, at or before one of it.
proof fn first_of_kind(flows: Seq<FlowRow>, kind: u32, at: int) -> (i: int)
    requires
        0 <= at < flows.len(),
        flows[at].kind == kind,
    ensures
        leads(flows, kind, i),
    decreases at,
{
    if exists|k: int| 0 <= k < at && (#[trigger] flows[k]).kind == kind {
        let k = choose|k: int| 0 <= k < at && (#[trigger] flows[k]).kind == kind;
        first_of_kind(flows, kind, k)
    } else {
        at
    }
}

/// Of the consolidated edges, those beyond the private links lead to or from a city.
proof fn ramps_are_no_links(
    links: Seq<PrivateRow>,
    capacity: Seq<Real>,
    devices: Seq<DeviceRow>,
    flows: Seq<FlowRow>,
    publics: Seq<PublicRow>,
    bonus: Real,
    i: int,
)
    requires
        labels_plain(flows, publics),
        2 * links.len() <= i < all_edges(links, capacity, devices, flows, publics, bonus).len(),
    ensures
        !is_link(all_edges(links, capacity, devices, flows, publics, bonus)[i]),
{
    let all = all_edges(links, capacity, devices, flows, publics, bonus);
    let span = id_span(links);
    let types = sorted_ids(kinds_of(flows));
    let cities = shared_cities(devices, publics);
    sorted_ids_exist(kinds_of(flows));
    let q = |e: EdgeRow| !is_link(e);
    let ramps = |t: int| private_ramps(devices, span, flows, types[t]);
    assert forall|t: int, j: int| 0 <= t < types.len() && 0 <= j < ramps(t).len() implies q(
        #[trigger] ramps(t)[j],
    ) by {
        assert(types.contains(types[t]));
        ends_plain(flows, publics, types[t]);
        ramps_lead_to_cities(devices, span, flows, types[t], q);
    }
    gather_all(types.len() as int, ramps, q);
    let cross = |c: int| crossings(devices, span, cities[c], bonus);
    assert forall|c: int, j: int| 0 <= c < cities.len() && 0 <= j < cross(c).len() implies q(
        #[trigger] cross(c)[j],
    ) by {
        shared_city_plain(devices, flows, publics, c);
        crossings_lead_to_cities(devices, span, cities[c], bonus, q);
    }
    gather_all(cities.len() as int, cross, q);
    let pairs = |i: int| public_pair(publics[i]);
    assert forall|i: int, j: int| 0 <= i < publics.len() && 0 <= j < pairs(i).len() implies q(
        #[trigger] pairs(i)[j],
    ) by {
        assert(!holds_digit(publics[i].city1) && !holds_digit(publics[i].city2));
        public_switch_is_no_switch(publics[i].city1);
        public_switch_is_no_switch(publics[i].city2);
    }
    gather_all(publics.len() as int, pairs, q);
    let exits = |t: int| public_ramps(flows, types[t]);
    assert forall|t: int, j: int| 0 <= t < types.len() && 0 <= j < exits(t).len() implies q(
        #[trigger] exits(t)[j],
    ) by {
        assert(types.contains(types[t]));
        ends_plain(flows, publics, types[t]);
        city_is_no_switch(source_of(flows, types[t]));
        let stops = stops_of(flows, types[t]);
        let k = |d: int| seq![public_edge(switch_of(stops[d]), stops[d], naught(), types[t])];
        assert forall|d: int, j: int| 0 <= d < stops.len() && 0 <= j < k(d).len() implies q(
            #[trigger] k(d)[j],
        ) by {
            city_is_no_switch(stops[d]);
        }
        gather_all(stops.len() as int, k, q);
    }
    gather_all(types.len() as int, exits, q);
    let n = links.len() as int;
    let a = gather(types.len() as int, ramps);
    let b = gather(cities.len() as int, cross);
    let c = public_pairs(publics);
    let d = gather(types.len() as int, exits);
    if i < 2 * n + a.len() {
        assert(all[i] == a[i - 2 * n]);
    } else if i < 2 * n + a.len() + b.len() {
        assert(all[i] == b[i - 2 * n - a.len()]);
    } else if i < 2 * n + a.len() + b.len() + c.len() {
        assert(all[i] == c[i - 2 * n - a.len() - b.len()]);
    } else {
        assert(all[i] == d[i - 2 * n - a.len() - b.len() - c.len()]);
    }
}

/// The ways into and out of the private network have a city at one end.
proof fn ramps_lead_to_cities(
    devices: Seq<DeviceRow>,
    span: int,
    flows: Seq<FlowRow>,
    kind: u32,
    q: spec_fn(EdgeRow) -> bool,
)
    requires
        q == (|e: EdgeRow| !is_link(e)),
        !holds_digit(source_of(flows, kind)),
        forall|d: int|
            0 <= d < stops_of(flows, kind).len() ==> !holds_digit(
                #[trigger] stops_of(flows, kind)[d],
            ),
    ensures
        forall|k: int|
            0 <= k < private_ramps(devices, span, flows, kind).len() ==> q(
                #[trigger] private_ramps(devices, span, flows, kind)[k],
            ),
{
    let source = source_of(flows, kind);
    let stops = stops_of(flows, kind);
    let n = devices.len() as int;
    city_is_no_switch(source);
    let f = |i: int|
        if serves(devices[i].device, source) {
            seq![entry_edge(devices, span, i, source, naught(), kind)]
        } else {
            Seq::empty()
        };
    gather_all(n, f, q);
    let g = |d: int| off_ramps(devices, span, stops[d], kind);
    assert forall|d: int, j: int| 0 <= d < stops.len() && 0 <= j < g(d).len() implies q(
        #[trigger] g(d)[j],
    ) by {
        city_is_no_switch(stops[d]);
        let h = |i: int|
            if serves(devices[i].device, stops[d]) {
                seq![exit_edge(devices, span, i, stops[d], naught(), kind)]
            } else {
                Seq::empty()
            };
        gather_all(n, h, q);
        assert(g(d) == gather(n, h));
    }
    gather_all(stops.len() as int, g, q);
}

/// The crossings have a public switch at one end.
proof fn crossings_lead_to_cities(
    devices: Seq<DeviceRow>,
    span: int,
    city: Seq<char>,
    bonus: Real,
    q: spec_fn(EdgeRow) -> bool,
)
    requires
        q == (|e: EdgeRow| !is_link(e)),
        !holds_digit(city),
    ensures
        forall|k: int|
            0 <= k < crossings(devices, span, city, bonus).len() ==> q(
                #[trigger] crossings(devices, span, city, bonus)[k],
            ),
{
    let n = devices.len() as int;
    public_switch_is_no_switch(city);
    let f = |i: int|
        if serves(devices[i].device, city) {
            seq![
                exit_edge(devices, span, i, switch_of(city), bonus, 0),
                entry_edge(devices, span, i, switch_of(city), bonus, 0),
            ]
        } else {
            Seq::empty()
        };
    gather_all(n, f, q);
}

/// The cities that both networks reach are cities of public links.
proof fn shared_city_plain(
    devices: Seq<DeviceRow>,
    flows: Seq<FlowRow>,
    publics: Seq<PublicRow>,
    c: int,
)
    requires
        labels_plain(flows, publics),
        0 <= c < shared_cities(devices, publics).len(),
    ensures
        !holds_digit(shared_cities(devices, publics)[c]),
{
    let f = |i: int| shared_city(publics, devices[i].device);
    let all = gather(devices.len() as int, f);
    let cities = shared_cities(devices, publics);
    sorted_list_exists(all);
    assert(cities.contains(cities[c]));
    assert(all.contains(cities[c]));
    let m = choose|m: int| 0 <= m < all.len() && all[m] == cities[c];
    let (i, j) = gather_member(devices.len() as int, f, m);
    assert(is_public_city(publics, cities[c]));
    let k = choose|k: int|
        0 <= k < publics.len() && ((#[trigger] publics[k]).city1 == cities[c] || publics[k].city2
            == cities[c]);
    assert(!holds_digit(publics[k].city1) && !holds_digit(publics[k].city2));
}

/// In a consolidated network whose links can be told apart, the links of every operator
/// come in pairs: the other direction of a link is found as such.
pub proof fn consolidated_links_pair_up(
    links: Seq<PrivateRow>,
    capacity: Seq<Real>,
    devices: Seq<DeviceRow>,
    flows: Seq<FlowRow>,
    publics: Seq<PublicRow>,
    bonus: Real,
    focus: Seq<char>,
)
    requires
        labels_plain(flows, publics),
        links_distinct(links, capacity),
    ensures
        links_paired(
            collapsed(
                compacted(all_edges(links, capacity, devices, flows, publics, bonus)),
                focus,
            ),
            focus,
        ),
{
    let all = all_edges(links, capacity, devices, flows, publics, bonus);
    let edges = collapsed(compacted(all), focus);
    let n = links.len() as int;
    let ahead = forward_edges(links, capacity, devices);
    let back = reverse_edges(links, capacity, devices);
    assert forall|i: int| 0 <= i < n implies #[trigger] all[i] == ahead[i] && all[n + i]
        == back[i] by {}
    assert forall|i: int| 0 <= i < edges.len() && #[trigger] is_own_link(edges, focus, i) implies ({
        let s = mate(edges, i);
        &&& 0 <= s < edges.len()
        &&& s != i
        &&& mate(edges, s) == i
        &&& edges[s].operator1 == edges[i].operator2
        &&& edges[s].operator2 == edges[i].operator1
    }) by {
        if i >= 2 * n {
            ramps_are_no_links(links, capacity, devices, flows, publics, bonus, i);
            assert(edges[i].device1 == all[i].device1 && edges[i].device2 == all[i].device2);
        }
        let j = if i < n {
            i
        } else {
            i - n
        };
        link_mates(links, capacity, devices, flows, publics, bonus, focus, j);
        assert(all[j] == ahead[j] && all[n + j] == back[j]);
    }
}

/// The links of an operator have no bandwidth or latency missing.
pub open spec fn own_links_whole(
    links: Seq<PrivateRow>,
    capacity: Seq<Real>,
    devices: Seq<DeviceRow>,
    focus: Seq<char>,
) -> bool {
    forall|i: int|
        0 <= i < links.len() && (operator_of(devices, (#[trigger] links[i]).device1) == focus
            || operator_of(devices, links[i].device2) == focus) ==> !links[i].latency.nan()
            && !capacity[i].nan()
}

/// In a consolidated network the operators of links go by their ends; and where no link of
/// the operator in focus lacks a bandwidth or a latency, retagging succeeds, even if links
/// run beside each other. Whenever it does, each link of the operator is listed once.
pub proof fn consolidated_links_are_listed(
    links: Seq<PrivateRow>,
    capacity: Seq<Real>,
    devices: Seq<DeviceRow>,
    flows: Seq<FlowRow>,
    publics: Seq<PublicRow>,
    bonus: Real,
    focus: Seq<char>,
)
    requires
        labels_plain(flows, publics),
    ensures
        ({
            let edges = compacted(all_edges(links, capacity, devices, flows, publics, bonus));
            let seen = collapsed(edges, focus);
            let (after, lost) = retagged(edges, focus);
            let players = edge_players(after);
            &&& reverses_swap(seen, focus)
            &&& focus != OP_OTHERS@ && own_links_whole(links, capacity, devices, focus)
                ==> lost is None
            &&& lost is None ==> gather(
                edges.len() as int,
                |i: int| row_of_edge(after[i], players),
            ) == gather(
                edges.len() as int,
                |i: int| own_row(seen, after, focus, players, i),
            )
        }),
{
    let all = all_edges(links, capacity, devices, flows, publics, bonus);
    let edges = compacted(all);
    let seen = collapsed(edges, focus);
    let n = links.len() as int;
    let ahead = forward_edges(links, capacity, devices);
    let back = reverse_edges(links, capacity, devices);
    assert forall|i: int| 0 <= i < n implies {
        &&& (#[trigger] ahead[i]) == all[i]
        &&& back[i] == all[n + i]
    } by {}
    assert forall|i: int| 0 <= i < seen.len() && is_link(seen[i]) implies {
        &&& i < 2 * n
        &&& (#[trigger] seen[i]).operator1 == seen_from(
            operator_of(devices, seen[i].device1),
            focus,
        )
        &&& seen[i].operator2 == seen_from(operator_of(devices, seen[i].device2), focus)
    } by {
        if i >= 2 * n {
            ramps_are_no_links(links, capacity, devices, flows, publics, bonus, i);
            assert(seen[i].device1 == all[i].device1 && seen[i].device2 == all[i].device2);
        } else if i < n {
            assert(ahead[i] == all[i]);
        } else {
            assert(ahead[i - n] == all[i - n]);
        }
    }
    assert forall|i: int, s: int|
        0 <= i < seen.len() && 0 <= s < seen.len() && #[trigger] is_own_link(seen, focus, i)
            && is_reverse(seen[i], #[trigger] seen[s]) implies seen[s].operator1
        == seen[i].operator2 && seen[s].operator2 == seen[i].operator1 by {
        assert(is_link(seen[s]));
    }
    if focus != OP_OTHERS@ && own_links_whole(links, capacity, devices, focus) {
        assert forall|i: int| 0 <= i < seen.len() && #[trigger] is_own_link(
            seen,
            focus,
            i,
        ) implies mate(seen, i) < seen.len() by {
            let (j, s) = if i < n {
                (i, n + i)
            } else {
                (i - n, i - n)
            };
            assert(is_link(seen[i]) && i < 2 * n);
            assert(ahead[j] == all[j] && back[j] == all[n + j]);
            assert(operator_of(devices, links[j].device1) == focus || operator_of(
                devices,
                links[j].device2,
            ) == focus);
            assert(is_reverse(seen[i], seen[s]));
            reverse_found(seen, i, 0);
        }
        retagging_succeeds(edges, focus);
    }
    if retagged(edges, focus).1 is None {
        own_links_are_listed(edges, focus);
    }
}

/// The two directions of a link are each other's reverse.
proof fn link_mates(
    links: Seq<PrivateRow>,
    capacity: Seq<Real>,
    devices: Seq<DeviceRow>,
    flows: Seq<FlowRow>,
    publics: Seq<PublicRow>,
    bonus: Real,
    focus: Seq<char>,
    j: int,
)
    requires
        links_distinct(links, capacity),
        0 <= j < links.len(),
    ensures
        ({
            let edges = collapsed(
                compacted(all_edges(links, capacity, devices, flows, publics, bonus)),
                focus,
            );
            &&& mate(edges, j) == links.len() + j
            &&& mate(edges, links.len() + j) == j
        }),
{
    let all = all_edges(links, capacity, devices, flows, publics, bonus);
    let edges = collapsed(compacted(all), focus);
    let n = links.len() as int;
    let ahead = forward_edges(links, capacity, devices);
    let back = reverse_edges(links, capacity, devices);
    assert forall|i: int| 0 <= i < n implies {
        &&& (#[trigger] edges[i]).device1 == links[i].device1
        &&& edges[i].device2 == links[i].device2
        &&& edges[i].latency == links[i].latency
        &&& edges[i].bandwidth == capacity[i]
    } by {
        assert(all[i] == ahead[i]);
    }
    assert forall|i: int| n <= i < 2 * n implies {
        &&& (#[trigger] edges[i]).device1 == links[i - n].device2
        &&& edges[i].device2 == links[i - n].device1
        &&& edges[i].latency == links[i - n].latency
        &&& edges[i].bandwidth == capacity[i - n]
    } by {
        assert(all[i] == back[i - n]);
    }
    assert(links[j].device1 != links[j].device2);
    assert(is_reverse(edges[j], edges[n + j]));
    assert(is_reverse(edges[n + j], edges[j]));
    reverse_found(edges, j, 0);
    reverse_found(edges, n + j, 0);
    let s = mate(edges, j);
    if s < n + j {
        assert(is_reverse(edges[j], edges[s]));
        let k = if s < n {
            s
        } else {
            s - n
        };
        assert(k == j || !runs_beside(links, capacity, k, j));
    }
    let t = mate(edges, n + j);
    if t < j {
        assert(is_reverse(edges[n + j], edges[t]));
        assert(!runs_beside(links, capacity, t, j));
    }
    if s > n + j {
        assert(!is_reverse(edges[j], edges[n + j]));
    }
    if t > j {
        assert(!is_reverse(edges[n + j], edges[j]));
    }
}

} // verus!
