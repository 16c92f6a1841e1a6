//! Which demands are merged, and which flows are carried together.
use crate::consolidation::demand::{
    flow_of, group_heads, group_less, grouping, has_company, head_order, heads_group,
    heads_listed, labels_of, merges, multicast_apart_from_unicast, multicast_rows_stand_alone,
    receivers_fit, receivers_of, singles, unicast_split_by_priority,
};
use crate::lists::{count_where, gather, gather_holds, gather_member, ordered};
use crate::quantity::Real;
use crate::text::{lex_less, lex_less_irreflexive, lex_less_total, lex_less_transitive};
use crate::types::{DemandRow, FlowRow};
use vstd::prelude::*;

verus! {

/// Two demands are carried as one flow: of one kind, to one city, of one rounded priority.
pub open spec fn go_together(demands: Seq<DemandRow>, keys: Seq<i64>, i: int, j: int) -> bool {
    demands[i].kind == demands[j].kind && demands[i].end == demands[j].end && keys[i] == keys[j]
}

/// Demand `i` comes before demand `j` by kind, then by city, then by rounded priority.
pub open spec fn goes_before(demands: Seq<DemandRow>, keys: Seq<i64>, i: int, j: int) -> bool {
    let (a, b) = (demands[i], demands[j]);
    ||| a.kind < b.kind
    ||| a.kind == b.kind && lex_less(a.end, b.end)
    ||| a.kind == b.kind && a.end == b.end && keys[i] < keys[j]
}

/// Where a new member belongs in an ordered list.
proof fn slot_for(demands: Seq<DemandRow>, keys: Seq<i64>, s: Seq<usize>, x: usize) -> (p: int)
    requires
        ordered(s, head_order(demands, keys)),
        forall|k: int|
            0 <= k < s.len() ==> group_less(demands, keys, (#[trigger] s[k]) as int, x as int)
                || group_less(demands, keys, x as int, s[k] as int),
    ensures
        0 <= p <= s.len(),
        forall|k: int|
            0 <= k < p ==> group_less(demands, keys, (#[trigger] s[k]) as int, x as int),
        forall|k: int|
            p <= k < s.len() ==> group_less(demands, keys, x as int, (#[trigger] s[k]) as int),
    decreases s.len(),
{
    let less = head_order(demands, keys);
    if s.len() == 0 {
        0
    } else if group_less(demands, keys, s.last() as int, x as int) {
        assert forall|k: int| 0 <= k < s.len() implies group_less(
            demands,
            keys,
            (#[trigger] s[k]) as int,
            x as int,
        ) by {
            if k < s.len() - 1 {
                assert(less(s[k], s[s.len() - 1]));
                less_through(demands, keys, s[k] as int, s.last() as int, x as int);
            }
        }
        s.len() as int
    } else {
        let front = s.drop_last();
        assert forall|i: int, j: int| 0 <= i < j < front.len() implies less(
            #[trigger] front[i],
            #[trigger] front[j],
        ) by {
            assert(less(s[i], s[j]));
        }
        let p = slot_for(demands, keys, front, x);
        assert forall|k: int| p <= k < s.len() implies group_less(
            demands,
            keys,
            x as int,
            (#[trigger] s[k]) as int,
        ) by {
            if k < s.len() - 1 {
                assert(front[k] == s[k]);
            }
        }
        assert forall|k: int| 0 <= k < p implies group_less(
            demands,
            keys,
            (#[trigger] s[k]) as int,
            x as int,
        ) by {
            assert(front[k] == s[k]);
        }
        p
    }
}

proof fn less_through(demands: Seq<DemandRow>, keys: Seq<i64>, a: int, b: int, c: int)
    requires
        group_less(demands, keys, a, b),
        group_less(demands, keys, b, c),
    ensures
        group_less(demands, keys, a, c),
{
    let (x, y, z) = (demands[a], demands[b], demands[c]);
    if lex_less(x.end, y.end) && lex_less(y.end, z.end) {
        lex_less_transitive(x.end, y.end, z.end);
    }
}

/// The heads among the first demands, in order.
proof fn heads_upto(demands: Seq<DemandRow>, keys: Seq<i64>, m: int) -> (s: Seq<usize>)
    requires
        0 <= m <= demands.len(),
        demands.len() <= usize::MAX,
    ensures
        ordered(s, head_order(demands, keys)),
        forall|i: usize| #[trigger]
            s.contains(i) <==> heads_group(demands, keys, i as int) && i < m,
    decreases m,
{
    let less = head_order(demands, keys);
    if m == 0 {
        Seq::empty()
    } else {
        let s = heads_upto(demands, keys, m - 1);
        let x = (m - 1) as usize;
        if heads_group(demands, keys, m - 1) {
            assert forall|k: int| 0 <= k < s.len() implies group_less(
                demands,
                keys,
                (#[trigger] s[k]) as int,
                x as int,
            ) || group_less(demands, keys, x as int, s[k] as int) by {
                assert(s.contains(s[k]));
                assert(!merges(demands, keys, x as int, s[k] as int));
                lex_less_total(demands[s[k] as int].end, demands[x as int].end);
            }
            let p = slot_for(demands, keys, s, x);
            let r = s.insert(p, x);
            assert forall|i: int, j: int| 0 <= i < j < r.len() implies less(
                #[trigger] r[i],
                #[trigger] r[j],
            ) by {
                if i < p && j > p {
                    assert(r[i] == s[i] && r[j] == s[j - 1]);
                    assert(less(s[i], s[j - 1]));
                } else if j < p {
                    assert(less(s[i], s[j]));
                } else if i > p {
                    assert(less(s[i - 1], s[j - 1]));
                } else if i == p {
                    assert(r[j] == s[j - 1]);
                } else {
                    assert(r[i] == s[i]);
                }
            }
            assert forall|i: usize| #[trigger] r.contains(i) <==> heads_group(
                demands,
                keys,
                i as int,
            ) && i < m by {
                if r.contains(i) {
                    let k = choose|k: int| 0 <= k < r.len() && r[k] == i;
                    if k < p {
                        assert(s[k] == i);
                        assert(s.contains(i));
                    } else if k > p {
                        assert(s[k - 1] == i);
                        assert(s.contains(i));
                    }
                }
                if heads_group(demands, keys, i as int) && i < m {
                    if i == x {
                        assert(r[p] == i);
                    } else {
                        assert(s.contains(i));
                        let k = choose|k: int| 0 <= k < s.len() && s[k] == i;
                        if k < p {
                            assert(r[k] == i);
                        } else {
                            assert(r[k + 1] == i);
                        }
                    }
                }
            }
            r
        } else {
            assert forall|i: usize| #[trigger] s.contains(i) <==> heads_group(
                demands,
                keys,
                i as int,
            ) && i < m by {}
            s
        }
    }
}

proof fn heads_are_listed(demands: Seq<DemandRow>, keys: Seq<i64>)
    requires
        demands.len() <= usize::MAX,
    ensures
        heads_listed(demands, keys, group_heads(demands, keys)),
{
    let s = heads_upto(demands, keys, demands.len() as int);
    assert forall|i: usize| #[trigger] s.contains(i) <==> heads_group(demands, keys, i as int) by {}
    assert(heads_listed(demands, keys, s));
}

/// The demand that a group is made from.
spec fn first_of(demands: Seq<DemandRow>, keys: Seq<i64>, g: int) -> int {
    (group_heads(demands, keys) + singles(demands, keys))[g] as int
}

/// A group is just the demands that go with the one it is made from, in order.
proof fn group_members(demands: Seq<DemandRow>, keys: Seq<i64>, g: int)
    requires
        demands.len() <= usize::MAX,
        0 <= g < grouping(demands, keys).len(),
    ensures
        ({
            let group = grouping(demands, keys)[g];
            let i = first_of(demands, keys, g);
            &&& 0 <= i < demands.len()
            &&& forall|j: usize| #[trigger]
                group.contains(j) <==> j < demands.len() && go_together(demands, keys, i, j as int)
            &&& forall|a: int, b: int|
                0 <= a < b < group.len() ==> (#[trigger] group[a]) < (#[trigger] group[b])
            &&& g < group_heads(demands, keys).len() <==> has_company(demands, keys, i)
        }),
{
    let n = demands.len() as int;
    let heads = group_heads(demands, keys);
    let lone = singles(demands, keys);
    let group = grouping(demands, keys)[g];
    let i = first_of(demands, keys, g);
    heads_are_listed(demands, keys);
    let f = |i: int|
        if has_company(demands, keys, i) {
            Seq::empty()
        } else {
            seq![i as usize]
        };
    if g < heads.len() {
        assert(heads.contains(heads[g]));
        assert(heads_group(demands, keys, i));
    } else {
        let (a, b) = gather_member(n, f, g - heads.len());
    }
    let m = |j: int|
        if merges(demands, keys, i, j) {
            seq![j as usize]
        } else {
            Seq::empty()
        };
    assert(group == gather(n, m));
    assert forall|j: usize| #[trigger] group.contains(j) <==> j < demands.len() && go_together(
        demands,
        keys,
        i,
        j as int,
    ) by {
        if group.contains(j) {
            let k = choose|k: int| 0 <= k < group.len() && group[k] == j;
            let (a, b) = gather_member(n, m, k);
        }
        if j < demands.len() && go_together(demands, keys, i, j as int) {
            assert(m(j as int) == seq![j]);
            gather_holds(n, m, j as int, 0);
        }
    }
    assert forall|a: int, b: int| 0 <= a < b < group.len() implies (#[trigger] group[a]) < (
    #[trigger] group[b]) by {
        let (x, u) = gather_member(n, m, a);
        let (y, v) = gather_member(n, m, b);
        if y <= x {
            more_pieces(y, x, m);
        }
    }
}

pub proof fn more_pieces<T>(m: int, n: int, f: spec_fn(int) -> Seq<T>)
    requires
        m <= n,
    ensures
        gather(m, f).len() <= gather(n, f).len(),
    decreases n,
{
    if m < n && n > 0 {
        more_pieces(m, n - 1, f);
    }
}

/// Two demands are in one group just where they go together.
pub proof fn groups_hold_what_goes_together(
    demands: Seq<DemandRow>,
    keys: Seq<i64>,
    g: int,
    i: usize,
    j: usize,
)
    requires
        demands.len() <= usize::MAX,
        0 <= g < grouping(demands, keys).len(),
        i < demands.len(),
        j < demands.len(),
        grouping(demands, keys)[g].contains(i),
    ensures
        grouping(demands, keys)[g].contains(j) <==> go_together(
            demands,
            keys,
            i as int,
            j as int,
        ),
        forall|a: int, b: int|
            0 <= a < b < grouping(demands, keys)[g].len() ==> (#[trigger] grouping(
                demands,
                keys,
            )[g][a]) < (#[trigger] grouping(demands, keys)[g][b]),
{
    group_members(demands, keys, g);
}

/// No demand is in two groups.
pub proof fn groups_are_apart(
    demands: Seq<DemandRow>,
    keys: Seq<i64>,
    g: int,
    h: int,
    i: usize,
)
    requires
        demands.len() <= usize::MAX,
        0 <= g < h < grouping(demands, keys).len(),
        grouping(demands, keys)[g].contains(i),
    ensures
        !grouping(demands, keys)[h].contains(i),
{
    let n = demands.len() as int;
    let heads = group_heads(demands, keys);
    let less = head_order(demands, keys);
    group_members(demands, keys, g);
    group_members(demands, keys, h);
    heads_are_listed(demands, keys);
    let (a, b) = (first_of(demands, keys, g), first_of(demands, keys, h));
    if grouping(demands, keys)[h].contains(i) {
        assert(go_together(demands, keys, a, b));
        let f = |i: int|
            if has_company(demands, keys, i) {
                Seq::empty()
            } else {
                seq![i as usize]
            };
        if g < heads.len() {
            if h < heads.len() {
                assert(less(heads[g], heads[h]));
                lex_less_irreflexive(demands[a].end);
            } else {
                let (y, v) = gather_member(n, f, h - heads.len());
                assert(a != b);
                assert(merges(demands, keys, b, a));
                assert(has_company(demands, keys, b));
            }
        } else {
            let (x, u) = gather_member(n, f, g - heads.len());
            let (y, v) = gather_member(n, f, h - heads.len());
            if y <= x {
                more_pieces(y, x, f);
            }
            assert(a != b);
            assert(merges(demands, keys, a, b));
            assert(has_company(demands, keys, a));
        }
    }
}

/// The groups of several demands come first, by kind, then by city, then by rounded
/// priority; behind them the demands that go with no other, as they were given.
pub proof fn groups_come_in_order(demands: Seq<DemandRow>, keys: Seq<i64>, g: int, h: int)
    requires
        demands.len() <= usize::MAX,
        0 <= g < h < grouping(demands, keys).len(),
    ensures
        ({
            let (a, b) = (grouping(demands, keys)[g], grouping(demands, keys)[h]);
            &&& a.len() > 0 && b.len() > 0
            &&& b.len() > 1 ==> a.len() > 1 && goes_before(
                demands,
                keys,
                a[0] as int,
                b[0] as int,
            )
            &&& a.len() == 1 ==> a[0] < b[0]
        }),
{
    let n = demands.len() as int;
    let heads = group_heads(demands, keys);
    let less = head_order(demands, keys);
    heads_are_listed(demands, keys);
    group_members(demands, keys, g);
    group_members(demands, keys, h);
    let (x, y) = (first_of(demands, keys, g), first_of(demands, keys, h));
    let (a, b) = (grouping(demands, keys)[g], grouping(demands, keys)[h]);
    assert(a.contains(x as usize) && b.contains(y as usize));
    group_size(demands, keys, g);
    group_size(demands, keys, h);
    assert(a.contains(a[0]) && b.contains(b[0]));
    if h < heads.len() {
        assert(less(heads[g], heads[h]));
    }
    if g >= heads.len() {
        let f = |i: int|
            if has_company(demands, keys, i) {
                Seq::empty()
            } else {
                seq![i as usize]
            };
        let (p, u) = gather_member(n, f, g - heads.len());
        let (q, v) = gather_member(n, f, h - heads.len());
        if q <= p {
            more_pieces(q, p, f);
        }
        assert(a[0] == x) by {
            if a[0] != x {
                assert(merges(demands, keys, x, a[0] as int));
                assert(has_company(demands, keys, x));
            }
        }
        assert(b[0] == y) by {
            if b[0] != y {
                assert(merges(demands, keys, y, b[0] as int));
                assert(has_company(demands, keys, y));
            }
        }
    }
}

/// A group has more than one demand just where the one it is made from goes with another.
proof fn group_size(demands: Seq<DemandRow>, keys: Seq<i64>, g: int)
    requires
        demands.len() <= usize::MAX,
        0 <= g < grouping(demands, keys).len(),
    ensures
        grouping(demands, keys)[g].len() > 0,
        grouping(demands, keys)[g].len() > 1 <==> g < group_heads(demands, keys).len(),
{
    group_members(demands, keys, g);
    let group = grouping(demands, keys)[g];
    let i = first_of(demands, keys, g);
    assert(group.contains(i as usize));
    let k = choose|k: int| 0 <= k < group.len() && group[k] == i as usize;
    if has_company(demands, keys, i) {
        let j = choose|j: int|
            0 <= j < demands.len() && j != i && #[trigger] merges(demands, keys, i, j);
        assert(group.contains(j as usize));
        let m = choose|m: int| 0 <= m < group.len() && group[m] == j as usize;
        assert(k != m);
    }
    if group.len() > 1 {
        let m = if k == 0 {
            1int
        } else {
            0int
        };
        assert(group.contains(group[m]));
        if m < k {
            assert(group[m] < group[k]);
        } else {
            assert(group[k] < group[m]);
        }
        assert(merges(demands, keys, i, group[m] as int));
    }
}

/// The receivers of a group are those of its demands together.
proof fn receivers_add_up(demands: Seq<DemandRow>, group: Seq<usize>, n: int)
    requires
        0 <= n <= group.len(),
    ensures
        receivers_of(demands, group.take(n)) == receivers_sum(demands, group, n),
    decreases n,
{
    if n > 0 {
        receivers_add_up(demands, group, n - 1);
        assert(group.take(n).drop_last() =~= group.take(n - 1));
        assert(group.take(n).last() == group[n - 1]);
    } else {
        assert(group.take(0) =~= Seq::empty());
    }
}

/// The receivers of the first `n` demands of a group together.
pub open spec fn receivers_sum(demands: Seq<DemandRow>, group: Seq<usize>, n: int) -> int
    decreases n,
{
    if n <= 0 {
        0
    } else {
        receivers_sum(demands, group, n - 1) + demands[group[n - 1] as int].receivers
    }
}

/// The flow of a group starts, ends and is cast as its first demand, keeps the kind that this
/// was given with, has the receivers of all of them together, and the traffic and priority
/// asked for.
pub proof fn flows_are_made_of_demands(
    demands: Seq<DemandRow>,
    groups: Seq<Seq<usize>>,
    priorities: Seq<Real>,
    traffic: Seq<Real>,
    rounded: Seq<i64>,
    g: int,
)
    requires
        0 <= g < groups.len(),
        groups[g].len() > 0,
        receivers_sum(demands, groups[g], groups[g].len() as int) <= u32::MAX,
    ensures
        ({
            let flow = flow_of(demands, groups, priorities, traffic, rounded, g);
            let first = demands[groups[g][0] as int];
            &&& flow.start == first.start
            &&& flow.end == first.end
            &&& flow.multicast == first.multicast
            &&& flow.original == first.kind
            &&& flow.receivers == receivers_sum(demands, groups[g], groups[g].len() as int)
            &&& flow.traffic == traffic[g]
            &&& flow.priority == priorities[g]
        }),
{
    receivers_add_up(demands, groups[g], groups[g].len() as int);
    assert(groups[g].take(groups[g].len() as int) =~= groups[g]);
    receivers_positive(demands, groups[g], groups[g].len() as int);
}

proof fn receivers_positive(demands: Seq<DemandRow>, group: Seq<usize>, n: int)
    ensures
        receivers_sum(demands, group, n) >= 0,
    decreases n,
{
    if n > 0 {
        receivers_positive(demands, group, n - 1);
    }
}

/// Which flows are carried as one commodity: of two that are not multicast, those of one
/// kind and one rounded priority; of two that are multicast, none.
pub proof fn flows_carried_together(
    demands: Seq<DemandRow>,
    groups: Seq<Seq<usize>>,
    priorities: Seq<Real>,
    traffic: Seq<Real>,
    rounded: Seq<i64>,
    g: int,
    h: int,
)
    requires
        0 <= g < groups.len(),
        0 <= h < groups.len(),
        g != h,
        rounded.len() == groups.len(),
        labels_of(demands, groups, rounded).fits(),
    ensures
        ({
            let a = flow_of(demands, groups, priorities, traffic, rounded, g);
            let b = flow_of(demands, groups, priorities, traffic, rounded, h);
            &&& !a.multicast && !b.multicast ==> (a.kind == b.kind <==> a.original == b.original
                && rounded[g] == rounded[h])
            &&& a.multicast && b.multicast ==> a.kind != b.kind
            &&& a.multicast && !b.multicast && a.original != b.original ==> a.kind != b.kind
        }),
{
    let labels = labels_of(demands, groups, rounded);
    crate::consolidation::demand::commodity_bounds(labels, g);
    crate::consolidation::demand::commodity_bounds(labels, h);
    if !labels.multicast[g] && !labels.multicast[h] {
        unicast_split_by_priority(labels, g, h);
    } else if labels.multicast[g] && labels.multicast[h] {
        multicast_rows_stand_alone(labels, g, h);
    } else if labels.multicast[g] && labels.kinds[g] != labels.kinds[h] {
        multicast_apart_from_unicast(labels, g, h);
    }
}

/// Which flows keep the kind that they were given with: of those that are not multicast, the
/// ones of the least priority of their kind; of the multicast ones, the first of its kind.
/// All others have kinds beyond those that were given: first those that are not multicast,
/// by kind and priority; then the multicast ones, by kind and as they come.
pub proof fn commodities_are_numbered(
    demands: Seq<DemandRow>,
    groups: Seq<Seq<usize>>,
    priorities: Seq<Real>,
    traffic: Seq<Real>,
    rounded: Seq<i64>,
    g: int,
    h: int,
)
    requires
        0 <= g < groups.len(),
        0 <= h < groups.len(),
        rounded.len() == groups.len(),
        labels_of(demands, groups, rounded).fits(),
    ensures
        ({
            let flow = |x: int| flow_of(demands, groups, priorities, traffic, rounded, x);
            let (a, b) = (flow(g), flow(h));
            let keeps = if a.multicast {
                forall|x: int|
                    0 <= x < g ==> !((#[trigger] flow(x)).multicast && flow(x).original
                        == a.original)
            } else {
                forall|x: int|
                    0 <= x < groups.len() && !(#[trigger] flow(x)).multicast && flow(x).original
                        == a.original ==> rounded[x] >= rounded[g]
            };
            &&& keeps ==> a.kind == a.original
            &&& !keeps ==> a.kind > b.original
            &&& !keeps && b.kind != b.original && !a.multicast && b.multicast ==> a.kind < b.kind
            &&& !keeps && b.kind != b.original && !a.multicast && !b.multicast && (a.original
                < b.original || a.original == b.original && rounded[g] < rounded[h]) ==> a.kind
                < b.kind
            &&& !keeps && b.kind != b.original && a.multicast && b.multicast && (a.original
                < b.original || a.original == b.original && g < h) ==> a.kind < b.kind
        }),
{
    let labels = labels_of(demands, groups, rounded);
    let flow = |x: int| flow_of(demands, groups, priorities, traffic, rounded, x);
    let n = groups.len() as int;
    crate::consolidation::demand::commodity_bounds(labels, g);
    crate::consolidation::demand::commodity_bounds(labels, h);
    assert forall|x: int| 0 <= x < n implies (#[trigger] flow(x)).multicast == labels.multicast[x]
        && flow(x).original == labels.kinds[x] by {}
    let (a, b) = (flow(g), flow(h));
    if labels.multicast[g] {
        if labels.is_repeat(g) {
            let x = choose|x: int|
                0 <= x < g && labels.multicast[x] && #[trigger] labels.kinds[x] == labels.kinds[g];
            assert(flow(x).multicast && flow(x).original == a.original);
        } else {
            assert forall|x: int| 0 <= x < g implies !((#[trigger] flow(x)).multicast
                && flow(x).original == a.original) by {
                if labels.multicast[x] {
                    assert(labels.kinds[x] != labels.kinds[g]);
                }
            }
        }
    } else {
        if labels.is_raised(g) {
            let x = choose|x: int|
                0 <= x < labels.rows() && #[trigger] labels.peers(x, g) && labels.keys[x]
                    < labels.keys[g];
            assert(!flow(x).multicast && flow(x).original == a.original);
        } else {
            assert forall|x: int|
                0 <= x < n && !(#[trigger] flow(x)).multicast && flow(x).original
                    == a.original implies rounded[x] >= rounded[g] by {
                assert(labels.peers(x, g));
            }
        }
        if !labels.multicast[h] && labels.is_raised(g) && labels.is_raised(h)
            && labels.class_before(g, h) {
            crate::consolidation::demand::classes_in_order(labels, g, h);
        }
    }
    if labels.multicast[g] && labels.multicast[h] && labels.is_repeat(g) && labels.is_repeat(h)
        && labels.row_before(g, h) {
        let p = |x: int| labels.is_repeat(x) && labels.row_before(x, g);
        let q = |x: int| labels.is_repeat(x) && labels.row_before(x, h);
        crate::lists::count_exceeds(labels.rows(), p, q, g);
    }
}

/// The flow is the first of a commodity beyond the kinds that were given.
pub open spec fn opens_commodity(flow: spec_fn(int) -> FlowRow, x: int) -> bool {
    flow(x).kind != flow(x).original && forall|y: int|
        0 <= y < x ==> (#[trigger] flow(y)).kind != flow(x).kind
}

/// The kinds beyond those that were given leave no gaps: none is further beyond the greatest
/// kind given than there are of them.
pub proof fn new_kinds_leave_no_gaps(
    demands: Seq<DemandRow>,
    groups: Seq<Seq<usize>>,
    priorities: Seq<Real>,
    traffic: Seq<Real>,
    rounded: Seq<i64>,
    g: int,
    most: int,
)
    requires
        0 <= g < groups.len(),
        rounded.len() == groups.len(),
        labels_of(demands, groups, rounded).fits(),
        forall|x: int| 0 <= x < groups.len() ==> demands[#[trigger] groups[x][0] as int].kind <= most,
    ensures
        ({
            let flow = |x: int| flow_of(demands, groups, priorities, traffic, rounded, x);
            flow(g).kind <= most + count_where(
                groups.len() as int,
                |x: int| opens_commodity(flow, x),
            )
        }),
{
    let labels = labels_of(demands, groups, rounded);
    let flow = |x: int| flow_of(demands, groups, priorities, traffic, rounded, x);
    let n = groups.len() as int;
    let p = |h: int| labels.opens_class(h);
    let q = |h: int| labels.is_repeat(h);
    let r = |x: int| opens_commodity(flow, x);
    assert forall|x: int| 0 <= x < n implies labels.kinds[x] <= most by {
        assert(demands[groups[x][0] as int].kind <= most);
    }
    kinds_below(labels.kinds, most);
    crate::consolidation::demand::commodity_bounds(labels, g);
    assert forall|x: int| 0 <= x < n implies !(#[trigger] p(x) && q(x)) && (p(x) || q(x) ==> r(
        x,
    )) by {
        if p(x) {
            let h = choose|h: int|
                0 <= h < labels.rows() && #[trigger] labels.peers(h, x) && labels.keys[h]
                    < labels.keys[x];
            assert(labels.peers(h, x));
        }
        if p(x) || q(x) {
            crate::consolidation::demand::commodity_bounds(labels, x);
            assert forall|y: int| 0 <= y < x implies (#[trigger] flow(y)).kind != flow(x).kind by {
                crate::consolidation::demand::commodity_bounds(labels, y);
                if p(x) && !labels.multicast[y] {
                    unicast_split_by_priority(labels, y, x);
                    if labels.kinds[x] == labels.kinds[y] {
                        assert(labels.peers(y, x));
                    }
                } else if q(x) && labels.multicast[y] {
                    multicast_rows_stand_alone(labels, x, y);
                }
            }
        }
    }
    counts_of_either(n, p, q, r);
}

/// What is either of two things, never both, counts as both together.
proof fn counts_of_either(
    n: int,
    p: spec_fn(int) -> bool,
    q: spec_fn(int) -> bool,
    r: spec_fn(int) -> bool,
)
    requires
        forall|x: int| 0 <= x < n ==> !(#[trigger] p(x) && q(x)) && (p(x) || q(x) ==> r(x)),
    ensures
        count_where(n, p) + count_where(n, q) <= count_where(n, r),
    decreases n,
{
    if n > 0 {
        counts_of_either(n - 1, p, q, r);
        assert(!(p(n - 1) && q(n - 1)));
    }
}

proof fn kinds_below(kinds: Seq<u32>, most: int)
    requires
        0 <= most,
        forall|x: int| 0 <= x < kinds.len() ==> #[trigger] kinds[x] <= most,
    ensures
        crate::consolidation::demand::top_kind(kinds) <= most,
    decreases kinds.len(),
{
    if kinds.len() > 0 {
        kinds_below(kinds.drop_last(), most);
        assert(kinds[kinds.len() - 1] <= most);
    }
}

/// The receivers of groups fit where in no group there are more together than fit.
pub proof fn receivers_fit_by_group(demands: Seq<DemandRow>, groups: Seq<Seq<usize>>)
    ensures
        receivers_fit(demands, groups) <==> forall|g: int|
            #![trigger groups[g]]
            0 <= g < groups.len() ==> receivers_sum(demands, groups[g], groups[g].len() as int)
                <= u32::MAX,
{
    assert forall|g: int| 0 <= g < groups.len() implies receivers_of(demands, #[trigger] groups[g])
        == receivers_sum(demands, groups[g], groups[g].len() as int) by {
        receivers_add_up(demands, groups[g], groups[g].len() as int);
        assert(groups[g].take(groups[g].len() as int) =~= groups[g]);
    }
}

/// The flow of a group needs a number of its own beyond the kinds that are given: it is the
/// first of a kind and a priority that is not the least of the kind; or it is multicast, and
/// not the first multicast one of its kind.
pub open spec fn needs_number(
    demands: Seq<DemandRow>,
    groups: Seq<Seq<usize>>,
    rounded: Seq<i64>,
    g: int,
) -> bool {
    let first = |x: int| demands[groups[x][0] as int];
    let like = |x: int|
        first(x).multicast == first(g).multicast && first(x).kind == first(g).kind;
    if first(g).multicast {
        exists|x: int| 0 <= x < g && #[trigger] like(x)
    } else {
        (exists|x: int| 0 <= x < groups.len() && #[trigger] like(x) && rounded[x] < rounded[g])
            && forall|x: int| 0 <= x < g && #[trigger] like(x) ==> rounded[x] != rounded[g]
    }
}

/// Commodities can be numbered just where the numbers that are needed fit behind the greatest
/// kind that is given.
pub proof fn kinds_fit_where_numbers_do(
    demands: Seq<DemandRow>,
    groups: Seq<Seq<usize>>,
    rounded: Seq<i64>,
    most: int,
)
    requires
        rounded.len() == groups.len(),
        forall|x: int| 0 <= x < groups.len() ==> demands[#[trigger] groups[x][0] as int].kind <= most,
        most == 0 || exists|x: int|
            0 <= x < groups.len() && demands[#[trigger] groups[x][0] as int].kind == most,
    ensures
        labels_of(demands, groups, rounded).fits() <==> most + count_where(
            groups.len() as int,
            |g: int| needs_number(demands, groups, rounded, g),
        ) <= u32::MAX,
{
    let labels = labels_of(demands, groups, rounded);
    let n = groups.len() as int;
    let p = |h: int| labels.opens_class(h);
    let q = |h: int| labels.is_repeat(h);
    let r = |g: int| needs_number(demands, groups, rounded, g);
    assert forall|x: int| 0 <= x < n implies labels.kinds[x] <= most by {
        assert(demands[groups[x][0] as int].kind <= most);
    }
    if n > 0 {
        assert(labels.kinds[0] <= most);
        kinds_below(labels.kinds, most);
    }
    crate::consolidation::demand::top_kind_bounds(labels.kinds);
    if most != 0 {
        let x = choose|x: int|
            0 <= x < groups.len() && demands[#[trigger] groups[x][0] as int].kind == most;
        assert(labels.kinds[x] == most);
    }
    assert forall|x: int| 0 <= x < n implies !(#[trigger] p(x) && q(x)) && r(x) == (p(x) || q(
        x,
    )) by {
        let first = |y: int| demands[groups[y][0] as int];
        let like = |y: int|
            first(y).multicast == first(x).multicast && first(y).kind == first(x).kind;
        assert forall|y: int| 0 <= y < n implies #[trigger] like(y) == (labels.multicast[y]
            == labels.multicast[x] && labels.kinds[y] == labels.kinds[x]) by {}
        if labels.multicast[x] {
            assert(!p(x)) by {
                if labels.is_raised(x) {
                    let y = choose|h: int|
                        0 <= h < labels.rows() && #[trigger] labels.peers(h, x) && labels.keys[h]
                            < labels.keys[x];
                    assert(labels.peers(y, x));
                }
            }
            if q(x) {
                let y = choose|h: int|
                    0 <= h < x && labels.multicast[h] && #[trigger] labels.kinds[h]
                        == labels.kinds[x];
                assert(like(y));
            }
            if r(x) {
                let y = choose|y: int| 0 <= y < x && #[trigger] like(y);
                assert(labels.kinds[y] == labels.kinds[x]);
            }
        } else {
            if p(x) {
                let y = choose|h: int|
                    0 <= h < labels.rows() && #[trigger] labels.peers(h, x) && labels.keys[h]
                        < labels.keys[x];
                assert(like(y) && rounded[y] < rounded[x]);
                assert forall|y: int| 0 <= y < x && #[trigger] like(y) implies rounded[y]
                    != rounded[x] by {
                    assert(labels.peers(y, x));
                }
            }
            if r(x) {
                let y = choose|y: int|
                    0 <= y < n && #[trigger] like(y) && rounded[y] < rounded[x];
                assert(labels.peers(y, x));
                assert(labels.is_raised(x));
                assert forall|h: int| 0 <= h < x && #[trigger] labels.peers(h, x) implies labels.keys[h]
                    != labels.keys[x] by {
                    assert(like(h));
                }
            }
        }
    }
    counts_of_one_or_other(n, p, q, r);
}

proof fn counts_of_one_or_other(
    n: int,
    p: spec_fn(int) -> bool,
    q: spec_fn(int) -> bool,
    r: spec_fn(int) -> bool,
)
    requires
        forall|x: int| 0 <= x < n ==> !(#[trigger] p(x) && q(x)) && r(x) == (p(x) || q(x)),
    ensures
        count_where(n, p) + count_where(n, q) == count_where(n, r),
    decreases n,
{
    if n > 0 {
        counts_of_one_or_other(n - 1, p, q, r);
        assert(!(p(n - 1) && q(n - 1)));
    }
}

} // verus!
