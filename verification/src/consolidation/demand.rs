//! The flows that the network has to carry, from the demands given.
use crate::lists::{
    count_exceeds, count_grows, count_same, count_where, gather, gather_holds, gather_member,
    ordered, ordered_once, strict_order,
};
use crate::quantity::Real;
use crate::text::{
    less, lex_less, lex_less_irreflexive, lex_less_total, lex_less_transitive, same, views,
    views_push,
};
use crate::types::{ConsolidatedDemand, Demand, DemandRow, FlowRow};
use vstd::prelude::*;

verus! {

/// Two demands merge: same kind, same end, same rounded priority.
pub open spec fn merges(demands: Seq<DemandRow>, keys: Seq<i64>, i: int, j: int) -> bool {
    &&& demands[i].kind == demands[j].kind
    &&& demands[i].end == demands[j].end
    &&& keys[i] == keys[j]
}

/// The order of the groups: by kind, then by end, then by rounded priority.
pub open spec fn group_less(demands: Seq<DemandRow>, keys: Seq<i64>, i: int, j: int) -> bool {
    ||| demands[i].kind < demands[j].kind
    ||| demands[i].kind == demands[j].kind && lex_less(demands[i].end, demands[j].end)
    ||| demands[i].kind == demands[j].kind && demands[i].end == demands[j].end && keys[i] < keys[j]
}

/// The demands that merge with demand `i`, itself among them.
pub open spec fn members(demands: Seq<DemandRow>, keys: Seq<i64>, i: int) -> Seq<usize> {
    gather(
        demands.len() as int,
        |j: int|
            if merges(demands, keys, i, j) {
                seq![j as usize]
            } else {
                Seq::empty()
            },
    )
}

/// Demand `i` merges with another.
pub open spec fn has_company(demands: Seq<DemandRow>, keys: Seq<i64>, i: int) -> bool {
    exists|j: int| 0 <= j < demands.len() && j != i && #[trigger] merges(demands, keys, i, j)
}

/// Demand `i` is the first of several that merge.
pub open spec fn heads_group(demands: Seq<DemandRow>, keys: Seq<i64>, i: int) -> bool {
    &&& 0 <= i < demands.len()
    &&& has_company(demands, keys, i)
    &&& forall|j: int| 0 <= j < i ==> !#[trigger] merges(demands, keys, i, j)
}

/// The order of the groups, as an order of their heads.
pub open spec fn head_order(demands: Seq<DemandRow>, keys: Seq<i64>) -> spec_fn(
    usize,
    usize,
) -> bool {
    |i: usize, j: usize| group_less(demands, keys, i as int, j as int)
}

/// `heads` lists the heads of the groups in order.
pub open spec fn heads_listed(demands: Seq<DemandRow>, keys: Seq<i64>, heads: Seq<usize>) -> bool {
    &&& ordered(heads, head_order(demands, keys))
    &&& forall|i: usize| #[trigger]
        heads.contains(i) <==> heads_group(demands, keys, i as int)
}

/// The heads of the groups, in order.
pub open spec fn group_heads(demands: Seq<DemandRow>, keys: Seq<i64>) -> Seq<usize> {
    choose|heads: Seq<usize>| heads_listed(demands, keys, heads)
}

/// The demands that merge with no other.
pub open spec fn singles(demands: Seq<DemandRow>, keys: Seq<i64>) -> Seq<usize> {
    gather(
        demands.len() as int,
        |i: int|
            if has_company(demands, keys, i) {
                Seq::empty()
            } else {
                seq![i as usize]
            },
    )
}

/// The demands grouped: first the groups of several, in their order, then each
/// other demand alone.
pub open spec fn grouping(demands: Seq<DemandRow>, keys: Seq<i64>) -> Seq<Seq<usize>> {
    let firsts = group_heads(demands, keys) + singles(demands, keys);
    Seq::new(firsts.len(), |g: int| members(demands, keys, firsts[g] as int))
}

/// The order of groups is strict.
proof fn head_order_strict(demands: Seq<DemandRow>, keys: Seq<i64>)
    ensures
        strict_order(head_order(demands, keys)),
{
    let before = head_order(demands, keys);
    assert forall|a: usize| !#[trigger] before(a, a) by {
        lex_less_irreflexive(demands[a as int].end);
    }
    assert forall|a: usize, b: usize, c: usize| #[trigger]
        before(a, b) && #[trigger] before(b, c) implies before(a, c) by {
        let (x, y, z) = (demands[a as int], demands[b as int], demands[c as int]);
        if lex_less(x.end, y.end) && lex_less(y.end, z.end) {
            lex_less_transitive(x.end, y.end, z.end);
        }
    }
}

/// Whether demands `i` and `j` merge.
fn do_merge(demands: &[Demand], keys: &[i64], i: usize, j: usize) -> (r: bool)
    requires
        i < demands@.len(),
        j < demands@.len(),
        keys@.len() == demands@.len(),
    ensures
        r == merges(views(demands@), keys@, i as int, j as int),
{
    demands[i].kind == demands[j].kind && same(demands[i].end.as_str(), demands[j].end.as_str())
        && keys[i] == keys[j]
}

/// Whether the group of demand `i` comes before that of `j`.
fn comes_before(demands: &[Demand], keys: &[i64], i: usize, j: usize) -> (r: bool)
    requires
        i < demands@.len(),
        j < demands@.len(),
        keys@.len() == demands@.len(),
    ensures
        r == group_less(views(demands@), keys@, i as int, j as int),
{
    if demands[i].kind != demands[j].kind {
        return demands[i].kind < demands[j].kind;
    }
    if same(demands[i].end.as_str(), demands[j].end.as_str()) {
        proof {
            lex_less_irreflexive(demands@[i as int].end@);
        }
        return keys[i] < keys[j];
    }
    less(demands[i].end.as_str(), demands[j].end.as_str())
}

/// Lists the demands that merge with demand `i`.
fn find_members(demands: &[Demand], keys: &[i64], i: usize) -> (r: Vec<usize>)
    requires
        i < demands@.len(),
        keys@.len() == demands@.len(),
    ensures
        r@ == members(views(demands@), keys@, i as int),
{
    let ghost rows = views(demands@);
    let ghost f = |j: int|
        if merges(rows, keys@, i as int, j) {
            seq![j as usize]
        } else {
            Seq::empty()
        };
    let mut out: Vec<usize> = Vec::new();
    assert(out@ =~= gather(0, f));
    for j in 0..demands.len()
        invariant
            i < demands@.len(),
            keys@.len() == demands@.len(),
            rows == views(demands@),
            f == (|j: int|
                if merges(rows, keys@, i as int, j) {
                    seq![j as usize]
                } else {
                    Seq::empty()
                }),
            out@ == gather(j as int, f),
    {
        let ghost before = out@;
        if do_merge(demands, keys, i, j) {
            out.push(j);
        }
        assert(out@ =~= before + f(j as int));
    }
    out
}

/// Where demand `i` stands among those it merges with: whether it is the first,
/// and whether it is the only one.
fn standing(demands: &[Demand], keys: &[i64], i: usize) -> (r: (bool, bool))
    requires
        i < demands@.len(),
        keys@.len() == demands@.len(),
    ensures
        r.0 == forall|j: int| 0 <= j < i ==> !#[trigger] merges(views(demands@), keys@, i as int, j),
        r.1 == !has_company(views(demands@), keys@, i as int),
{
    let ghost rows = views(demands@);
    let mut first = true;
    let mut alone = true;
    for j in 0..demands.len()
        invariant
            i < demands@.len(),
            keys@.len() == demands@.len(),
            rows == views(demands@),
            first == forall|k: int|
                0 <= k < i && k < j ==> !#[trigger] merges(rows, keys@, i as int, k),
            alone == !exists|k: int|
                0 <= k < j && k != i && #[trigger] merges(rows, keys@, i as int, k),
    {
        if j != i && do_merge(demands, keys, i, j) {
            assert(merges(rows, keys@, i as int, j as int));
            alone = false;
            if j < i {
                first = false;
            }
        }
    }
    (first, alone)
}

/// Puts the head of a group where it belongs.
fn insert_head(heads: &mut Vec<usize>, demands: &[Demand], keys: &[i64], i: usize)
    requires
        i < demands@.len(),
        keys@.len() == demands@.len(),
        ordered(old(heads)@, head_order(views(demands@), keys@)),
        forall|k: int|
            0 <= k < old(heads)@.len() ==> #[trigger] old(heads)@[k] < demands@.len() && !merges(
                views(demands@),
                keys@,
                i as int,
                old(heads)@[k] as int,
            ),
    ensures
        ordered(final(heads)@, head_order(views(demands@), keys@)),
        forall|x: usize| #[trigger]
            final(heads)@.contains(x) <==> (old(heads)@.contains(x) || x == i),
{
    let ghost rows = views(demands@);
    let ghost before = heads@;
    let ghost order = head_order(rows, keys@);
    let mut at: usize = 0;
    while at < heads.len() && comes_before(demands, keys, heads[at], i)
        invariant
            at <= heads@.len(),
            heads@ == before,
            i < demands@.len(),
            keys@.len() == demands@.len(),
            rows == views(demands@),
            order == head_order(rows, keys@),
            forall|k: int| 0 <= k < before.len() ==> #[trigger] before[k] < demands@.len(),
            forall|k: int| 0 <= k < at ==> order(#[trigger] before[k], i),
        decreases heads@.len() - at,
    {
        at = at + 1;
    }
    heads.insert(at, i);
    proof {
        head_order_strict(rows, keys@);
        let after = heads@;
        assert forall|k: int| at <= k < before.len() implies order(i, #[trigger] before[k]) by {
            let next = before[at as int];
            lex_less_total(rows[i as int].end, rows[next as int].end);
            assert(!merges(rows, keys@, i as int, next as int));
            assert(order(i, next));
            if k > at {
                assert(order(next, before[k]));
            }
        }
        assert forall|p: int, q: int| 0 <= p < q < after.len() implies order(
            #[trigger] after[p],
            #[trigger] after[q],
        ) by {
            let a = if p < at {
                p
            } else {
                p - 1
            };
            let b = if q < at {
                q
            } else {
                q - 1
            };
            if p != at && q != at {
                assert(order(before[a], before[b]));
            } else if p == at {
                assert(order(i, before[b]));
            } else {
                assert(order(before[a], i));
            }
        }
        assert forall|x: usize| #[trigger] after.contains(x) <==> (before.contains(x) || x
            == i) by {
            if before.contains(x) {
                let k = choose|k: int| 0 <= k < before.len() && before[k] == x;
                assert(after[if k < at {
                    k
                } else {
                    k + 1
                }] == x);
            }
            if x == i {
                assert(after[at as int] == x);
            }
            if after.contains(x) && x != i {
                let k = choose|k: int| 0 <= k < after.len() && after[k] == x;
                assert(before[if k < at {
                    k
                } else {
                    k - 1
                }] == x);
            }
        }
    }
}

/// The members of the groups, list by list.
pub open spec fn lists_of(groups: Seq<Vec<usize>>) -> Seq<Seq<usize>> {
    Seq::new(groups.len(), |g: int| groups[g]@)
}

/// Groups the demands that merge: same kind, same end, same rounded priority.
/// `keys` gives the rounded priority of each demand.
pub fn merge_demands(demands: &[Demand], keys: &[i64]) -> (r: Vec<Vec<usize>>)
    requires
        keys@.len() == demands@.len(),
    ensures
        lists_of(r@) == grouping(views(demands@), keys@),
        groups_valid(lists_of(r@), demands@.len() as int),
        all_grouped(lists_of(r@), demands@.len() as int),
{
    let ghost rows = views(demands@);
    let ghost f = |i: int|
        if has_company(rows, keys@, i) {
            Seq::empty()
        } else {
            seq![i as usize]
        };
    let mut heads: Vec<usize> = Vec::new();
    let mut lone: Vec<usize> = Vec::new();
    assert(lone@ =~= gather(0, f));
    for i in 0..demands.len()
        invariant
            keys@.len() == demands@.len(),
            rows == views(demands@),
            f == (|i: int|
                if has_company(rows, keys@, i) {
                    Seq::empty()
                } else {
                    seq![i as usize]
                }),
            lone@ == gather(i as int, f),
            forall|k: int| 0 <= k < lone@.len() ==> #[trigger] lone@[k] < demands@.len(),
            ordered(heads@, head_order(rows, keys@)),
            forall|x: usize| #[trigger]
                heads@.contains(x) <==> (x < i && heads_group(rows, keys@, x as int)),
    {
        let ghost before = lone@;
        let ghost firsts = heads@;
        let (first, alone) = standing(demands, keys, i);
        if alone {
            lone.push(i);
        } else if first {
            assert forall|k: int| 0 <= k < heads@.len() implies #[trigger] heads@[k]
                < demands@.len() && !merges(rows, keys@, i as int, heads@[k] as int) by {
                assert(heads@.contains(heads@[k]));
            }
            insert_head(&mut heads, demands, keys, i);
            assert(heads_group(rows, keys@, i as int));
        } else {
            assert(!heads_group(rows, keys@, i as int));
        }
        assert(lone@ =~= before + f(i as int));
        assert forall|x: usize| #[trigger]
            heads@.contains(x) <==> (x < i + 1 && heads_group(rows, keys@, x as int)) by {
            assert(firsts.contains(x) <==> (x < i && heads_group(rows, keys@, x as int)));
        }
    }
    proof {
        assert(heads_listed(rows, keys@, heads@));
        let other = group_heads(rows, keys@);
        assert(heads_listed(rows, keys@, other));
        head_order_strict(rows, keys@);
        assert forall|x: usize| #[trigger] heads@.contains(x) <==> other.contains(x) by {
            assert(other.contains(x) <==> heads_group(rows, keys@, x as int));
        }
        ordered_once(heads@, other, head_order(rows, keys@));
        grouping_covers(rows, keys@);
    }
    let ghost firsts = heads@ + lone@;
    let ghost all = grouping(rows, keys@);
    let mut out: Vec<Vec<usize>> = Vec::new();
    for h in 0..heads.len()
        invariant
            keys@.len() == demands@.len(),
            rows == views(demands@),
            firsts == heads@ + lone@,
            all == Seq::new(firsts.len(), |g: int| members(rows, keys@, firsts[g] as int)),
            forall|x: usize| #[trigger]
                heads@.contains(x) ==> heads_group(rows, keys@, x as int),
            lists_of(out@) == all.take(h as int),
    {
        assert(heads@.contains(heads@[h as int]));
        let list = find_members(demands, keys, heads[h]);
        let ghost before = lists_of(out@);
        assert(firsts[h as int] == heads@[h as int]);
        assert(all.take(h + 1) =~= all.take(h as int).push(all[h as int]));
        out.push(list);
        assert(lists_of(out@) =~= before.push(list@));
    }
    for s in 0..lone.len()
        invariant
            keys@.len() == demands@.len(),
            rows == views(demands@),
            firsts == heads@ + lone@,
            all == Seq::new(firsts.len(), |g: int| members(rows, keys@, firsts[g] as int)),
            forall|k: int| 0 <= k < lone@.len() ==> #[trigger] lone@[k] < demands@.len(),
            lists_of(out@) == all.take(heads@.len() + s),
    {
        let list = find_members(demands, keys, lone[s]);
        let ghost before = lists_of(out@);
        let ghost g = heads@.len() + s;
        assert(firsts[g] == lone@[s as int]);
        assert(all.take(g + 1) =~= all.take(g).push(all[g]));
        out.push(list);
        assert(lists_of(out@) =~= before.push(list@));
    }
    assert(all.take((heads@.len() + lone@.len()) as int) =~= all);
    out
}

/// Groups are lists of demands, none of them empty.
pub open spec fn groups_valid(groups: Seq<Seq<usize>>, n: int) -> bool {
    forall|g: int|
        #![trigger groups[g]]
        0 <= g < groups.len() ==> groups[g].len() > 0 && forall|k: int|
            0 <= k < groups[g].len() ==> #[trigger] groups[g][k] < n
}

/// Demand `i` is in a group.
pub open spec fn is_grouped(groups: Seq<Seq<usize>>, i: usize) -> bool {
    exists|g: int| 0 <= g < groups.len() && #[trigger] groups[g].contains(i)
}

/// Every demand is in a group.
pub open spec fn all_grouped(groups: Seq<Seq<usize>>, n: int) -> bool {
    forall|i: usize| i < n ==> #[trigger] is_grouped(groups, i)
}

/// The groups are valid, and each demand is in one.
proof fn grouping_covers(demands: Seq<DemandRow>, keys: Seq<i64>)
    requires
        keys.len() == demands.len(),
        demands.len() <= usize::MAX,
        heads_listed(demands, keys, group_heads(demands, keys)),
    ensures
        groups_valid(grouping(demands, keys), demands.len() as int),
        all_grouped(grouping(demands, keys), demands.len() as int),
{
    let n = demands.len() as int;
    let all = grouping(demands, keys);
    let heads = group_heads(demands, keys);
    let lone = singles(demands, keys);
    let firsts = heads + lone;
    let f = |i: int|
        if has_company(demands, keys, i) {
            Seq::empty()
        } else {
            seq![i as usize]
        };
    assert(lone == gather(n, f));
    assert forall|g: int| #![trigger all[g]]
        0 <= g < all.len() implies all[g].len() > 0 && forall|k: int|
        0 <= k < all[g].len() ==> #[trigger] all[g][k] < n by {
        let i = firsts[g] as int;
        if g < heads.len() {
            assert(heads.contains(heads[g]));
            assert(heads_group(demands, keys, i));
        } else {
            let (a, b) = gather_member(n, f, g - heads.len());
        }
        let m = |j: int|
            if merges(demands, keys, i, j) {
                seq![j as usize]
            } else {
                Seq::empty()
            };
        assert(all[g] == gather(n, m));
        assert(m(i) == seq![i as usize]);
        gather_holds(n, m, i, 0);
        assert forall|k: int| 0 <= k < all[g].len() implies #[trigger] all[g][k] < n by {
            let (a, b) = gather_member(n, m, k);
        }
    }
    assert forall|i: usize| i < demands.len() implies #[trigger] is_grouped(all, i) by {
        let head = lead_of(demands, keys, i as int);
        lead_found(demands, keys, i as int);
        let g = if has_company(demands, keys, i as int) {
            let back = if head == i {
                choose|j: int|
                    0 <= j < demands.len() && j != i && #[trigger] merges(demands, keys, i as int, j)
            } else {
                i as int
            };
            assert(merges(demands, keys, head, back) && back != head);
            assert forall|j: int| 0 <= j < head implies !#[trigger] merges(
                demands,
                keys,
                head,
                j,
            ) by {
                assert(!merges(demands, keys, i as int, j));
            }
            assert(heads_group(demands, keys, head));
            assert(heads.contains(head as usize));
            choose|g: int| 0 <= g < heads.len() && heads[g] == head as usize
        } else {
            assert(f(i as int) == seq![i]);
            gather_holds(n, f, i as int, 0);
            heads.len() + gather(i as int, f).len() as int
        };
        let first = firsts[g] as int;
        if !has_company(demands, keys, i as int) {
            assert(firsts[g] == i);
        }
        let m = |j: int|
            if merges(demands, keys, first, j) {
                seq![j as usize]
            } else {
                Seq::empty()
            };
        assert(m(i as int) == seq![i]);
        gather_holds(n, m, i as int, 0);
        assert(all[g] == gather(n, m));
        assert(all[g][gather(i as int, m).len() as int] == i);
        assert(all[g].contains(i));
    }
}

/// The first demand that merges with demand `i`.
spec fn lead_of(demands: Seq<DemandRow>, keys: Seq<i64>, i: int) -> int {
    choose|j: int| #[trigger] is_lead(demands, keys, i, j)
}

spec fn is_lead(demands: Seq<DemandRow>, keys: Seq<i64>, i: int, j: int) -> bool {
    &&& 0 <= j <= i
    &&& merges(demands, keys, i, j)
    &&& forall|k: int| 0 <= k < j ==> !#[trigger] merges(demands, keys, i, k)
}

/// There is a first demand of each group.
proof fn lead_found(demands: Seq<DemandRow>, keys: Seq<i64>, i: int)
    requires
        0 <= i < demands.len(),
    ensures
        is_lead(demands, keys, i, lead_of(demands, keys, i)),
{
    lead_below(demands, keys, i, i);
}

proof fn lead_below(demands: Seq<DemandRow>, keys: Seq<i64>, i: int, j: int)
    requires
        0 <= j <= i < demands.len(),
        merges(demands, keys, i, j),
    ensures
        is_lead(demands, keys, i, lead_of(demands, keys, i)),
    decreases j,
{
    if exists|k: int| 0 <= k < j && #[trigger] merges(demands, keys, i, k) {
        let k = choose|k: int| 0 <= k < j && #[trigger] merges(demands, keys, i, k);
        lead_below(demands, keys, i, k);
    } else {
        assert(is_lead(demands, keys, i, j));
    }
}

/// What decides the commodity of each row: its kind, whether it is multicast, and
/// its rounded priority.
#[verifier::ext_equal]
pub struct Labels {
    pub kinds: Seq<u32>,
    pub multicast: Seq<bool>,
    pub keys: Seq<i64>,
}

impl Labels {
    /// One label of each sort for every row.
    pub open spec fn wf(self) -> bool {
        self.multicast.len() == self.kinds.len() && self.keys.len() == self.kinds.len()
    }

    /// How many rows there are.
    pub open spec fn rows(self) -> int {
        self.kinds.len() as int
    }

    /// Both rows are unicast and of one kind.
    pub open spec fn peers(self, h: int, g: int) -> bool {
        !self.multicast[h] && !self.multicast[g] && self.kinds[h] == self.kinds[g]
    }

    /// A unicast row of the same kind has a lower priority.
    pub open spec fn is_raised(self, g: int) -> bool {
        exists|h: int|
            0 <= h < self.rows() && #[trigger] self.peers(h, g) && self.keys[h] < self.keys[g]
    }

    /// No earlier unicast row has the same kind and priority.
    pub open spec fn is_new(self, g: int) -> bool {
        forall|h: int| 0 <= h < g && #[trigger] self.peers(h, g) ==> self.keys[h] != self.keys[g]
    }

    /// A unicast class that needs a commodity of its own: kind and priority, with
    /// a lower priority of the same kind beside it. Its first row stands for it.
    pub open spec fn opens_class(self, g: int) -> bool {
        self.is_raised(g) && self.is_new(g)
    }

    /// The class of row `h` comes before that of row `g`: by kind, then by
    /// priority.
    pub open spec fn class_before(self, h: int, g: int) -> bool {
        self.kinds[h] < self.kinds[g] || self.kinds[h] == self.kinds[g] && self.keys[h]
            < self.keys[g]
    }

    /// A multicast row after another of its kind.
    pub open spec fn is_repeat(self, g: int) -> bool {
        self.multicast[g] && exists|h: int|
            0 <= h < g && self.multicast[h] && #[trigger] self.kinds[h] == self.kinds[g]
    }

    /// Row `h` comes before row `g` among the multicast rows: by kind, then by
    /// place.
    pub open spec fn row_before(self, h: int, g: int) -> bool {
        self.kinds[h] < self.kinds[g] || self.kinds[h] == self.kinds[g] && h < g
    }

    /// The largest kind.
    pub open spec fn top(self) -> int {
        top_kind(self.kinds)
    }

    /// How many unicast classes need a commodity of their own.
    pub open spec fn classes(self) -> nat {
        count_where(self.rows(), |h: int| self.opens_class(h))
    }

    /// How many of those come before the class of row `g`.
    pub open spec fn classes_before(self, g: int) -> nat {
        count_where(self.rows(), |h: int| self.opens_class(h) && self.class_before(h, g))
    }

    /// How many multicast rows need a commodity of their own.
    pub open spec fn repeats(self) -> nat {
        count_where(self.rows(), |h: int| self.is_repeat(h))
    }

    /// How many of those come before row `g`.
    pub open spec fn repeats_before(self, g: int) -> nat {
        count_where(self.rows(), |h: int| self.is_repeat(h) && self.row_before(h, g))
    }

    /// The commodity of a row. Of the unicast rows of a kind, those of the lowest
    /// priority keep it and each other priority gets a number of its own beyond
    /// all kinds; of the multicast rows of a kind, the first keeps it and each
    /// other gets a number of its own beyond those.
    pub open spec fn commodity(self, g: int) -> int {
        if self.multicast[g] {
            if self.is_repeat(g) {
                self.top() + self.classes() + 1 + self.repeats_before(g)
            } else {
                self.kinds[g] as int
            }
        } else if self.is_raised(g) {
            self.top() + 1 + self.classes_before(g)
        } else {
            self.kinds[g] as int
        }
    }

    /// The number of every commodity fits.
    pub open spec fn fits(self) -> bool {
        self.top() + self.classes() + self.repeats() <= u32::MAX
    }
}

/// The largest of the kinds; zero where there is none.
pub open spec fn top_kind(kinds: Seq<u32>) -> int
    decreases kinds.len(),
{
    if kinds.len() == 0 {
        0
    } else {
        let rest = top_kind(kinds.drop_last());
        if kinds.last() > rest {
            kinds.last() as int
        } else {
            rest
        }
    }
}

/// No kind exceeds the largest.
pub proof fn top_kind_bounds(kinds: Seq<u32>)
    ensures
        0 <= top_kind(kinds) <= u32::MAX,
        forall|i: int| 0 <= i < kinds.len() ==> #[trigger] kinds[i] <= top_kind(kinds),
    decreases kinds.len(),
{
    if kinds.len() > 0 {
        top_kind_bounds(kinds.drop_last());
        assert forall|i: int| 0 <= i < kinds.len() implies #[trigger] kinds[i] <= top_kind(
            kinds,
        ) by {
            if i < kinds.len() - 1 {
                assert(kinds.drop_last()[i] == kinds[i]);
            }
        }
    }
}

/// Finds the largest kind.
fn find_top(kinds: &[u32]) -> (r: u32)
    ensures
        r == top_kind(kinds@),
{
    let mut top: u32 = 0;
    for i in 0..kinds.len()
        invariant
            top == top_kind(kinds@.take(i as int)),
    {
        assert(kinds@.take(i + 1).drop_last() =~= kinds@.take(i as int));
        if kinds[i] > top {
            top = kinds[i];
        }
    }
    assert(kinds@.take(kinds@.len() as int) =~= kinds@);
    top
}

/// Whether a unicast row is raised, and whether it opens a class.
fn unicast_standing(kinds: &[u32], multicast: &[bool], keys: &[i64], g: usize) -> (r: (bool, bool))
    requires
        multicast@.len() == kinds@.len(),
        keys@.len() == kinds@.len(),
        g < kinds@.len(),
    ensures
        ({
            let labels = Labels { kinds: kinds@, multicast: multicast@, keys: keys@ };
            r.0 == labels.is_raised(g as int) && r.1 == labels.opens_class(g as int)
        }),
{
    let ghost labels = Labels { kinds: kinds@, multicast: multicast@, keys: keys@ };
    let mut raised = false;
    let mut new = true;
    for h in 0..kinds.len()
        invariant
            multicast@.len() == kinds@.len(),
            keys@.len() == kinds@.len(),
            g < kinds@.len(),
            labels == (Labels { kinds: kinds@, multicast: multicast@, keys: keys@ }),
            raised == exists|k: int|
                0 <= k < h && #[trigger] labels.peers(k, g as int) && labels.keys[k]
                    < labels.keys[g as int],
            new == forall|k: int|
                0 <= k < g && k < h && #[trigger] labels.peers(k, g as int) ==> labels.keys[k]
                    != labels.keys[g as int],
    {
        if !multicast[h] && !multicast[g] && kinds[h] == kinds[g] {
            assert(labels.peers(h as int, g as int));
            if keys[h] < keys[g] {
                raised = true;
            }
            if h < g && keys[h] == keys[g] {
                new = false;
            }
        }
    }
    (raised, raised && new)
}

/// Whether a row repeats the kind of a multicast row before it.
fn multicast_standing(kinds: &[u32], multicast: &[bool], g: usize) -> (r: bool)
    requires
        multicast@.len() == kinds@.len(),
        g < kinds@.len(),
    ensures
        forall|keys: Seq<i64>|
            r == #[trigger] (Labels { kinds: kinds@, multicast: multicast@, keys }).is_repeat(
                g as int,
            ),
{
    if !multicast[g] {
        return false;
    }
    for h in 0..g
        invariant
            multicast@.len() == kinds@.len(),
            g < kinds@.len(),
            multicast@[g as int],
            forall|k: int|
                0 <= k < h && multicast@[k] ==> #[trigger] kinds@[k] != kinds@[g as int],
    {
        if multicast[h] && kinds[h] == kinds[g] {
            proof {
                assert forall|keys: Seq<i64>| #[trigger]
                    (Labels { kinds: kinds@, multicast: multicast@, keys }).is_repeat(g as int) by {
                    let labels = Labels { kinds: kinds@, multicast: multicast@, keys };
                    assert(labels.kinds[h as int] == labels.kinds[g as int]);
                }
            }
            return true;
        }
    }
    false
}

/// The marks that the commodities follow from.
struct Marks {
    raised: Vec<bool>,
    opens: Vec<bool>,
    repeats: Vec<bool>,
}

impl Marks {
    /// The marks are those of the labels.
    spec fn of(self, labels: Labels) -> bool {
        &&& self.raised@.len() == labels.rows()
        &&& self.opens@.len() == labels.rows()
        &&& self.repeats@.len() == labels.rows()
        &&& forall|g: int|
            0 <= g < labels.rows() ==> #[trigger] self.raised@[g] == labels.is_raised(g)
        &&& forall|g: int|
            0 <= g < labels.rows() ==> #[trigger] self.opens@[g] == labels.opens_class(g)
        &&& forall|g: int|
            0 <= g < labels.rows() ==> #[trigger] self.repeats@[g] == labels.is_repeat(g)
    }
}

/// Marks the rows.
fn mark_rows(kinds: &[u32], multicast: &[bool], keys: &[i64]) -> (r: Marks)
    requires
        multicast@.len() == kinds@.len(),
        keys@.len() == kinds@.len(),
    ensures
        r.of(Labels { kinds: kinds@, multicast: multicast@, keys: keys@ }),
{
    let ghost labels = Labels { kinds: kinds@, multicast: multicast@, keys: keys@ };
    let mut marks = Marks { raised: Vec::new(), opens: Vec::new(), repeats: Vec::new() };
    for g in 0..kinds.len()
        invariant
            multicast@.len() == kinds@.len(),
            keys@.len() == kinds@.len(),
            labels == (Labels { kinds: kinds@, multicast: multicast@, keys: keys@ }),
            marks.raised@.len() == g,
            marks.opens@.len() == g,
            marks.repeats@.len() == g,
            forall|k: int| 0 <= k < g ==> #[trigger] marks.raised@[k] == labels.is_raised(k),
            forall|k: int| 0 <= k < g ==> #[trigger] marks.opens@[k] == labels.opens_class(k),
            forall|k: int| 0 <= k < g ==> #[trigger] marks.repeats@[k] == labels.is_repeat(k),
    {
        let (raised, opens) = unicast_standing(kinds, multicast, keys, g);
        let repeats = multicast_standing(kinds, multicast, g);
        assert(repeats == labels.is_repeat(g as int));
        marks.raised.push(raised);
        marks.opens.push(opens);
        marks.repeats.push(repeats);
    }
    marks
}

/// Counts the rows marked.
fn count_marks(marks: &[bool]) -> (r: usize)
    ensures
        r == count_where(marks@.len() as int, |h: int| marks@[h]),
{
    let ghost p = |h: int| marks@[h];
    let mut n: usize = 0;
    for h in 0..marks.len()
        invariant
            p == (|h: int| marks@[h]),
            n == count_where(h as int, p),
            n <= h,
    {
        if marks[h] {
            n = n + 1;
        }
    }
    n
}

/// Whether the number of every commodity fits.
fn do_labels_fit(kinds: &[u32], multicast: &[bool], keys: &[i64]) -> (r: bool)
    requires
        multicast@.len() == kinds@.len(),
        keys@.len() == kinds@.len(),
    ensures
        r == (Labels { kinds: kinds@, multicast: multicast@, keys: keys@ }).fits(),
{
    let ghost labels = Labels { kinds: kinds@, multicast: multicast@, keys: keys@ };
    let marks = mark_rows(kinds, multicast, keys);
    let classes: usize = count_marks(marks.opens.as_slice());
    let repeats: usize = count_marks(marks.repeats.as_slice());
    proof {
        count_same(
            labels.rows(),
            |h: int| marks.opens@[h],
            |h: int| labels.opens_class(h),
        );
        count_same(
            labels.rows(),
            |h: int| marks.repeats@[h],
            |h: int| labels.is_repeat(h),
        );
    }
    find_top(kinds) as u128 + classes as u128 + repeats as u128 <= u32::MAX as u128
}

/// The commodities of the rows.
fn assign_commodities(kinds: &[u32], multicast: &[bool], keys: &[i64]) -> (r: Vec<u32>)
    requires
        multicast@.len() == kinds@.len(),
        keys@.len() == kinds@.len(),
        (Labels { kinds: kinds@, multicast: multicast@, keys: keys@ }).fits(),
    ensures
        r@.len() == kinds@.len(),
        forall|g: int|
            0 <= g < r@.len() ==> #[trigger] r@[g] == (Labels {
                kinds: kinds@,
                multicast: multicast@,
                keys: keys@,
            }).commodity(g),
{
    let ghost labels = Labels { kinds: kinds@, multicast: multicast@, keys: keys@ };
    let marks = mark_rows(kinds, multicast, keys);
    let top: u32 = find_top(kinds);
    let classes: usize = count_marks(marks.opens.as_slice());
    proof {
        count_same(
            labels.rows(),
            |h: int| marks.opens@[h],
            |h: int| labels.opens_class(h),
        );
    }
    let mut out: Vec<u32> = Vec::new();
    for g in 0..kinds.len()
        invariant
            multicast@.len() == kinds@.len(),
            keys@.len() == kinds@.len(),
            labels == (Labels { kinds: kinds@, multicast: multicast@, keys: keys@ }),
            labels.fits(),
            marks.of(labels),
            top == labels.top(),
            classes == labels.classes(),
            out@.len() == g,
            forall|k: int| 0 <= k < g ==> #[trigger] out@[k] == labels.commodity(k),
    {
        let ghost row = g as int;
        let mut before: u32 = 0;
        if multicast[g] && marks.repeats[g] {
            let ghost p = |h: int| labels.is_repeat(h) && labels.row_before(h, row);
            let ghost q = |h: int| labels.is_repeat(h);
            proof {
                assert(!p(row));
                count_exceeds(labels.rows(), p, q, row);
            }
            for h in 0..kinds.len()
                invariant
                    multicast@.len() == kinds@.len(),
                    keys@.len() == kinds@.len(),
                    labels == (Labels { kinds: kinds@, multicast: multicast@, keys: keys@ }),
                    marks.of(labels),
                    g < kinds@.len(),
                    row == g,
                    p == (|h: int| labels.is_repeat(h) && labels.row_before(h, row)),
                    count_where(labels.rows(), p) <= u32::MAX,
                    before == count_where(h as int, p),
            {
                proof {
                    count_grows(h + 1, labels.rows(), p, p);
                }
                if marks.repeats[h] && (kinds[h] < kinds[g] || kinds[h] == kinds[g] && h < g) {
                    before = before + 1;
                }
            }
            out.push(top + classes as u32 + 1 + before);
        } else if !multicast[g] && marks.raised[g] {
            let ghost p = |h: int| labels.opens_class(h) && labels.class_before(h, row);
            let ghost q = |h: int| labels.opens_class(h);
            proof {
                let lead = labels.class_lead(row);
                labels.class_lead_opens(row);
                assert(!p(lead));
                count_exceeds(labels.rows(), p, q, lead);
            }
            for h in 0..kinds.len()
                invariant
                    multicast@.len() == kinds@.len(),
                    keys@.len() == kinds@.len(),
                    labels == (Labels { kinds: kinds@, multicast: multicast@, keys: keys@ }),
                    marks.of(labels),
                    g < kinds@.len(),
                    row == g,
                    p == (|h: int| labels.opens_class(h) && labels.class_before(h, row)),
                    count_where(labels.rows(), p) <= u32::MAX,
                    before == count_where(h as int, p),
            {
                proof {
                    count_grows(h + 1, labels.rows(), p, p);
                }
                if marks.opens[h] && (kinds[h] < kinds[g] || kinds[h] == kinds[g] && keys[h]
                    < keys[g]) {
                    before = before + 1;
                }
            }
            out.push(top + 1 + before);
        } else {
            out.push(kinds[g]);
        }
        assert(out@[row] == labels.commodity(row));
    }
    out
}

impl Labels {
    /// The first unicast row of the class of row `g`.
    spec fn class_lead(self, g: int) -> int {
        choose|h: int| #[trigger] self.leads_class(h, g)
    }

    spec fn leads_class(self, h: int, g: int) -> bool {
        &&& 0 <= h <= g
        &&& self.peers(h, g)
        &&& self.keys[h] == self.keys[g]
        &&& self.is_new(h)
    }

    /// The first row of a raised class opens it.
    proof fn class_lead_opens(self, g: int)
        requires
            0 <= g < self.rows(),
            self.is_raised(g),
        ensures
            self.leads_class(self.class_lead(g), g),
            self.opens_class(self.class_lead(g)),
    {
        let low = choose|h: int|
            0 <= h < self.rows() && #[trigger] self.peers(h, g) && self.keys[h] < self.keys[g];
        assert(self.peers(g, g));
        self.class_lead_from(g, g);
        assert(self.peers(low, self.class_lead(g)));
    }

    proof fn class_lead_from(self, g: int, h: int)
        requires
            0 <= h <= g < self.rows(),
            self.peers(h, g),
            self.keys[h] == self.keys[g],
        ensures
            self.leads_class(self.class_lead(g), g),
        decreases h,
    {
        if self.is_new(h) {
            assert(self.leads_class(h, g));
        } else {
            let k = choose|k: int|
                0 <= k < h && #[trigger] self.peers(k, h) && self.keys[k] == self.keys[h];
            assert(self.peers(k, g));
            self.class_lead_from(g, k);
        }
    }
}

/// The receivers of several demands together.
pub open spec fn receivers_of(demands: Seq<DemandRow>, group: Seq<usize>) -> int
    decreases group.len(),
{
    if group.len() == 0 {
        0
    } else {
        receivers_of(demands, group.drop_last()) + demands[group.last() as int].receivers
    }
}

/// The labels of the groups: the first member of a group gives its kind and
/// whether it is multicast.
pub open spec fn labels_of(
    demands: Seq<DemandRow>,
    groups: Seq<Seq<usize>>,
    rounded: Seq<i64>,
) -> Labels {
    Labels {
        kinds: Seq::new(groups.len(), |g: int| demands[groups[g][0] as int].kind),
        multicast: Seq::new(groups.len(), |g: int| demands[groups[g][0] as int].multicast),
        keys: rounded,
    }
}

/// The flow of a group: the first member gives its start, end and kind, the
/// members together its receivers.
pub open spec fn flow_of(
    demands: Seq<DemandRow>,
    groups: Seq<Seq<usize>>,
    priorities: Seq<Real>,
    traffic: Seq<Real>,
    rounded: Seq<i64>,
    g: int,
) -> FlowRow {
    let first = demands[groups[g][0] as int];
    FlowRow {
        start: first.start,
        end: first.end,
        receivers: receivers_of(demands, groups[g]) as u32,
        traffic: traffic[g],
        priority: priorities[g],
        kind: labels_of(demands, groups, rounded).commodity(g) as u32,
        multicast: first.multicast,
        original: first.kind,
    }
}

/// The receivers of every group can be counted.
pub open spec fn receivers_fit(demands: Seq<DemandRow>, groups: Seq<Seq<usize>>) -> bool {
    forall|g: int|
        0 <= g < groups.len() ==> receivers_of(demands, #[trigger] groups[g]) <= u32::MAX
}

/// The sum over more members is no smaller.
proof fn receivers_grow(demands: Seq<DemandRow>, group: Seq<usize>, k: int)
    requires
        0 <= k <= group.len(),
    ensures
        0 <= receivers_of(demands, group.take(k)) <= receivers_of(demands, group),
    decreases group.len(),
{
    if k == group.len() {
        assert(group.take(k) =~= group);
        if k > 0 {
            receivers_grow(demands, group.drop_last(), k - 1);
        }
    } else {
        receivers_grow(demands, group.drop_last(), k);
        assert(group.drop_last().take(k) =~= group.take(k));
    }
}

/// Adds up the receivers of a group, as far as they can be counted.
fn sum_receivers(demands: &[Demand], group: &[usize]) -> (r: Option<u32>)
    requires
        forall|k: int| 0 <= k < group@.len() ==> #[trigger] group@[k] < demands@.len(),
    ensures
        r is Some <==> receivers_of(views(demands@), group@) <= u32::MAX,
        r matches Some(n) ==> n == receivers_of(views(demands@), group@),
{
    let ghost rows = views(demands@);
    let mut sum: u32 = 0;
    for k in 0..group.len()
        invariant
            rows == views(demands@),
            forall|k: int| 0 <= k < group@.len() ==> #[trigger] group@[k] < demands@.len(),
            sum == receivers_of(rows, group@.take(k as int)),
    {
        let i: usize = group[k];
        assert(rows[i as int] == demands@[i as int]@);
        assert(group@.take(k + 1).drop_last() =~= group@.take(k as int));
        proof {
            receivers_grow(rows, group@, k + 1);
        }
        match sum.checked_add(demands[i].receivers) {
            Some(more) => {
                sum = more;
            },
            None => {
                return None;
            },
        }
    }
    assert(group@.take(group@.len() as int) =~= group@);
    Some(sum)
}

/// Whether the receivers of every group and the number of every commodity fit.
pub fn demand_numbers_fit(demands: &[Demand], groups: &[Vec<usize>], rounded: &[i64]) -> (r: bool)
    requires
        groups_valid(lists_of(groups@), demands@.len() as int),
        rounded@.len() == groups@.len(),
    ensures
        r == (receivers_fit(views(demands@), lists_of(groups@)) && labels_of(
            views(demands@),
            lists_of(groups@),
            rounded@,
        ).fits()),
{
    let ghost rows = views(demands@);
    let ghost lists = lists_of(groups@);
    for g in 0..groups.len()
        invariant
            rows == views(demands@),
            lists == lists_of(groups@),
            groups_valid(lists, demands@.len() as int),
            forall|k: int|
                0 <= k < g ==> receivers_of(rows, #[trigger] lists[k]) <= u32::MAX,
    {
        assert(lists[g as int] == groups@[g as int]@);
        if sum_receivers(demands, groups[g].as_slice()).is_none() {
            assert(!receivers_fit(rows, lists));
            return false;
        }
    }
    let (kinds, multicast) = read_labels(demands, groups);
    do_labels_fit(kinds.as_slice(), multicast.as_slice(), rounded)
}

/// The kinds of the groups, and which are multicast.
fn read_labels(demands: &[Demand], groups: &[Vec<usize>]) -> (r: (Vec<u32>, Vec<bool>))
    requires
        groups_valid(lists_of(groups@), demands@.len() as int),
    ensures
        forall|rounded: Seq<i64>| #[trigger]
            labels_of(views(demands@), lists_of(groups@), rounded) == (Labels {
                kinds: r.0@,
                multicast: r.1@,
                keys: rounded,
            }),
        r.0@.len() == groups@.len(),
        r.1@.len() == groups@.len(),
{
    let ghost rows = views(demands@);
    let ghost lists = lists_of(groups@);
    let mut kinds: Vec<u32> = Vec::new();
    let mut multicast: Vec<bool> = Vec::new();
    for g in 0..groups.len()
        invariant
            rows == views(demands@),
            lists == lists_of(groups@),
            groups_valid(lists, demands@.len() as int),
            kinds@.len() == g,
            multicast@.len() == g,
            forall|k: int| 0 <= k < g ==> #[trigger] kinds@[k] == rows[lists[k][0] as int].kind,
            forall|k: int|
                0 <= k < g ==> #[trigger] multicast@[k] == rows[lists[k][0] as int].multicast,
    {
        assert(lists[g as int] == groups@[g as int]@);
        assert(lists[g as int][0] < demands@.len());
        let first: usize = groups[g][0];
        assert(rows[first as int] == demands@[first as int]@);
        kinds.push(demands[first].kind);
        multicast.push(demands[first].multicast);
    }
    proof {
        assert forall|rounded: Seq<i64>| #[trigger]
            labels_of(rows, lists, rounded) == (Labels {
                kinds: kinds@,
                multicast: multicast@,
                keys: rounded,
            }) by {
            assert(labels_of(rows, lists, rounded) =~= (Labels {
                kinds: kinds@,
                multicast: multicast@,
                keys: rounded,
            }));
        }
    }
    (kinds, multicast)
}

/// Makes one flow of each group of demands and tells the commodities apart. For
/// each group, `priorities` gives the average priority, `traffic` the traffic
/// times the multiplier, `rounded` the rounded priority.
pub fn consolidate_demand(
    demands: &[Demand],
    groups: &[Vec<usize>],
    priorities: &[Real],
    traffic: &[Real],
    rounded: &[i64],
) -> (r: Vec<ConsolidatedDemand>)
    requires
        groups_valid(lists_of(groups@), demands@.len() as int),
        priorities@.len() == groups@.len(),
        traffic@.len() == groups@.len(),
        rounded@.len() == groups@.len(),
        receivers_fit(views(demands@), lists_of(groups@)),
        labels_of(views(demands@), lists_of(groups@), rounded@).fits(),
    ensures
        views(r@) == Seq::new(
            groups@.len(),
            |g: int|
                flow_of(
                    views(demands@),
                    lists_of(groups@),
                    priorities@,
                    traffic@,
                    rounded@,
                    g,
                ),
        ),
{
    let ghost rows = views(demands@);
    let ghost lists = lists_of(groups@);
    let ghost labels = labels_of(rows, lists, rounded@);
    let (kinds, multicast) = read_labels(demands, groups);
    let commodities = assign_commodities(kinds.as_slice(), multicast.as_slice(), rounded);
    let mut out: Vec<ConsolidatedDemand> = Vec::new();
    let ghost all = Seq::new(
        groups@.len(),
        |g: int| flow_of(rows, lists, priorities@, traffic@, rounded@, g),
    );
    for g in 0..groups.len()
        invariant
            rows == views(demands@),
            lists == lists_of(groups@),
            labels == labels_of(rows, lists, rounded@),
            groups_valid(lists, demands@.len() as int),
            receivers_fit(rows, lists),
            priorities@.len() == groups@.len(),
            traffic@.len() == groups@.len(),
            commodities@.len() == groups@.len(),
            forall|g: int|
                0 <= g < commodities@.len() ==> #[trigger] commodities@[g] == labels.commodity(g),
            all == Seq::new(
                groups@.len(),
                |g: int| flow_of(rows, lists, priorities@, traffic@, rounded@, g),
            ),
            views(out@) == all.take(g as int),
    {
        assert(lists[g as int] == groups@[g as int]@);
        assert(lists[g as int][0] < demands@.len());
        let first: usize = groups[g][0];
        assert(rows[first as int] == demands@[first as int]@);
        let receivers: u32 = match sum_receivers(demands, groups[g].as_slice()) {
            Some(n) => n,
            None => 0,
        };
        assert(receivers_of(rows, lists[g as int]) <= u32::MAX);
        let flow = ConsolidatedDemand {
            start: demands[first].start.clone(),
            end: demands[first].end.clone(),
            receivers,
            traffic: traffic[g],
            priority: priorities[g],
            kind: commodities[g],
            multicast: demands[first].multicast,
            original: demands[first].kind,
        };
        proof {
            assert(commodities@[g as int] == labels.commodity(g as int));
            assert(flow@ == all[g as int]);
            views_push(out@, flow);
            assert(all.take(g + 1) =~= all.take(g as int).push(all[g as int]));
        }
        out.push(flow);
    }
    assert(all.take(groups@.len() as int) =~= all);
    out
}

/// Commodities lie beyond all kinds where they are not kinds, and no more of them
/// are handed out than there are.
pub proof fn commodity_bounds(labels: Labels, g: int)
    requires
        labels.wf(),
        0 <= g < labels.rows(),
    ensures
        !labels.multicast[g] && labels.is_raised(g) ==> labels.top() < labels.commodity(g)
            <= labels.top() + labels.classes(),
        labels.multicast[g] && labels.is_repeat(g) ==> labels.top() + labels.classes()
            < labels.commodity(g) <= labels.top() + labels.classes() + labels.repeats(),
        labels.kinds[g] <= labels.top(),
{
    top_kind_bounds(labels.kinds);
    if !labels.multicast[g] && labels.is_raised(g) {
        let p = |h: int| labels.opens_class(h) && labels.class_before(h, g);
        let q = |h: int| labels.opens_class(h);
        labels.class_lead_opens(g);
        let lead = labels.class_lead(g);
        assert(!p(lead));
        count_exceeds(labels.rows(), p, q, lead);
    }
    if labels.multicast[g] && labels.is_repeat(g) {
        let p = |h: int| labels.is_repeat(h) && labels.row_before(h, g);
        let q = |h: int| labels.is_repeat(h);
        assert(!p(g));
        count_exceeds(labels.rows(), p, q, g);
    }
}

/// The commodities of two raised unicast rows stand in the order of their classes.
pub proof fn classes_in_order(labels: Labels, a: int, b: int)
    requires
        labels.wf(),
        0 <= a < labels.rows(),
        0 <= b < labels.rows(),
        !labels.multicast[a],
        !labels.multicast[b],
        labels.is_raised(a),
        labels.is_raised(b),
        labels.class_before(a, b),
    ensures
        labels.commodity(a) < labels.commodity(b),
{
    let p = |h: int| labels.opens_class(h) && labels.class_before(h, a);
    let q = |h: int| labels.opens_class(h) && labels.class_before(h, b);
    labels.class_lead_opens(a);
    let lead = labels.class_lead(a);
    count_exceeds(labels.rows(), p, q, lead);
}

/// Two unicast rows are carried as one commodity if and only if they are of one
/// kind and one rounded priority.
pub proof fn unicast_split_by_priority(labels: Labels, a: int, b: int)
    requires
        labels.wf(),
        0 <= a < labels.rows(),
        0 <= b < labels.rows(),
        !labels.multicast[a],
        !labels.multicast[b],
    ensures
        labels.commodity(a) == labels.commodity(b) <==> labels.kinds[a] == labels.kinds[b]
            && labels.keys[a] == labels.keys[b],
{
    commodity_bounds(labels, a);
    commodity_bounds(labels, b);
    if labels.kinds[a] == labels.kinds[b] && labels.keys[a] == labels.keys[b] {
        if labels.is_raised(a) {
            let h = choose|h: int|
                0 <= h < labels.rows() && #[trigger] labels.peers(h, a) && labels.keys[h]
                    < labels.keys[a];
            assert(labels.peers(h, b));
        }
        if labels.is_raised(b) {
            let h = choose|h: int|
                0 <= h < labels.rows() && #[trigger] labels.peers(h, b) && labels.keys[h]
                    < labels.keys[b];
            assert(labels.peers(h, a));
        }
        let p = |h: int| labels.opens_class(h) && labels.class_before(h, a);
        let q = |h: int| labels.opens_class(h) && labels.class_before(h, b);
        count_same(labels.rows(), p, q);
    } else {
        if labels.kinds[a] == labels.kinds[b] {
            assert(labels.peers(a, b) && labels.peers(b, a));
        }
        if labels.is_raised(a) && labels.is_raised(b) {
            if labels.class_before(a, b) {
                classes_in_order(labels, a, b);
            } else {
                classes_in_order(labels, b, a);
            }
        }
    }
}

/// Every multicast row is carried as a commodity of its own.
pub proof fn multicast_rows_stand_alone(labels: Labels, a: int, b: int)
    requires
        labels.wf(),
        0 <= a < labels.rows(),
        0 <= b < labels.rows(),
        a != b,
        labels.multicast[a],
        labels.multicast[b],
    ensures
        labels.commodity(a) != labels.commodity(b),
{
    commodity_bounds(labels, a);
    commodity_bounds(labels, b);
    if labels.is_repeat(a) && labels.is_repeat(b) {
        let p = |h: int| labels.is_repeat(h) && labels.row_before(h, a);
        let q = |h: int| labels.is_repeat(h) && labels.row_before(h, b);
        if labels.row_before(a, b) {
            count_exceeds(labels.rows(), p, q, a);
        } else {
            count_exceeds(labels.rows(), q, p, b);
        }
    } else if !labels.is_repeat(a) && !labels.is_repeat(b) && labels.kinds[a] == labels.kinds[b] {
        if a < b {
            assert(labels.kinds[a] == labels.kinds[b]);
            assert(labels.is_repeat(b));
        } else {
            assert(labels.kinds[b] == labels.kinds[a]);
            assert(labels.is_repeat(a));
        }
    }
}

/// A multicast row shares its commodity with no unicast row of another kind.
pub proof fn multicast_apart_from_unicast(labels: Labels, a: int, b: int)
    requires
        labels.wf(),
        0 <= a < labels.rows(),
        0 <= b < labels.rows(),
        labels.multicast[a],
        !labels.multicast[b],
        labels.kinds[a] != labels.kinds[b],
    ensures
        labels.commodity(a) != labels.commodity(b),
{
    commodity_bounds(labels, a);
    commodity_bounds(labels, b);
}

} // verus!
