//! Lists put together piece by piece, counts of positions, and sorted lists of
//! numbers.
use vstd::prelude::*;

verus! {

/// The pieces `f(0)`, `f(1)`, up to `f(n - 1)`, one after the other.
pub open spec fn gather<T>(n: int, f: spec_fn(int) -> Seq<T>) -> Seq<T>
    decreases n,
{
    if n <= 0 {
        Seq::empty()
    } else {
        gather(n - 1, f) + f(n - 1)
    }
}

/// What is gathered depends on the pieces alone.
pub proof fn gather_same<T>(n: int, f: spec_fn(int) -> Seq<T>, g: spec_fn(int) -> Seq<T>)
    requires
        forall|i: int| 0 <= i < n ==> #[trigger] f(i) == g(i),
    ensures
        gather(n, f) == gather(n, g),
    decreases n,
{
    if n > 0 {
        gather_same(n - 1, f, g);
        assert(f(n - 1) == g(n - 1));
    }
}

/// The piece and the place in it that hold a gathered member.
pub proof fn gather_member<T>(n: int, f: spec_fn(int) -> Seq<T>, k: int) -> (r: (int, int))
    requires
        0 <= k < gather(n, f).len(),
    ensures
        0 <= r.0 < n,
        0 <= r.1 < f(r.0).len(),
        f(r.0)[r.1] == gather(n, f)[k],
        gather(r.0, f).len() + r.1 == k,
    decreases n,
{
    if k < gather(n - 1, f).len() {
        gather_member(n - 1, f, k)
    } else {
        (n - 1, k - gather(n - 1, f).len())
    }
}

/// A member of a piece is gathered, behind what the pieces before it hold.
pub proof fn gather_holds<T>(n: int, f: spec_fn(int) -> Seq<T>, i: int, j: int)
    requires
        0 <= i < n,
        0 <= j < f(i).len(),
    ensures
        gather(i, f).len() + j < gather(n, f).len(),
        gather(n, f)[gather(i, f).len() + j] == f(i)[j],
    decreases n,
{
    if i < n - 1 {
        gather_holds(n - 1, f, i, j);
    }
}

/// What holds of every member of every piece holds of all that is gathered.
pub proof fn gather_all<T>(n: int, f: spec_fn(int) -> Seq<T>, p: spec_fn(T) -> bool)
    requires
        forall|i: int, j: int| 0 <= i < n && 0 <= j < f(i).len() ==> p(#[trigger] f(i)[j]),
    ensures
        forall|k: int| 0 <= k < gather(n, f).len() ==> p(#[trigger] gather(n, f)[k]),
{
    assert forall|k: int| 0 <= k < gather(n, f).len() implies p(#[trigger] gather(n, f)[k]) by {
        let (i, j) = gather_member(n, f, k);
        assert(p(f(i)[j]));
    }
}

/// A condition met up to `m` and not beyond counts `m` positions.
pub proof fn count_prefix(n: int, p: spec_fn(int) -> bool, m: int)
    requires
        0 <= m <= n,
        forall|i: int| 0 <= i < m ==> #[trigger] p(i),
        forall|i: int| m <= i < n ==> !#[trigger] p(i),
    ensures
        count_where(n, p) == m,
    decreases n,
{
    if m < n {
        count_prefix(n - 1, p, m);
        assert(!p(n - 1));
    } else if n > 0 {
        count_prefix(n - 1, p, m - 1);
        assert(p(n - 1));
    }
}

/// Empty pieces add nothing.
pub proof fn gather_skips<T>(m: int, n: int, f: spec_fn(int) -> Seq<T>)
    requires
        0 <= m <= n,
        forall|i: int| m <= i < n ==> (#[trigger] f(i)).len() == 0,
    ensures
        gather(n, f) == gather(m, f),
    decreases n,
{
    if m < n {
        gather_skips(m, n - 1, f);
        assert(f(n - 1).len() == 0);
        assert(gather(n, f) =~= gather(m, f));
    }
}

/// Pieces of one member each are gathered in place.
pub proof fn gather_singles<T>(n: int, f: spec_fn(int) -> Seq<T>)
    requires
        n >= 0,
        forall|i: int| 0 <= i < n ==> (#[trigger] f(i)).len() == 1,
    ensures
        gather(n, f).len() == n,
        forall|i: int| 0 <= i < n ==> #[trigger] gather(n, f)[i] == f(i)[0],
    decreases n,
{
    if n > 0 {
        gather_singles(n - 1, f);
        assert(f(n - 1).len() == 1);
        assert forall|i: int| 0 <= i < n implies #[trigger] gather(n, f)[i] == f(i)[0] by {
            if i < n - 1 {
                assert(gather(n - 1, f)[i] == f(i)[0]);
            }
        }
    }
}

/// How many of the positions below `n` meet `p`.
pub open spec fn count_where(n: int, p: spec_fn(int) -> bool) -> nat
    decreases n,
{
    if n <= 0 {
        0
    } else {
        count_where(n - 1, p) + (if p(n - 1) {
            1nat
        } else {
            0nat
        })
    }
}

/// A count stays within the number of positions.
pub proof fn count_bound(n: int, p: spec_fn(int) -> bool)
    requires
        n >= 0,
    ensures
        count_where(n, p) <= n,
    decreases n,
{
    if n > 0 {
        count_bound(n - 1, p);
    }
}

/// More positions, or a weaker condition, count for no less.
pub proof fn count_grows(m: int, n: int, p: spec_fn(int) -> bool, q: spec_fn(int) -> bool)
    requires
        m <= n,
        forall|i: int| 0 <= i < m && #[trigger] p(i) ==> q(i),
    ensures
        count_where(m, p) <= count_where(n, q),
    decreases n,
{
    if m < n && n > 0 {
        count_grows(m, n - 1, p, q);
    } else if n > 0 {
        count_grows(m - 1, n - 1, p, q);
        if p(n - 1) {
            assert(q(n - 1));
        }
    }
}

/// A weaker condition that one more position meets counts for more.
pub proof fn count_exceeds(n: int, p: spec_fn(int) -> bool, q: spec_fn(int) -> bool, at: int)
    requires
        0 <= at < n,
        q(at),
        !p(at),
        forall|i: int| 0 <= i < n && #[trigger] p(i) ==> q(i),
    ensures
        count_where(n, p) < count_where(n, q),
    decreases n,
{
    if at == n - 1 {
        count_grows(n - 1, n - 1, p, q);
    } else {
        count_exceeds(n - 1, p, q, at);
        if p(n - 1) {
            assert(q(n - 1));
        }
    }
}

/// Conditions that agree count alike.
pub proof fn count_same(n: int, p: spec_fn(int) -> bool, q: spec_fn(int) -> bool)
    requires
        forall|i: int| 0 <= i < n ==> #[trigger] p(i) == q(i),
    ensures
        count_where(n, p) == count_where(n, q),
    decreases n,
{
    if n > 0 {
        count_same(n - 1, p, q);
        assert(p(n - 1) == q(n - 1));
    }
}

/// Nothing lies before itself, and what lies before a value lies before all
/// that follow it.
pub open spec fn strict_order<T>(less: spec_fn(T, T) -> bool) -> bool {
    &&& forall|a: T| !#[trigger] less(a, a)
    &&& forall|a: T, b: T, c: T| #[trigger] less(a, b) && #[trigger] less(b, c) ==> less(a, c)
}

/// Every member lies before those that follow it.
pub open spec fn ordered<T>(s: Seq<T>, less: spec_fn(T, T) -> bool) -> bool {
    forall|i: int, j: int| 0 <= i < j < s.len() ==> less(#[trigger] s[i], #[trigger] s[j])
}

/// Two ordered lists with the same members are one list.
pub proof fn ordered_once<T>(s: Seq<T>, t: Seq<T>, less: spec_fn(T, T) -> bool)
    requires
        strict_order(less),
        ordered(s, less),
        ordered(t, less),
        forall|x: T| #[trigger] s.contains(x) <==> t.contains(x),
    ensures
        s == t,
    decreases s.len(),
{
    if s.len() == 0 {
        if t.len() > 0 {
            assert(t.contains(t[0]));
            assert(s.contains(t[0]));
        }
        assert(s =~= t);
    } else {
        assert(s.contains(s[s.len() - 1]));
        assert(t.contains(s[s.len() - 1]));
        assert(t.len() > 0);
        let x = s.last();
        let y = t.last();
        assert(t.contains(t[t.len() - 1]));
        assert(s.contains(y));
        let i = choose|i: int| 0 <= i < s.len() && s[i] == y;
        let j = choose|j: int| 0 <= j < t.len() && t[j] == x;
        if i < s.len() - 1 && j < t.len() - 1 {
            assert(less(s[i], s[s.len() - 1]));
            assert(less(t[j], t[t.len() - 1]));
            assert(less(x, x));
        }
        assert(x == y);
        let a = s.drop_last();
        let b = t.drop_last();
        assert forall|z: T| #[trigger] a.contains(z) <==> b.contains(z) by {
            if a.contains(z) {
                let k = choose|k: int| 0 <= k < a.len() && a[k] == z;
                assert(less(s[k], s[s.len() - 1]));
                assert(s.contains(z));
                let m = choose|m: int| 0 <= m < t.len() && t[m] == z;
                assert(m < t.len() - 1);
                assert(b[m] == z);
            }
            if b.contains(z) {
                let k = choose|k: int| 0 <= k < b.len() && b[k] == z;
                assert(less(t[k], t[t.len() - 1]));
                assert(t.contains(z));
                assert(s.contains(z));
                let m = choose|m: int| 0 <= m < s.len() && s[m] == z;
                assert(m < s.len() - 1);
                assert(a[m] == z);
            }
        }
        ordered_once(a, b, less);
        assert(s =~= a.push(x));
        assert(t =~= b.push(y));
    }
}

/// The order of numbers.
pub open spec fn below() -> spec_fn(u32, u32) -> bool {
    |a: u32, b: u32| a < b
}

/// `r` lists each number of `ids` once, in order.
pub open spec fn sorted_of(r: Seq<u32>, ids: Seq<u32>) -> bool {
    &&& ordered(r, below())
    &&& forall|x: u32| #[trigger] r.contains(x) <==> ids.contains(x)
}

/// The numbers of `ids`, each once, in order.
pub open spec fn sorted_ids(ids: Seq<u32>) -> Seq<u32> {
    choose|r: Seq<u32>| sorted_of(r, ids)
}

/// There is one sorted list of given numbers.
pub proof fn sorted_ids_once(r: Seq<u32>, ids: Seq<u32>)
    requires
        sorted_of(r, ids),
    ensures
        r == sorted_ids(ids),
{
    let c = sorted_ids(ids);
    assert(sorted_of(c, ids));
    assert forall|x: u32| #[trigger] r.contains(x) <==> c.contains(x) by {
        assert(r.contains(x) <==> ids.contains(x));
    }
    ordered_once(r, c, below());
}

/// The sorted list of given numbers is one.
pub proof fn sorted_ids_exist(ids: Seq<u32>)
    ensures
        sorted_of(sorted_ids(ids), ids),
    decreases ids.len(),
{
    if ids.len() == 0 {
        assert(sorted_of(Seq::<u32>::empty(), ids));
    } else {
        let front = ids.drop_last();
        let id = ids.last();
        sorted_ids_exist(front);
        let r = sorted_ids(front);
        assert(ids =~= front.push(id));
        let at = slot_of(r, id);
        slot_fits(r, id);
        let s = if at < r.len() && r[at] == id {
            r
        } else {
            r.insert(at, id)
        };
        if at < r.len() && r[at] == id {
            assert(r.contains(id));
        } else {
            inserted(r, at, id);
        }
        assert forall|x: u32| #[trigger] s.contains(x) <==> ids.contains(x) by {
            pushed(front, id, x);
            assert(r.contains(x) <==> front.contains(x));
        }
        assert(sorted_of(s, ids));
    }
}

/// Where a number belongs in a sorted list.
spec fn slot_of(s: Seq<u32>, id: u32) -> int
    decreases s.len(),
{
    if s.len() == 0 || s.last() < id {
        s.len() as int
    } else {
        slot_of(s.drop_last(), id)
    }
}

/// The numbers before the slot are smaller, those after it are not.
proof fn slot_fits(s: Seq<u32>, id: u32)
    requires
        ordered(s, below()),
    ensures
        0 <= slot_of(s, id) <= s.len(),
        forall|k: int| 0 <= k < slot_of(s, id) ==> #[trigger] s[k] < id,
        forall|k: int| slot_of(s, id) <= k < s.len() ==> #[trigger] s[k] >= id,
    decreases s.len(),
{
    if s.len() > 0 {
        let front = s.drop_last();
        if s.last() < id {
            assert forall|k: int| 0 <= k < s.len() implies #[trigger] s[k] < id by {
                if k < s.len() - 1 {
                    assert(below()(s[k], s[s.len() - 1]));
                }
            }
        } else {
            assert forall|i: int, j: int| 0 <= i < j < front.len() implies below()(
                #[trigger] front[i],
                #[trigger] front[j],
            ) by {
                assert(below()(s[i], s[j]));
            }
            slot_fits(front, id);
            assert forall|k: int| 0 <= k < slot_of(s, id) implies #[trigger] s[k] < id by {
                assert(front[k] == s[k]);
            }
            assert forall|k: int| slot_of(s, id) <= k < s.len() implies #[trigger] s[k] >= id by {
                if k < front.len() {
                    assert(front[k] == s[k]);
                }
            }
        }
    }
}

/// A list stays sorted when a number is put where it belongs.
proof fn inserted(before: Seq<u32>, at: int, id: u32)
    requires
        ordered(before, below()),
        0 <= at <= before.len(),
        forall|k: int| 0 <= k < at ==> #[trigger] before[k] < id,
        at < before.len() ==> before[at] > id,
    ensures
        ordered(before.insert(at, id), below()),
        forall|x: u32| #[trigger]
            before.insert(at, id).contains(x) <==> (before.contains(x) || x == id),
{
    let after = before.insert(at, id);
    assert forall|i: int, j: int| 0 <= i < j < after.len() implies below()(
        #[trigger] after[i],
        #[trigger] after[j],
    ) by {
        let p = if i < at {
            i
        } else {
            i - 1
        };
        let q = if j < at {
            j
        } else {
            j - 1
        };
        if i != at && j != at {
            assert(below()(before[p], before[q]));
        } else if i == at && j > at + 1 {
            assert(below()(before[at], before[q]));
        }
    }
    assert forall|x: u32| #[trigger] after.contains(x) <==> (before.contains(x) || x == id) by {
        if before.contains(x) {
            let k = choose|k: int| 0 <= k < before.len() && before[k] == x;
            assert(after[if k < at {
                k
            } else {
                k + 1
            }] == x);
        }
        if x == id {
            assert(after[at] == x);
        }
        if after.contains(x) && x != id {
            let k = choose|k: int| 0 <= k < after.len() && after[k] == x;
            assert(before[if k < at {
                k
            } else {
                k - 1
            }] == x);
        }
    }
}

/// Adds a number to a sorted list, unless it is there.
pub fn insert_id(list: &mut Vec<u32>, id: u32)
    requires
        ordered(old(list)@, below()),
    ensures
        ordered(final(list)@, below()),
        forall|x: u32| #[trigger] final(list)@.contains(x) <==> (old(list)@.contains(x) || x == id),
        final(list)@.len() <= old(list)@.len() + 1,
{
    let mut at: usize = 0;
    while at < list.len() && list[at] < id
        invariant
            at <= list@.len(),
            list@ == old(list)@,
            forall|k: int| 0 <= k < at ==> #[trigger] list@[k] < id,
        decreases list@.len() - at,
    {
        at = at + 1;
    }
    let ghost before = list@;
    if at < list.len() && list[at] == id {
        assert(before[at as int] == id);
        return;
    }
    proof {
        inserted(before, at as int, id);
    }
    list.insert(at, id);
}

/// Sorts numbers and keeps each once.
pub fn sort_ids(ids: &[u32]) -> (r: Vec<u32>)
    ensures
        sorted_of(r@, ids@),
        r@ == sorted_ids(ids@),
        r@.len() <= ids@.len(),
{
    let mut out: Vec<u32> = Vec::new();
    for i in 0..ids.len()
        invariant
            ordered(out@, below()),
            out@.len() <= i,
            forall|x: u32| #[trigger] out@.contains(x) <==> ids@.take(i as int).contains(x),
    {
        let ghost before = out@;
        insert_id(&mut out, ids[i]);
        proof {
            let a = ids@.take(i as int);
            assert(ids@.take(i + 1) =~= a.push(ids@[i as int]));
            assert forall|x: u32| #[trigger] out@.contains(x) <==> ids@.take(i + 1).contains(x) by {
                assert(before.contains(x) <==> a.contains(x));
                pushed(a, ids@[i as int], x);
            }
        }
    }
    assert(ids@.take(ids@.len() as int) =~= ids@);
    proof {
        sorted_ids_once(out@, ids@);
    }
    out
}

/// What a list holds after one more member.
pub proof fn pushed<T>(s: Seq<T>, y: T, x: T)
    ensures
        s.push(y).contains(x) <==> (s.contains(x) || x == y),
{
    if s.contains(x) {
        let k = choose|k: int| 0 <= k < s.len() && s[k] == x;
        assert(s.push(y)[k] == x);
    }
    if x == y {
        assert(s.push(y)[s.len() as int] == x);
    }
    if s.push(y).contains(x) {
        let k = choose|k: int| 0 <= k < s.push(y).len() && s.push(y)[k] == x;
        if k < s.len() {
            assert(s[k] == x);
        }
    }
}

/// Gathering over some of the items, each by its place among those and itself, is
/// gathering over the list of those.
pub proof fn gather_chosen<E, T>(
    items: Seq<E>,
    n: int,
    p: spec_fn(int) -> bool,
    h: spec_fn(int, E) -> Seq<T>,
)
    requires
        0 <= n <= items.len(),
    ensures
        ({
            let own = gather(
                n,
                |i: int|
                    if p(i) {
                        seq![items[i]]
                    } else {
                        Seq::empty()
                    },
            );
            &&& own.len() == count_where(n, p)
            &&& gather(
                n,
                |i: int|
                    if p(i) {
                        h(count_where(i, p) as int, items[i])
                    } else {
                        Seq::empty()
                    },
            ) == gather(own.len() as int, |j: int| h(j, own[j]))
            &&& forall|i: int|
                0 <= i < n && #[trigger] p(i) ==> count_where(i, p) < own.len()
                    && own[count_where(i, p) as int] == items[i]
        }),
    decreases n,
{
    let f = |i: int|
        if p(i) {
            seq![items[i]]
        } else {
            Seq::empty()
        };
    let g = |i: int|
        if p(i) {
            h(count_where(i, p) as int, items[i])
        } else {
            Seq::empty()
        };
    let own = gather(n, f);
    if n > 0 {
        gather_chosen(items, n - 1, p, h);
        let front = gather(n - 1, f);
        let a = |j: int| h(j, front[j]);
        let b = |j: int| h(j, own[j]);
        if p(n - 1) {
            assert(own =~= front.push(items[n - 1]));
        } else {
            assert(own =~= front);
        }
        gather_same(front.len() as int, a, b);
        assert forall|i: int| 0 <= i < n && #[trigger] p(i) implies count_where(i, p) < own.len()
            && own[count_where(i, p) as int] == items[i] by {
            if i < n - 1 {
                assert(front[count_where(i, p) as int] == items[i]);
            }
        }
    }
}

/// The position that is the `q`th to meet the condition.
pub proof fn nth_place(n: int, p: spec_fn(int) -> bool, q: int) -> (at: int)
    requires
        0 <= q < count_where(n, p),
    ensures
        0 <= at < n,
        p(at),
        count_where(at, p) == q,
    decreases n,
{
    if p(n - 1) && count_where(n - 1, p) == q {
        n - 1
    } else {
        nth_place(n - 1, p, q)
    }
}

/// The place of a number in a list.
pub fn find_id(list: &[u32], id: u32) -> (r: Option<usize>)
    ensures
        r is Some <==> list@.contains(id),
        r matches Some(p) ==> p < list@.len() && list@[p as int] == id && forall|k: int|
            0 <= k < p ==> #[trigger] list@[k] != id,
{
    for i in 0..list.len()
        invariant
            forall|k: int| 0 <= k < i ==> #[trigger] list@[k] != id,
    {
        if list[i] == id {
            return Some(i);
        }
    }
    None
}

} // verus!
