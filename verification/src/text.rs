//! Names: ordering, searching and building the strings that label devices,
//! cities and operators.
use crate::lists::{ordered_once, pushed};
use vstd::prelude::*;
use vstd::string::*;

verus! {

broadcast use group_string_axioms;

/// `a` comes before `b` in the order of their code points, position by
/// position, a proper prefix first.
pub open spec fn lex_less(a: Seq<char>, b: Seq<char>) -> bool
    decreases a.len(),
{
    if b.len() == 0 {
        false
    } else if a.len() == 0 {
        true
    } else if a[0] != b[0] {
        (a[0] as int) < (b[0] as int)
    } else {
        lex_less(a.drop_first(), b.drop_first())
    }
}

/// No name comes before itself.
pub proof fn lex_less_irreflexive(a: Seq<char>)
    ensures
        !lex_less(a, a),
    decreases a.len(),
{
    if a.len() > 0 {
        lex_less_irreflexive(a.drop_first());
    }
}

/// The order of names is transitive.
pub proof fn lex_less_transitive(a: Seq<char>, b: Seq<char>, c: Seq<char>)
    requires
        lex_less(a, b),
        lex_less(b, c),
    ensures
        lex_less(a, c),
    decreases a.len(),
{
    if a.len() > 0 && b.len() > 0 && c.len() > 0 && a[0] == b[0] && b[0] == c[0] {
        lex_less_transitive(a.drop_first(), b.drop_first(), c.drop_first());
    }
}

/// Of two different names, one comes before the other.
pub proof fn lex_less_total(a: Seq<char>, b: Seq<char>)
    ensures
        lex_less(a, b) || lex_less(b, a) || a == b,
    decreases a.len(),
{
    if a.len() > 0 && b.len() > 0 && a[0] == b[0] {
        lex_less_total(a.drop_first(), b.drop_first());
        if a.drop_first() == b.drop_first() {
            assert(a =~= seq![a[0]] + a.drop_first());
            assert(b =~= seq![b[0]] + b.drop_first());
        }
    } else if a.len() == 0 && b.len() == 0 {
        assert(a =~= b);
    }
}

/// Whether `a` comes before `b`.
pub fn less(a: &str, b: &str) -> (r: bool)
    ensures
        r == lex_less(a@, b@),
{
    let mut left = a.chars();
    let mut right = b.chars();
    loop
        invariant
            lex_less(a@, b@) == lex_less(vstd::std_specs::iter::IteratorSpec::remaining(&left), vstd::std_specs::iter::IteratorSpec::remaining(&right)),
            vstd::std_specs::iter::IteratorSpec::obeys_prophetic_iter_laws(&left),
            vstd::std_specs::iter::IteratorSpec::decrease(&left) is Some,
            vstd::std_specs::iter::IteratorSpec::obeys_prophetic_iter_laws(&right),
        decreases vstd::std_specs::iter::IteratorSpec::decrease(&left)->0,
    {
        let x = left.next();
        let y = right.next();
        match (x, y) {
            (_, None) => {
                return false;
            },
            (None, Some(_)) => {
                return true;
            },
            (Some(p), Some(q)) => {
                if p != q {
                    return p < q;
                }
            },
        }
    }
}

/// Whether two names are the same.
pub fn same(a: &str, b: &str) -> (r: bool)
    ensures
        r == (a@ == b@),
{
    let mut left = a.chars();
    let mut right = b.chars();
    let ghost mut done: int = 0;
    loop
        invariant
            0 <= done <= a@.len(),
            done <= b@.len(),
            vstd::std_specs::iter::IteratorSpec::remaining(&left) == a@.skip(done),
            vstd::std_specs::iter::IteratorSpec::remaining(&right) == b@.skip(done),
            a@.take(done) == b@.take(done),
            vstd::std_specs::iter::IteratorSpec::obeys_prophetic_iter_laws(&left),
            vstd::std_specs::iter::IteratorSpec::decrease(&left) is Some,
            vstd::std_specs::iter::IteratorSpec::obeys_prophetic_iter_laws(&right),
        decreases vstd::std_specs::iter::IteratorSpec::decrease(&left)->0,
    {
        let x = left.next();
        let y = right.next();
        match (x, y) {
            (None, None) => {
                assert(a@.take(done) =~= a@);
                assert(b@.take(done) =~= b@);
                return true;
            },
            (Some(p), Some(q)) => {
                if p != q {
                    assert(a@[done] != b@[done]);
                    return false;
                }
                proof {
                    assert(a@.take(done + 1) =~= a@.take(done).push(p));
                    assert(b@.take(done + 1) =~= b@.take(done).push(q));
                    assert(a@.skip(done).drop_first() =~= a@.skip(done + 1));
                    assert(b@.skip(done).drop_first() =~= b@.skip(done + 1));
                    done = done + 1;
                }
            },
            _ => {
                return false;
            },
        }
    }
}

/// `s` begins with `prefix`.
pub open spec fn begins_with(s: Seq<char>, prefix: Seq<char>) -> bool {
    prefix.len() <= s.len() && s.take(prefix.len() as int) == prefix
}

/// `s` ends with `suffix`.
pub open spec fn finishes_with(s: Seq<char>, suffix: Seq<char>) -> bool {
    suffix.len() <= s.len() && s.skip(s.len() - suffix.len()) == suffix
}

/// The characters of `s`, one by one.
pub fn char_list(s: &str) -> (r: Vec<char>)
    ensures
        r@ == s@,
{
    let mut out: Vec<char> = Vec::new();
    for c in it: s.chars()
        invariant
            out@ == s@.take(it.index()),
            it.seq() == s@,
    {
        assert(s@.take(it.index() + 1) =~= s@.take(it.index()).push(c));
        out.push(c);
    }
    assert(s@.take(s@.len() as int) =~= s@);
    out
}

/// Whether `s` begins with `prefix`.
pub fn starts_with(s: &str, prefix: &str) -> (r: bool)
    ensures
        r == begins_with(s@, prefix@),
{
    let whole = char_list(s);
    let head = char_list(prefix);
    if head.len() > whole.len() {
        return false;
    }
    for i in 0..head.len()
        invariant
            whole@ == s@,
            head@ == prefix@,
            head@.len() <= whole@.len(),
            forall|k: int| 0 <= k < i ==> whole@[k] == head@[k],
    {
        if whole[i] != head[i] {
            assert(s@.take(prefix@.len() as int)[i as int] != prefix@[i as int]);
            return false;
        }
    }
    assert(s@.take(prefix@.len() as int) =~= prefix@);
    true
}

/// Whether `s` ends with `suffix`.
pub fn ends_with(s: &str, suffix: &str) -> (r: bool)
    ensures
        r == finishes_with(s@, suffix@),
{
    let whole = char_list(s);
    let tail = char_list(suffix);
    if tail.len() > whole.len() {
        return false;
    }
    let start: usize = whole.len() - tail.len();
    for i in 0..tail.len()
        invariant
            whole@ == s@,
            tail@ == suffix@,
            tail@.len() <= whole@.len(),
            start == whole@.len() - tail@.len(),
            whole@.len() <= usize::MAX,
            forall|k: int| 0 <= k < i ==> whole@[start + k] == tail@[k],
    {
        if whole[start + i] != tail[i] {
            assert(s@.skip(start as int)[i as int] != suffix@[i as int]);
            return false;
        }
    }
    assert(s@.skip(start as int) =~= suffix@);
    true
}

/// `s` holds one of the characters `0` to `9`.
pub open spec fn holds_digit(s: Seq<char>) -> bool {
    exists|i: int| 0 <= i < s.len() && '0' <= #[trigger] s[i] <= '9'
}

/// Whether `s` holds a digit.
pub fn has_digit(s: &str) -> (r: bool)
    ensures
        r == holds_digit(s@),
{
    let list = char_list(s);
    for i in 0..list.len()
        invariant
            list@ == s@,
            forall|k: int| 0 <= k < i ==> !('0' <= #[trigger] s@[k] <= '9'),
    {
        if '0' <= list[i] && list[i] <= '9' {
            return true;
        }
    }
    false
}

/// `a` followed by `b`.
pub fn join(a: &str, b: &str) -> (r: String)
    ensures
        r@ == a@ + b@,
{
    let mut out = a.to_owned();
    out.append(b);
    out
}

/// The digit `d` as a character.
pub open spec fn digit_char(d: int) -> char {
    (48 + d) as char
}

/// The decimal numeral of `n`.
pub open spec fn numeral(n: nat) -> Seq<char>
    decreases n,
{
    if n < 10 {
        seq![digit_char(n as int)]
    } else {
        numeral(n / 10).push(digit_char((n % 10) as int))
    }
}

/// Different numbers have different numerals.
pub proof fn numerals_differ(a: nat, b: nat)
    requires
        numeral(a) == numeral(b),
    ensures
        a == b,
    decreases a,
{
    assert(numeral(a).last() == digit_char((a % 10) as int));
    assert(numeral(b).last() == digit_char((b % 10) as int));
    assert(a % 10 == b % 10);
    if a < 10 {
        assert(numeral(a).len() == 1);
        if b >= 10 {
            numeral_filled(b / 10);
        }
    } else if b < 10 {
        numeral_filled(a / 10);
    } else {
        assert(numeral(a).drop_last() =~= numeral(a / 10));
        assert(numeral(b).drop_last() =~= numeral(b / 10));
        numerals_differ(a / 10, b / 10);
    }
}

/// Every number has a digit.
proof fn numeral_filled(n: nat)
    ensures
        numeral(n).len() > 0,
{
}

/// The numeral of one digit.
fn digit_text(d: u64) -> (r: &'static str)
    requires
        d < 10,
    ensures
        r@ == seq![digit_char(d as int)],
{
    proof {
        reveal_strlit("0");
        reveal_strlit("1");
        reveal_strlit("2");
        reveal_strlit("3");
        reveal_strlit("4");
        reveal_strlit("5");
        reveal_strlit("6");
        reveal_strlit("7");
        reveal_strlit("8");
        reveal_strlit("9");
    }
    let r = if d == 0 {
        "0"
    } else if d == 1 {
        "1"
    } else if d == 2 {
        "2"
    } else if d == 3 {
        "3"
    } else if d == 4 {
        "4"
    } else if d == 5 {
        "5"
    } else if d == 6 {
        "6"
    } else if d == 7 {
        "7"
    } else if d == 8 {
        "8"
    } else {
        "9"
    };
    assert(r@ =~= seq![digit_char(d as int)]);
    r
}

/// The decimal numeral of `n`.
pub fn decimal(n: u64) -> (r: String)
    ensures
        r@ == numeral(n as nat),
    decreases n,
{
    if n < 10 {
        digit_text(n).to_owned()
    } else {
        let mut head = decimal(n / 10);
        head.append(digit_text(n % 10));
        assert(numeral(n as nat) =~= numeral((n / 10) as nat) + seq![digit_char((n % 10) as int)]);
        head
    }
}

/// The views of the members of a sequence.
pub open spec fn views<T: View>(s: Seq<T>) -> Seq<T::V> {
    Seq::new(s.len(), |i: int| s[i]@)
}

/// The views of a list with one more member.
pub proof fn views_push<T: View>(s: Seq<T>, x: T)
    ensures
        views(s.push(x)) == views(s).push(x@),
{
    assert(views(s.push(x)) =~= views(s).push(x@));
}

/// Every name comes before those that follow it.
pub open spec fn strictly_sorted(s: Seq<Seq<char>>) -> bool {
    forall|i: int, j: int| 0 <= i < j < s.len() ==> lex_less(#[trigger] s[i], #[trigger] s[j])
}

/// `r` lists each name of `names` once, in order.
pub open spec fn sorted_names(r: Seq<Seq<char>>, names: Seq<Seq<char>>) -> bool {
    &&& strictly_sorted(r)
    &&& forall|x: Seq<char>| #[trigger] r.contains(x) <==> names.contains(x)
}

/// The names of `names`, each once, in order.
pub open spec fn sorted_list(names: Seq<Seq<char>>) -> Seq<Seq<char>> {
    choose|r: Seq<Seq<char>>| sorted_names(r, names)
}

/// There is one sorted list of given names.
pub proof fn sorted_list_once(r: Seq<Seq<char>>, names: Seq<Seq<char>>)
    requires
        sorted_names(r, names),
    ensures
        r == sorted_list(names),
{
    let c = sorted_list(names);
    assert(sorted_names(c, names));
    assert forall|x: Seq<char>| #[trigger] r.contains(x) <==> c.contains(x) by {
        assert(r.contains(x) <==> names.contains(x));
    }
    let less = |a: Seq<char>, b: Seq<char>| lex_less(a, b);
    assert forall|a: Seq<char>| !#[trigger] less(a, a) by {
        lex_less_irreflexive(a);
    }
    assert forall|a: Seq<char>, b: Seq<char>, c: Seq<char>| #[trigger]
        less(a, b) && #[trigger] less(b, c) implies less(a, c) by {
        lex_less_transitive(a, b, c);
    }
    ordered_once(r, c, less);
}

/// Where a name belongs in a sorted list.
spec fn slot_of(s: Seq<Seq<char>>, name: Seq<char>) -> int
    decreases s.len(),
{
    if s.len() == 0 || lex_less(s.last(), name) {
        s.len() as int
    } else {
        slot_of(s.drop_last(), name)
    }
}

/// The names before the slot come before the name, those after it do not.
proof fn slot_fits(s: Seq<Seq<char>>, name: Seq<char>)
    requires
        strictly_sorted(s),
    ensures
        0 <= slot_of(s, name) <= s.len(),
        forall|k: int| 0 <= k < slot_of(s, name) ==> lex_less(#[trigger] s[k], name),
        forall|k: int| slot_of(s, name) <= k < s.len() ==> !lex_less(#[trigger] s[k], name),
    decreases s.len(),
{
    if s.len() > 0 {
        let front = s.drop_last();
        if lex_less(s.last(), name) {
            assert forall|k: int| 0 <= k < s.len() implies lex_less(#[trigger] s[k], name) by {
                if k < s.len() - 1 {
                    assert(lex_less(s[k], s[s.len() - 1]));
                    lex_less_transitive(s[k], s[s.len() - 1], name);
                }
            }
        } else {
            assert forall|i: int, j: int| 0 <= i < j < front.len() implies lex_less(
                #[trigger] front[i],
                #[trigger] front[j],
            ) by {
                assert(lex_less(s[i], s[j]));
            }
            slot_fits(front, name);
            assert forall|k: int| 0 <= k < slot_of(s, name) implies lex_less(
                #[trigger] s[k],
                name,
            ) by {
                assert(front[k] == s[k]);
            }
            assert forall|k: int| slot_of(s, name) <= k < s.len() implies !lex_less(
                #[trigger] s[k],
                name,
            ) by {
                if k < front.len() {
                    assert(front[k] == s[k]);
                }
            }
        }
    }
}

/// A list stays sorted when a name is put where it belongs.
proof fn name_inserted(before: Seq<Seq<char>>, at: int, name: Seq<char>)
    requires
        strictly_sorted(before),
        0 <= at <= before.len(),
        forall|k: int| 0 <= k < at ==> lex_less(#[trigger] before[k], name),
        at < before.len() ==> lex_less(name, before[at]),
    ensures
        strictly_sorted(before.insert(at, name)),
        forall|x: Seq<char>| #[trigger]
            before.insert(at, name).contains(x) <==> (before.contains(x) || x == name),
{
    let after = before.insert(at, name);
    assert forall|i: int, j: int| 0 <= i < j < after.len() implies lex_less(
        #[trigger] after[i],
        #[trigger] after[j],
    ) by {
        if i == at && j > at {
            if j > at + 1 {
                assert(lex_less(before[at], before[j - 1]));
                lex_less_transitive(name, before[at], before[j - 1]);
            }
        } else if j != at {
            let p = if i < at {
                i
            } else {
                i - 1
            };
            let q = if j < at {
                j
            } else {
                j - 1
            };
            assert(lex_less(before[p], before[q]));
        }
    }
    assert forall|x: Seq<char>| #[trigger] after.contains(x) <==> (before.contains(x) || x
        == name) by {
        if before.contains(x) {
            let k = choose|k: int| 0 <= k < before.len() && before[k] == x;
            if k < at {
                assert(after[k] == x);
            } else {
                assert(after[k + 1] == x);
            }
        }
        if x == name {
            assert(after[at] == x);
        }
        if after.contains(x) {
            let k = choose|k: int| 0 <= k < after.len() && after[k] == x;
            if k < at {
                assert(before[k] == x);
            } else if k > at {
                assert(before[k - 1] == x);
            }
        }
    }
}

/// The sorted list of given names is one.
pub proof fn sorted_list_exists(names: Seq<Seq<char>>)
    ensures
        sorted_names(sorted_list(names), names),
    decreases names.len(),
{
    if names.len() == 0 {
        assert(sorted_names(Seq::<Seq<char>>::empty(), names));
    } else {
        let front = names.drop_last();
        let name = names.last();
        sorted_list_exists(front);
        let r = sorted_list(front);
        assert(names =~= front.push(name));
        let at = slot_of(r, name);
        slot_fits(r, name);
        let s = if at < r.len() && r[at] == name {
            r
        } else {
            r.insert(at, name)
        };
        if at < r.len() && r[at] == name {
            assert(r.contains(name));
        } else {
            if at < r.len() {
                lex_less_total(r[at], name);
            }
            name_inserted(r, at, name);
        }
        assert forall|x: Seq<char>| #[trigger] s.contains(x) <==> names.contains(x) by {
            pushed(front, name, x);
            assert(r.contains(x) <==> front.contains(x));
        }
        assert(sorted_names(s, names));
    }
}

/// Adds `name` to a sorted list of names, unless it is there.
pub fn insert_name(list: &mut Vec<String>, name: &String)
    requires
        strictly_sorted(views(old(list)@)),
    ensures
        strictly_sorted(views(final(list)@)),
        forall|x: Seq<char>| #[trigger]
            views(final(list)@).contains(x) <==> (views(old(list)@).contains(x) || x == name@),
{
    let ghost names = views(list@);
    let mut at: usize = 0;
    let mut end: usize = list.len();
    while at < end
        invariant
            at <= end <= list@.len(),
            list@ == old(list)@,
            names == views(list@),
            strictly_sorted(names),
            forall|k: int| 0 <= k < at ==> lex_less(#[trigger] names[k], name@),
            forall|k: int| end <= k < names.len() ==> !lex_less(#[trigger] names[k], name@),
        decreases end - at,
    {
        let middle: usize = at + (end - at) / 2;
        assert(names[middle as int] == list@[middle as int]@);
        if less(list[middle].as_str(), name.as_str()) {
            assert forall|k: int| 0 <= k < middle + 1 implies lex_less(
                #[trigger] names[k],
                name@,
            ) by {
                if k < middle {
                    assert(lex_less(names[k], names[middle as int]));
                    lex_less_transitive(names[k], names[middle as int], name@);
                }
            }
            at = middle + 1;
        } else {
            assert forall|k: int| middle <= k < names.len() implies !lex_less(
                #[trigger] names[k],
                name@,
            ) by {
                if k > middle && lex_less(names[k], name@) {
                    assert(lex_less(names[middle as int], names[k]));
                    lex_less_transitive(names[middle as int], names[k], name@);
                }
            }
            end = middle;
        }
    }
    let ghost before = views(list@);
    if at < list.len() && list[at] == *name {
        assert(before[at as int] == name@);
        return;
    }
    proof {
        if at < before.len() {
            lex_less_total(before[at as int], name@);
        }
        name_inserted(before, at as int, name@);
    }
    list.insert(at, name.clone());
    assert(views(list@) =~= before.insert(at as int, name@));
}

/// The names of `names`, each once, in order.
pub fn sorted_unique(names: &Vec<String>) -> (r: Vec<String>)
    ensures
        sorted_names(views(r@), views(names@)),
        views(r@) == sorted_list(views(names@)),
{
    let mut out: Vec<String> = Vec::new();
    for i in 0..names.len()
        invariant
            strictly_sorted(views(out@)),
            forall|x: Seq<char>| #[trigger]
                views(out@).contains(x) <==> views(names@).take(i as int).contains(x),
    {
        let ghost before = views(out@);
        insert_name(&mut out, &names[i]);
        proof {
            let all = views(names@);
            assert(all.take(i + 1) =~= all.take(i as int).push(all[i as int]));
            assert forall|x: Seq<char>| #[trigger]
                views(out@).contains(x) <==> all.take(i + 1).contains(x) by {
                assert(before.contains(x) <==> all.take(i as int).contains(x));
                pushed(all.take(i as int), all[i as int], x);
            }
        }
    }
    assert(views(names@).take(names@.len() as int) =~= views(names@));
    proof {
        sorted_list_once(views(out@), views(names@));
    }
    out
}

/// `name` stands at `p` in `names`, and nowhere before.
pub open spec fn first_at(names: Seq<Seq<char>>, name: Seq<char>, p: int) -> bool {
    &&& 0 <= p < names.len()
    &&& names[p] == name
    &&& forall|k: int| 0 <= k < p ==> #[trigger] names[k] != name
}

/// The first place of `name` in `names`, which hold it.
pub open spec fn place(names: Seq<Seq<char>>, name: Seq<char>) -> int
    recommends
        names.contains(name),
{
    choose|p: int| first_at(names, name, p)
}

/// A name has one first place.
pub proof fn first_at_unique(names: Seq<Seq<char>>, name: Seq<char>, p: int)
    requires
        first_at(names, name, p),
    ensures
        place(names, name) == p,
        names.contains(name),
{
    let q = place(names, name);
    assert(first_at(names, name, q));
    if q < p {
        assert(names[q] != name);
    }
    if p < q {
        assert(names[p] != name);
    }
}

/// A name that is there has a first place.
pub proof fn place_found(names: Seq<Seq<char>>, name: Seq<char>)
    requires
        names.contains(name),
    ensures
        first_at(names, name, place(names, name)),
{
    let at = choose|at: int| 0 <= at < names.len() && names[at] == name;
    place_before(names, name, at);
}

proof fn place_before(names: Seq<Seq<char>>, name: Seq<char>, at: int)
    requires
        0 <= at < names.len(),
        names[at] == name,
    ensures
        first_at(names, name, place(names, name)),
    decreases at,
{
    if exists|k: int| 0 <= k < at && #[trigger] names[k] == name {
        let k = choose|k: int| 0 <= k < at && #[trigger] names[k] == name;
        place_before(names, name, k);
    } else {
        assert(first_at(names, name, at));
    }
}

/// The first place of `name` in `names`, if it is there.
pub fn position(names: &[String], name: &str) -> (r: Option<usize>)
    ensures
        r is Some <==> views(names@).contains(name@),
        r matches Some(p) ==> first_at(views(names@), name@, p as int) && place(
            views(names@),
            name@,
        ) == p,
{
    for i in 0..names.len()
        invariant
            forall|k: int| 0 <= k < i ==> #[trigger] views(names@)[k] != name@,
    {
        if same(names[i].as_str(), name) {
            proof {
                first_at_unique(views(names@), name@, i as int);
            }
            return Some(i);
        }
    }
    None
}

} // verus!
