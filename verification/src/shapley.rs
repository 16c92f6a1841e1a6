//! The operators of a network as the players of a game: coalitions as bit masks,
//! what is to be solved for them, and how the values follow from what they are worth.
use crate::constants::{MAX_OPERATORS, OP_PRIVATE, OP_PUBLIC};
use crate::error::{Fault, ShapleyError};
use crate::games::{
    chance, expected_value, fact, fact_positive, is_member, is_subset, leaving, power,
    shapley_value, size_bounds, size_of, subset_bounds, sum, sum_reversed, sum_same, sum_split,
    sum_zero, weighed_value, weight_of, weight_real,
};
use crate::lists::{gather, gather_skips};
use crate::quantity::Real;
use crate::solver::belongs;
use crate::text::{place, position, same, sorted_list, sorted_unique, views};
use crate::types::{Device, DeviceRow};
use std::collections::HashMap;
use vstd::arithmetic::power2::{lemma_pow2_pos, lemma_pow2_unfold, pow2};
use vstd::prelude::*;
use vstd::std_specs::hash::*;

verus! {

broadcast use group_hash_axioms;

/// The bit of the operators that are in every coalition.
pub const ALWAYS_BIT: u32 = 0x8000_0000;

/// An operator that is a player: not the public network, and not the devices that take
/// part in every coalition.
pub open spec fn is_player(operator: Seq<char>) -> bool {
    operator != OP_PRIVATE@ && operator != OP_PUBLIC@
}

/// The players of a network, in order.
pub open spec fn players_of(devices: Seq<DeviceRow>) -> Seq<Seq<char>> {
    sorted_list(
        gather(
            devices.len() as int,
            |i: int|
                if is_player(devices[i].operator) {
                    seq![devices[i].operator]
                } else {
                    Seq::empty()
                },
        ),
    )
}

/// Lists the players of a network.
pub fn find_players(devices: &[Device]) -> (r: Vec<String>)
    ensures
        views(r@) == players_of(views(devices@)),
{
    let ghost rows = views(devices@);
    let ghost f = |i: int|
        if is_player(rows[i].operator) {
            seq![rows[i].operator]
        } else {
            Seq::empty()
        };
    let mut names: Vec<String> = Vec::new();
    assert(views(names@) =~= gather(0, f));
    for i in 0..devices.len()
        invariant
            rows == views(devices@),
            f == (|i: int|
                if is_player(rows[i].operator) {
                    seq![rows[i].operator]
                } else {
                    Seq::empty()
                }),
            views(names@) == gather(i as int, f),
    {
        assert(rows[i as int] == devices@[i as int]@);
        let ghost before = views(names@);
        let operator = devices[i].operator.as_str();
        if !same(operator, OP_PRIVATE) && !same(operator, OP_PUBLIC) {
            names.push(devices[i].operator.clone());
        }
        assert(views(names@) =~= before + f(i as int));
    }
    sorted_unique(&names)
}

/// Lists the players of a network and refuses more than can be enumerated.
pub fn enumerable_players(devices: &[Device]) -> (r: Result<Vec<String>, ShapleyError>)
    ensures
        r is Ok <==> players_of(views(devices@)).len() <= MAX_OPERATORS,
        r matches Ok(names) ==> views(names@) == players_of(views(devices@)),
        r matches Err(e) ==> e@ == (Fault::TooManyOperators {
            count: players_of(views(devices@)).len() as int,
            limit: MAX_OPERATORS as int,
        }),
{
    let names = find_players(devices);
    assert(names@.len() == views(names@).len());
    if names.len() > MAX_OPERATORS {
        return Err(ShapleyError::TooManyOperators { count: names.len(), limit: MAX_OPERATORS });
    }
    Ok(names)
}

/// The bit of the player at place `k`.
pub open spec fn player_bit(k: int) -> u32 {
    1u32 << (k as u32)
}

/// The bits of an operator: the common one of those in every coalition, that of its
/// place among the players, or none.
pub open spec fn mask_of(operator: Seq<char>, players: Seq<Seq<char>>) -> u32 {
    if operator == OP_PUBLIC@ || operator == OP_PRIVATE@ || operator.len() == 0 {
        ALWAYS_BIT
    } else if players.contains(operator) {
        player_bit(place(players, operator))
    } else {
        0
    }
}

/// Finds the bits of an operator.
pub fn operator_mask(operator: &str, players: &[String]) -> (r: u32)
    requires
        players@.len() <= 32,
    ensures
        r == mask_of(operator@, views(players@)),
{
    proof {
        reveal_strlit("");
        if operator@.len() == 0 {
            assert(operator@ =~= ""@);
        }
    }
    if same(operator, OP_PUBLIC) || same(operator, OP_PRIVATE) || same(operator, "") {
        return ALWAYS_BIT;
    }
    match position(players, operator) {
        Some(k) => {
            assert(views(players@).len() == players@.len());
            1u32 << (k as u32)
        },
        None => 0,
    }
}

/// Finds the bits of several operators.
pub fn operator_masks(operators: &[String], players: &[String]) -> (r: Vec<u32>)
    requires
        players@.len() <= 32,
    ensures
        r@ == views(operators@).map_values(|op: Seq<char>| mask_of(op, views(players@))),
{
    let mut out: Vec<u32> = Vec::new();
    for i in 0..operators.len()
        invariant
            players@.len() <= 32,
            out@.len() == i,
            forall|k: int|
                0 <= k < i ==> #[trigger] out@[k] == mask_of(operators@[k]@, views(players@)),
    {
        out.push(operator_mask(operators[i].as_str(), players));
    }
    assert(out@ =~= views(operators@).map_values(|op: Seq<char>| mask_of(op, views(players@))));
    out
}

/// The bits of the players that changed.
pub open spec fn gate_of(changed: Seq<Seq<char>>, players: Seq<Seq<char>>) -> u32
    decreases changed.len(),
{
    if changed.len() == 0 {
        0
    } else {
        gate_of(changed.drop_last(), players) | (if players.contains(changed.last()) {
            player_bit(place(players, changed.last()))
        } else {
            0
        })
    }
}

/// Finds the bits of the players that changed.
pub fn reuse_gate(changed_operators: &[String], players: &[String]) -> (r: u32)
    requires
        players@.len() <= 32,
    ensures
        r == gate_of(views(changed_operators@), views(players@)),
{
    let ghost names = views(changed_operators@);
    let mut gate: u32 = 0;
    for i in 0..changed_operators.len()
        invariant
            players@.len() <= 32,
            names == views(changed_operators@),
            gate == gate_of(names.take(i as int), views(players@)),
    {
        assert(names.take(i + 1).drop_last() =~= names.take(i as int));
        assert(names.take(i + 1).last() == changed_operators@[i as int]@);
        assert(views(players@).len() == players@.len());
        match position(players, changed_operators[i].as_str()) {
            Some(k) => {
                gate = gate | (1u32 << (k as u32));
            },
            None => {
                assert(gate | 0 == gate) by (bit_vector);
            },
        }
    }
    assert(names.take(changed_operators@.len() as int) =~= names);
    gate
}

/// The mask of the coalition with this number: its players and those always in.
pub open spec fn coalition_mask(index: u32) -> u32 {
    index | ALWAYS_BIT
}

/// The value of a coalition from an earlier run, where it can be taken over: the
/// coalition holds no player that changed, and the run has it.
pub open spec fn carried_over(
    seed: Map<u32, Option<Real>>,
    gate: u32,
    index: u32,
) -> Option<Option<Real>> {
    if index & gate == 0 && seed.contains_key(coalition_mask(index)) {
        Some(seed[coalition_mask(index)])
    } else {
        None
    }
}

/// How many coalitions the players can form.
pub fn coalition_count(n_operators: usize) -> (r: usize)
    requires
        n_operators <= MAX_OPERATORS,
    ensures
        r == pow2(n_operators as nat),
        r <= 0x10_0000,
{
    let mut p: usize = 1;
    proof {
        vstd::arithmetic::power2::lemma2_to64();
    }
    for k in 0..n_operators
        invariant
            n_operators <= 20,
            p == pow2(k as nat),
            p <= 0x10_0000,
    {
        proof {
            vstd::arithmetic::power2::lemma2_to64();
            lemma_pow2_unfold((k + 1) as nat);
            vstd::arithmetic::power2::lemma_pow2_strictly_increases(k as nat, 20);
            if k + 1 < 20 {
                vstd::arithmetic::power2::lemma_pow2_strictly_increases((k + 1) as nat, 20);
            }
        }
        p = p * 2;
    }
    p
}

/// For each coalition the value taken over from an earlier run, or nothing where it is
/// to be solved.
pub fn exact_plan(n_operators: usize, seed: &HashMap<u32, Option<Real>>, gate: u32) -> (r: Vec<
    Option<Option<Real>>,
>)
    requires
        n_operators <= MAX_OPERATORS,
    ensures
        r@ == Seq::new(
            pow2(n_operators as nat),
            |index: int| carried_over(seed@, gate, index as u32),
        ),
{
    let n: usize = coalition_count(n_operators);
    let mut out: Vec<Option<Option<Real>>> = Vec::new();
    for i in 0..n
        invariant
            n == pow2(n_operators as nat),
            n <= 0x10_0000,
            out@ == Seq::new(i as nat, |index: int| carried_over(seed@, gate, index as u32)),
    {
        let index: u32 = i as u32;
        let mut found: Option<Option<Real>> = None;
        if index & gate == 0 {
            match seed.get(&(index | ALWAYS_BIT)) {
                Some(value) => {
                    found = Some(*value);
                },
                None => {},
            }
        }
        out.push(found);
        assert(out@ =~= Seq::new(
            (i + 1) as nat,
            |index: int| carried_over(seed@, gate, index as u32),
        ));
    }
    out
}

/// Counts the operators of a coalition.
fn count_members(s: u32) -> (r: u32)
    ensures
        r == size_of(s as int),
        r <= s,
    decreases s,
{
    if s == 0 {
        return 0;
    }
    let rest: u32 = count_members(s / 2);
    s % 2 + rest
}

/// The product of the first `n` positive numbers.
pub fn factorial(n: usize) -> (r: u64)
    requires
        n <= 20,
    ensures
        r == fact(n as int),
    decreases n,
{
    proof {
        fact_of_20(n as int);
    }
    if n == 0 {
        1
    } else {
        let rest: u64 = factorial(n - 1);
        proof {
            let f = fact(n - 1) as int;
            assert(n * f == f * n) by (nonlinear_arith);
        }
        (n as u64) * rest
    }
}

/// Factorials up to that of 20 fit.
proof fn fact_of_20(n: int)
    requires
        0 <= n <= 20,
    ensures
        fact(n) <= fact(20),
        fact(20) == 2432902008176640000,
    decreases 20 - n,
{
    reveal_with_fuel(fact, 21);
    if n < 20 {
        fact_of_20(n + 1);
        fact_positive(n);
        let f = fact(n) as int;
        assert(fact(n + 1) == (n + 1) * f);
        assert((n + 1) * f >= f) by (nonlinear_arith)
            requires
                n >= 0,
                f > 0,
        ;
    }
}

/// What an operator adds to one coalition: the coalitions with and without it, and
/// the weight of the difference, out of the factorial of the number of operators.
#[derive(Clone, Copy, Debug, PartialEq, Eq, Structural)]
pub struct Marginal {
    pub with: usize,
    pub without: usize,
    pub weight: u64,
}

/// What operator `k` of `n` adds to coalition `s`, where it is in it.
pub open spec fn marginal_of(n: int, k: int, s: int) -> Seq<Marginal> {
    if is_member(s, k) {
        seq![
            Marginal {
                with: s as usize,
                without: (s - pow2(k as nat)) as usize,
                weight: weight_of(n, size_of(s)) as u64,
            },
        ]
    } else {
        Seq::empty()
    }
}

/// All that operator `k` of `n` adds, by coalition.
pub open spec fn marginals_of(n: int, k: int) -> Seq<Marginal> {
    gather(pow2(n as nat) as int, |s: int| marginal_of(n, k, s))
}

/// Two factorials together stay below that of the sum.
proof fn facts_multiply(a: int, b: int)
    requires
        0 <= a,
        0 <= b,
    ensures
        fact(a) * fact(b) <= fact(a + b),
    decreases b,
{
    let (f, g) = (fact(a) as int, fact(b) as int);
    if b == 0 {
        assert(f * 1 == f) by (nonlinear_arith);
    } else {
        facts_multiply(a, b - 1);
        let h = fact(b - 1) as int;
        let w = fact(a + b - 1) as int;
        assert(g == b * h);
        assert(f * (b * h) == b * (f * h)) by (nonlinear_arith);
        fact_positive(a + b - 1);
        assert(b * (f * h) <= (a + b) * w) by (nonlinear_arith)
            requires
                f * h <= w,
                0 <= b,
                0 <= a,
                0 < w,
        ;
    }
}

/// Lists what operator `k` of `n` adds to each coalition that it is in.
pub fn marginal_terms(n_operators: usize, k: usize) -> (r: Vec<Marginal>)
    requires
        n_operators <= MAX_OPERATORS,
        k < n_operators,
    ensures
        r@ == marginals_of(n_operators as int, k as int),
{
    let n: usize = coalition_count(n_operators);
    let bit: usize = coalition_count(k);
    let ghost f = |s: int| marginal_of(n_operators as int, k as int, s);
    let mut out: Vec<Marginal> = Vec::new();
    assert(out@ =~= gather(0, f));
    proof {
        lemma_pow2_pos(k as nat);
    }
    for s in 0..n
        invariant
            n_operators <= 20,
            k < n_operators,
            n == pow2(n_operators as nat),
            n <= 0x10_0000,
            bit == pow2(k as nat),
            bit > 0,
            f == (|s: int| marginal_of(n_operators as int, k as int, s)),
            out@ == gather(s as int, f),
    {
        let ghost before = out@;
        if (s / bit) % 2 == 1 {
            proof {
                leaving(s as int, k as int);
                size_bounds(s as int, n_operators as int);
                assert(s != 0) by {
                    if s == 0 {
                        assert(0int / (bit as int) == 0) by {
                            vstd::arithmetic::div_mod::lemma_div_basics(bit as int);
                        }
                    }
                }
            }
            let size: usize = count_members(s as u32) as usize;
            proof {
                let (a, b) = (size - 1, n_operators - size);
                facts_multiply(a, b);
                fact_of_20(a + b);
            }
            let weight: u64 = factorial(size - 1) * factorial(n_operators - size);
            out.push(Marginal { with: s, without: s - bit, weight });
        }
        assert(out@ =~= before + f(s as int));
    }
    out
}

/// A part of a coalition that may be all that is up: the part, and how many of the
/// coalition are up and down then.
#[derive(Clone, Copy, Debug, PartialEq, Eq, Structural)]
pub struct Outage {
    pub coalition: usize,
    pub up: u32,
    pub down: u32,
}

/// The value counts towards an average.
pub open spec fn is_counted(value: Option<Real>) -> bool {
    value matches Some(x) && x.finite()
}

/// Part `t` of coalition `s`, where its value counts.
pub open spec fn outage_of(values: Seq<Option<Real>>, s: int, t: int) -> Seq<Outage> {
    if is_subset(t, s) && is_counted(values[t]) {
        seq![
            Outage {
                coalition: t as usize,
                up: size_of(t) as u32,
                down: (size_of(s) - size_of(t)) as u32,
            },
        ]
    } else {
        Seq::empty()
    }
}

/// The parts of coalition `s` whose values count, from the whole down to none.
pub open spec fn outages_of(values: Seq<Option<Real>>, s: int) -> Seq<Outage> {
    gather(s + 1, |i: int| outage_of(values, s, s - i))
}

/// Parts of a coalition by their bits.
proof fn subset_bits(t: u32, s: u32)
    ensures
        (t & s == t) == is_subset(t as int, s as int),
    decreases t,
{
    if t == 0 {
        assert(0u32 & s == 0) by (bit_vector);
    } else {
        let (a, b) = (t / 2, s / 2);
        subset_bits(a, b);
        assert((t & s == t) == ((t % 2 == 1 ==> s % 2 == 1) && (a & b == a))) by (bit_vector)
            requires
                a == t / 2,
                b == s / 2,
        ;
    }
}

/// The part of `s` before `t` is the largest below it.
proof fn previous_part(t: u32, s: u32, u: u32)
    requires
        t > 0,
        t & s == t,
    ensures
        ((t - 1) as u32) & s < t,
        (((t - 1) as u32) & s) & s == ((t - 1) as u32) & s,
        u & s == u && u < t ==> u <= ((t - 1) as u32) & s,
{
    assert(((t - 1) as u32) & s < t && (((t - 1) as u32) & s) & s == ((t - 1) as u32) & s && (u & s == u && u < t ==> u
        <= ((t - 1) as u32) & s)) by (bit_vector)
        requires
            t > 0,
            t & s == t,
    ;
}

/// Lists the parts of a coalition whose values count, from the whole down to none.
pub fn outage_terms(s: usize, values: &[Option<Real>]) -> (r: Vec<Outage>)
    requires
        s < values@.len(),
        s < 0x10_0000,
    ensures
        r@ == outages_of(values@, s as int),
{
    let whole: u32 = s as u32;
    let size: u32 = count_members(whole);
    let ghost f = |i: int| outage_of(values@, s as int, s - i);
    let mut out: Vec<Outage> = Vec::new();
    let mut t: u32 = whole;
    proof {
        assert(whole & whole == whole) by (bit_vector);
        assert(out@ =~= gather(0, f));
    }
    loop
        invariant_except_break
            t & whole == t,
            out@ == gather(whole - t, f),
        invariant
            s < values@.len(),
            whole == s,
            size == size_of(s as int),
            t <= whole,
            f == (|i: int| outage_of(values@, s as int, s - i)),
        ensures
            out@ == gather(whole + 1, f),
        decreases t,
    {
        let ghost before = out@;
        proof {
            subset_bits(t, whole);
            subset_bounds(t as int, s as int);
        }
        match values[t as usize] {
            Some(value) => {
                if value.is_finite() {
                    let up: u32 = count_members(t);
                    out.push(Outage { coalition: t as usize, up, down: size - up });
                }
            },
            None => {},
        }
        assert(out@ =~= before + f(whole - t));
        assert(out@ == gather(whole - t + 1, f));
        if t == 0 {
            break;
        }
        let next: u32 = (t - 1) & whole;
        proof {
            previous_part(t, whole, 0);
            assert forall|i: int| whole - t + 1 <= i < whole - next implies (#[trigger] f(i)).len()
                == 0 by {
                let u = (s - i) as u32;
                subset_bits(u, whole);
                previous_part(t, whole, u);
            }
            gather_skips(whole - t + 1, whole - next, f);
        }
        t = next;
    }
    out
}

/// What an empty coalition is worth where its value counts: exactly that, whatever the
/// operators' uptime.
pub fn empty_value(values: &[Option<Real>]) -> (r: Option<Real>)
    requires
        values@.len() > 0,
    ensures
        r == if is_counted(values@[0]) {
            values@[0]
        } else {
            None
        },
{
    match values[0] {
        Some(value) => {
            if value.is_finite() {
                Some(value)
            } else {
                None
            }
        },
        None => None,
    }
}

/// What listed additions come to, times the factorial of the number of operators,
/// where coalition `s` is worth `v(s)`.
pub open spec fn marginal_total(list: Seq<Marginal>, v: spec_fn(int) -> real) -> real
    decreases list.len(),
{
    if list.len() == 0 {
        0real
    } else {
        let last = list.last();
        marginal_total(list.drop_last(), v) + last.weight as real * (v(last.with as int) - v(
            last.without as int,
        ))
    }
}

/// The listed additions of an operator come to its value: over the factorial, they are
/// what the operator is worth.
pub proof fn marginals_give_the_value(n: int, k: int, v: spec_fn(int) -> real)
    requires
        0 <= k < n <= MAX_OPERATORS,
    ensures
        marginal_total(marginals_of(n, k), v) == weighed_value(n, v, k),
        marginal_total(marginals_of(n, k), v) / fact(n) as real == shapley_value(n, v, k),
{
    marginals_upto(n, k, v, pow2(n as nat) as int);
}

proof fn marginals_upto(n: int, k: int, v: spec_fn(int) -> real, m: int)
    requires
        0 <= k < n <= MAX_OPERATORS,
        0 <= m <= pow2(n as nat),
    ensures
        marginal_total(gather(m, |s: int| marginal_of(n, k, s)), v) == sum(
            m,
            |s: int|
                if is_member(s, k) {
                    weight_real(n, size_of(s)) * (v(s) - v(s - pow2(k as nat)))
                } else {
                    0real
                },
        ),
    decreases m,
{
    let f = |s: int| marginal_of(n, k, s);
    if m > 0 {
        marginals_upto(n, k, v, m - 1);
        let s = m - 1;
        let head = gather(m - 1, f);
        if is_member(s, k) {
            leaving(s, k);
            lemma_pow2_pos(k as nat);
            pow2_of_20(n);
            size_bounds(s, n);
            let (a, b) = (size_of(s) - 1, n - size_of(s));
            facts_multiply(a, b);
            fact_of_20(a + b);
            let last = marginal_of(n, k, s)[0];
            assert(gather(m, f) =~= head.push(last));
            assert(head.push(last).drop_last() =~= head);
            assert(last.weight == weight_of(n, size_of(s)));
        } else {
            assert(gather(m, f) =~= head);
        }
    }
}

/// The numbers of coalitions that can be enumerated.
pub proof fn pow2_of_20(n: int)
    requires
        0 <= n <= 20,
    ensures
        pow2(n as nat) <= 0x10_0000,
{
    vstd::arithmetic::power2::lemma2_to64();
    if n < 20 {
        vstd::arithmetic::power2::lemma_pow2_strictly_increases(n as nat, 20);
    }
}

/// What listed parts of a coalition come to, where each operator is up with
/// probability `p` and coalition `s` is worth `v(s)`.
pub open spec fn outage_total(list: Seq<Outage>, p: real, v: spec_fn(int) -> real) -> real
    decreases list.len(),
{
    if list.len() == 0 {
        0real
    } else {
        let last = list.last();
        outage_total(list.drop_last(), p, v) + (power(p, last.up as int) * power(
            1real - p,
            last.down as int,
        )) * v(last.coalition as int)
    }
}

/// The values that count, and nothing for the others.
pub open spec fn counted_values(
    values: Seq<Option<Real>>,
    v: spec_fn(int) -> real,
) -> spec_fn(int) -> real {
    |t: int|
        if is_counted(values[t]) {
            v(t)
        } else {
            0real
        }
}

/// The listed parts of a coalition come to what it is worth on average.
pub proof fn outages_give_the_average(
    n: int,
    values: Seq<Option<Real>>,
    p: real,
    v: spec_fn(int) -> real,
    s: int,
)
    requires
        0 <= n <= MAX_OPERATORS,
        0 <= s < pow2(n as nat),
    ensures
        outage_total(outages_of(values, s), p, v) == expected_value(
            n,
            p,
            counted_values(values, v),
            s,
        ),
{
    let all = pow2(n as nat) as int;
    let w = counted_values(values, v);
    let term = |t: int|
        if is_subset(t, s) {
            chance(p, t, s) * w(t)
        } else {
            0real
        };
    pow2_of_20(n);
    outages_upto(values, p, v, s, s + 1);
    let reversed = |i: int| term(s - i);
    let listed = |i: int|
        if is_subset(s - i, s) {
            chance(p, s - i, s) * counted_values(values, v)(s - i)
        } else {
            0real
        };
    sum_same(s + 1, listed, reversed);
    let flipped = |i: int| term((s + 1) - 1 - i);
    sum_same(s + 1, reversed, flipped);
    sum_reversed(s + 1, term);
    sum_split(s + 1, all - s - 1, term);
    let beyond = |i: int| term(s + 1 + i);
    assert forall|i: int| 0 <= i < all - s - 1 implies #[trigger] beyond(i) == 0real by {
        if is_subset(s + 1 + i, s) {
            subset_bounds(s + 1 + i, s);
        }
    }
    sum_zero(all - s - 1, beyond);
}

proof fn outages_upto(
    values: Seq<Option<Real>>,
    p: real,
    v: spec_fn(int) -> real,
    s: int,
    m: int,
)
    requires
        0 <= m <= s + 1,
        0 <= s < 0x10_0000,
    ensures
        outage_total(gather(m, |i: int| outage_of(values, s, s - i)), p, v) == sum(
            m,
            |i: int|
                if is_subset(s - i, s) {
                    chance(p, s - i, s) * counted_values(values, v)(s - i)
                } else {
                    0real
                },
        ),
    decreases m,
{
    let f = |i: int| outage_of(values, s, s - i);
    if m > 0 {
        outages_upto(values, p, v, s, m - 1);
        let t = s - (m - 1);
        let head = gather(m - 1, f);
        if is_subset(t, s) {
            subset_bounds(t, s);
            size_small(s);
            if is_counted(values[t]) {
                let last = outage_of(values, s, t)[0];
                assert(gather(m, f) =~= head.push(last));
                assert(head.push(last).drop_last() =~= head);
            } else {
                assert(gather(m, f) =~= head);
                let c = chance(p, t, s);
                assert(c * 0real == 0real) by (nonlinear_arith);
            }
        } else {
            assert(gather(m, f) =~= head);
        }
    }
}

/// A coalition has no more operators than its number.
proof fn size_small(s: int)
    requires
        0 <= s,
    ensures
        size_of(s) <= s,
    decreases s,
{
    if s > 0 {
        size_small(s / 2);
    }
}

/// Players have bits of their own, apart from each other and from the bit of those
/// always in.
pub proof fn bits_are_apart(i: int, k: int)
    requires
        0 <= i < 31,
        0 <= k < 31,
    ensures
        player_bit(i) & player_bit(k) != 0 <==> i == k,
        player_bit(i) & ALWAYS_BIT == 0,
{
    let (a, b) = (i as u32, k as u32);
    assert(((1u32 << a) & (1u32 << b) != 0) == (a == b)) by (bit_vector)
        requires
            a < 31,
            b < 31,
    ;
    assert((1u32 << a) & 0x8000_0000u32 == 0) by (bit_vector)
        requires
            a < 31,
    ;
}

/// The bits of a coalition are its members: a player's bit is in the mask of a coalition
/// just where the player is in the coalition, and those always in are in every one.
pub proof fn mask_holds_members(index: u32, k: int)
    requires
        0 <= k < 31,
    ensures
        belongs(player_bit(k), coalition_mask(index)) == is_member(index as int, k),
        belongs(ALWAYS_BIT, coalition_mask(index)),
{
    let b = k as u32;
    assert(((1u32 << b) & (index | 0x8000_0000u32) != 0) == ((index >> b) % 2 == 1))
        by (bit_vector)
        requires
            b < 31,
    ;
    assert(0x8000_0000u32 & (index | 0x8000_0000u32) != 0) by (bit_vector);
    vstd::bits::lemma_u32_shr_is_div(index, b);
}

} // verus!
